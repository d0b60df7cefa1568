//! The directed 4-adjacency graph over the cells of a grid.
use vstd::prelude::*;

use crate::field::P;

verus! {

/// A directed edge between two grid-adjacent cells.
pub type Arc = (P, P);

/// The cell lies inside a grid of the given width and height.
pub open spec fn in_grid(p: P, width: usize, height: usize) -> bool {
    p.0 < height && p.1 < width
}

/// The two cells share a side.
pub open spec fn adjacent(u: P, v: P) -> bool {
    (u.0 == v.0 && (u.1 + 1 == v.1 || v.1 + 1 == u.1))
        || (u.1 == v.1 && (u.0 + 1 == v.0 || v.0 + 1 == u.0))
}

/// The one-element sequence of `(r, c)` when that cell is in the grid, else empty.
pub open spec fn if_in_grid(r: int, c: int, width: usize, height: usize) -> Seq<P> {
    if 0 <= r < height && 0 <= c < width {
        seq![(r as usize, c as usize)]
    } else {
        seq![]
    }
}

/// The neighbours of `p` inside the grid: right, down, left, up, in that order.
pub open spec fn adj_spec(p: P, width: usize, height: usize) -> Seq<P> {
    if_in_grid(p.0 as int, p.1 + 1, width, height)
        + if_in_grid(p.0 + 1, p.1 as int, width, height)
        + if_in_grid(p.0 as int, p.1 - 1, width, height)
        + if_in_grid(p.0 - 1, p.1 as int, width, height)
}

/// The neighbour list of a cell holds exactly its in-grid adjacent cells, once each.
pub proof fn lemma_adj_spec(p: P, width: usize, height: usize)
    requires
        in_grid(p, width, height),
    ensures
        adj_spec(p, width, height).no_duplicates(),
        forall|v: P| adj_spec(p, width, height).contains(v)
            <==> (in_grid(v, width, height) && adjacent(p, v)),
        forall|k: int| 0 <= k < adj_spec(p, width, height).len() ==>
            in_grid(#[trigger] adj_spec(p, width, height)[k], width, height)
            && adjacent(p, adj_spec(p, width, height)[k]),
{
    let s0 = if_in_grid(p.0 as int, p.1 + 1, width, height);
    let s1 = if_in_grid(p.0 + 1, p.1 as int, width, height);
    let s2 = if_in_grid(p.0 as int, p.1 - 1, width, height);
    let s3 = if_in_grid(p.0 - 1, p.1 as int, width, height);
    let a = adj_spec(p, width, height);
    assert(a == s0 + s1 + s2 + s3);
    assert forall|v: P| in_grid(v, width, height) && adjacent(p, v) implies a.contains(v) by {
        if v.0 == p.0 && v.1 == p.1 + 1 {
            assert(s0 =~= seq![v]);
            assert(a[0] == v);
        } else if v.1 == p.1 && v.0 == p.0 + 1 {
            assert(s1 =~= seq![v]);
            assert(a[s0.len() as int] == v);
        } else if v.0 == p.0 && v.1 + 1 == p.1 {
            assert(s2 =~= seq![v]);
            assert(a[(s0.len() + s1.len()) as int] == v);
        } else {
            assert(s3 =~= seq![v]);
            assert(a[a.len() - 1] == v);
        }
    }
}

/// The in-grid neighbours of a cell, right, down, left, up.
pub fn adj(p: P, width: usize, height: usize) -> (r: Vec<P>)
    requires
        in_grid(p, width, height),
    ensures
        r@ == adj_spec(p, width, height),
{
    let mut res: Vec<P> = Vec::new();
    if p.1 + 1 < width {
        res.push((p.0, p.1 + 1));
    }
    if p.0 + 1 < height {
        res.push((p.0 + 1, p.1));
    }
    if p.1 > 0 {
        res.push((p.0, p.1 - 1));
    }
    if p.0 > 0 {
        res.push((p.0 - 1, p.1));
    }
    assert(res@ =~= adj_spec(p, width, height));
    res
}

/// The arcs out of `u`, in the order of its neighbours.
pub open spec fn cell_arcs(u: P, width: usize, height: usize) -> Seq<Arc> {
    adj_spec(u, width, height).map_values(|v: P| (u, v))
}

/// The arcs out of the first `j` cells of row `r`.
pub open spec fn row_arcs(r: usize, j: nat, width: usize, height: usize) -> Seq<Arc>
    decreases j,
{
    if j == 0 {
        seq![]
    } else {
        row_arcs(r, (j - 1) as nat, width, height) + cell_arcs((r, (j - 1) as usize), width, height)
    }
}

/// The arcs out of the cells of the first `i` rows, in row-major order.
pub open spec fn grid_arcs(i: nat, width: usize, height: usize) -> Seq<Arc>
    decreases i,
{
    if i == 0 {
        seq![]
    } else {
        grid_arcs((i - 1) as nat, width, height) + row_arcs((i - 1) as usize, width as nat, width, height)
    }
}

/// Cell `u` comes before cell `(r, c)` in row-major order.
pub open spec fn before(u: P, r: int, c: int) -> bool {
    u.0 < r || (u.0 == r && u.1 < c)
}

/// The arcs are exactly the ordered pairs of adjacent in-grid cells, each once.
pub open spec fn arcs_exact(arcs: Seq<Arc>, width: usize, height: usize) -> bool {
    &&& arcs.no_duplicates()
    &&& forall|k: int| 0 <= k < arcs.len() ==> {
        let (u, v) = #[trigger] arcs[k];
        in_grid(u, width, height) && in_grid(v, width, height) && adjacent(u, v)
    }
    &&& forall|u: P, v: P| in_grid(u, width, height) && in_grid(v, width, height)
        && adjacent(u, v) ==> #[trigger] arcs.contains((u, v))
}

/// One arc for each ordered pair of adjacent cells, in row-major order of the
/// first cell and, for each cell, in the order of `adj`.
pub fn gen_arcs(width: usize, height: usize) -> (r: Vec<Arc>)
    ensures
        arcs_exact(r@, width, height),
        r@ == grid_arcs(height as nat, width, height),
        r@.len() <= 4 * width * height,
{
    let mut res: Vec<Arc> = Vec::new();
    let mut i: usize = 0;
    while i < height
        invariant
            i <= height,
            res@.len() <= 4 * (i * width),
            res@ == grid_arcs(i as nat, width, height),
            res@.no_duplicates(),
            forall|k: int| 0 <= k < res@.len() ==> {
                let (u, v) = #[trigger] res@[k];
                in_grid(u, width, height) && in_grid(v, width, height) && adjacent(u, v)
                    && before(u, i as int, 0)
            },
            forall|u: P, v: P| in_grid(u, width, height) && in_grid(v, width, height)
                && adjacent(u, v) && before(u, i as int, 0) ==> #[trigger] res@.contains((u, v)),
        decreases height - i,
    {
        let mut j: usize = 0;
        assert(res@ =~= grid_arcs(i as nat, width, height) + row_arcs(i, 0, width, height));
        while j < width
            invariant
                i < height,
                j <= width,
                res@.len() <= 4 * (i * width + j),
                res@ == grid_arcs(i as nat, width, height) + row_arcs(i, j as nat, width, height),
                res@.no_duplicates(),
                forall|k: int| 0 <= k < res@.len() ==> {
                    let (u, v) = #[trigger] res@[k];
                    in_grid(u, width, height) && in_grid(v, width, height) && adjacent(u, v)
                        && before(u, i as int, j as int)
                },
                forall|u: P, v: P| in_grid(u, width, height) && in_grid(v, width, height)
                    && adjacent(u, v) && before(u, i as int, j as int)
                    ==> #[trigger] res@.contains((u, v)),
            decreases width - j,
        {
            let u: P = (i, j);
            let adjs = adj(u, width, height);
            proof {
                lemma_adj_spec(u, width, height);
            }
            let ghost start = res@;
            let mut k: usize = 0;
            while k < adjs.len()
                invariant
                    i < height,
                    j < width,
                    u == (i, j),
                    adjs@ == adj_spec(u, width, height),
                    adjs@.no_duplicates(),
                    forall|m: int| 0 <= m < adjs@.len() ==>
                        in_grid(#[trigger] adjs@[m], width, height) && adjacent(u, adjs@[m]),
                    k <= adjs@.len(),
                    forall|m: int| 0 <= m < start.len() ==> {
                        let (a, b) = #[trigger] start[m];
                        in_grid(a, width, height) && in_grid(b, width, height) && adjacent(a, b)
                            && before(a, i as int, j as int)
                    },
                    start.no_duplicates(),
                    adjs@.len() <= 4,
                    start == grid_arcs(i as nat, width, height) + row_arcs(i, j as nat, width, height),
                    res@ == start + cell_arcs(u, width, height).subrange(0, k as int),
                    res@.len() == start.len() + k,
                    forall|m: int| 0 <= m < start.len() ==> res@[m] == start[m],
                    forall|m: int| 0 <= m < k ==> #[trigger] res@[start.len() + m] == (u, adjs@[m]),
                    res@.no_duplicates(),
                decreases adjs@.len() - k,
            {
                let ghost prev = res@;
                res.push((u, adjs[k]));
                assert(res@ =~= start + cell_arcs(u, width, height).subrange(0, k + 1));
                assert forall|a: int, b: int| 0 <= a < b < res@.len() implies res@[a] != res@[b] by {
                    if b == res@.len() - 1 && a >= start.len() {
                        assert(prev[start.len() + (a - start.len())] == (u, adjs@[a - start.len()]));
                        assert(res@[a] == prev[a]);
                    } else if b == res@.len() - 1 {
                        assert(res@[a] == start[a]);
                    } else {
                        assert(res@[a] == prev[a] && res@[b] == prev[b]);
                    }
                }
                k = k + 1;
            }
            assert forall|m: int| 0 <= m < res@.len() implies {
                let (a, b) = #[trigger] res@[m];
                in_grid(a, width, height) && in_grid(b, width, height) && adjacent(a, b)
                    && before(a, i as int, j + 1)
            } by {
                if m >= start.len() {
                    assert(res@[start.len() + (m - start.len())] == (u, adjs@[m - start.len()]));
                } else {
                    assert(res@[m] == start[m]);
                }
            }
            assert forall|a: P, b: P| in_grid(a, width, height) && in_grid(b, width, height)
                && adjacent(a, b) && before(a, i as int, j + 1)
                implies #[trigger] res@.contains((a, b)) by {
                if a == u {
                    assert(adjs@.contains(b));
                    let m = choose|m: int| 0 <= m < adjs@.len() && adjs@[m] == b;
                    assert(res@[start.len() + m] == (u, adjs@[m]));
                } else {
                    assert(start.contains((a, b)));
                    let m = choose|m: int| 0 <= m < start.len() && start[m] == (a, b);
                    assert(res@[m] == start[m]);
                }
            }
            assert(cell_arcs(u, width, height).subrange(0, adjs@.len() as int) =~= cell_arcs(u, width, height));
            assert(row_arcs(i, (j + 1) as nat, width, height)
                == row_arcs(i, j as nat, width, height) + cell_arcs(u, width, height));
            assert(res@ =~= grid_arcs(i as nat, width, height) + row_arcs(i, (j + 1) as nat, width, height));
            j = j + 1;
        }
        assert(grid_arcs((i + 1) as nat, width, height)
            == grid_arcs(i as nat, width, height) + row_arcs(i, width as nat, width, height));
        assert(i * width + width == (i + 1) * width) by (nonlinear_arith);
        i = i + 1;
    }
    assert(4 * (height * width) == 4 * width * height) by (nonlinear_arith);
    res
}

} // verus!
