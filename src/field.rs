//! Classification of grid cells into sources, targets and body cells.
use vstd::prelude::*;

use crate::decode::{field_view, Field};

verus! {

/// A cell position: (row, column).
pub type P = (usize, usize);

/// The cells of row `i`, each with its position and label.
pub open spec fn row_cells(i: int, row: Seq<usize>) -> Seq<(P, usize)> {
    Seq::new(row.len(), |j: int| ((i as usize, j as usize), row[j]))
}

/// The cells of a grid in row-major order, each with its position and label.
pub open spec fn cells_of(f: Seq<Seq<usize>>) -> Seq<(P, usize)>
    decreases f.len(),
{
    if f.len() == 0 {
        seq![]
    } else {
        cells_of(f.drop_last()) + row_cells(f.len() - 1, f.last())
    }
}

/// How many of the cells carry label `l`.
pub open spec fn count_label(cs: Seq<(P, usize)>, l: usize) -> nat
    decreases cs.len(),
{
    if cs.len() == 0 {
        0
    } else {
        count_label(cs.drop_last(), l) + if cs.last().1 == l { 1nat } else { 0nat }
    }
}

/// Every label is at most 15 and no nonzero label occurs more than twice.
pub open spec fn labels_ok(cs: Seq<(P, usize)>) -> bool {
    forall|k: int| 0 <= k < cs.len() ==> {
        let l = (#[trigger] cs[k]).1;
        l < 16 && (l > 0 ==> count_label(cs, l) <= 2)
    }
}

/// Sources (first occurrences of nonzero labels), targets (second
/// occurrences) and body cells (label 0), each in row-major order.
pub open spec fn roles(cs: Seq<(P, usize)>) -> (Seq<P>, Seq<P>, Seq<P>)
    decreases cs.len(),
{
    if cs.len() == 0 {
        (seq![], seq![], seq![])
    } else {
        let (s, t, b) = roles(cs.drop_last());
        let (p, l) = cs.last();
        if l == 0 {
            (s, t, b.push(p))
        } else if count_label(cs.drop_last(), l) == 0 {
            (s.push(p), t, b)
        } else {
            (s, t.push(p), b)
        }
    }
}

proof fn lemma_count_push(cs: Seq<(P, usize)>, x: (P, usize), l: usize)
    ensures
        count_label(cs.push(x), l) == count_label(cs, l) + if x.1 == l { 1nat } else { 0nat },
{
    assert(cs.push(x).drop_last() =~= cs);
}

proof fn lemma_labels_ok_prefix(cs: Seq<(P, usize)>, n: int)
    requires
        0 <= n <= cs.len(),
        labels_ok(cs),
    ensures
        labels_ok(cs.subrange(0, n)),
    decreases cs.len() - n,
{
    if n < cs.len() {
        let t = cs.subrange(0, n + 1);
        lemma_labels_ok_prefix(cs, n + 1);
        assert(t.drop_last() =~= cs.subrange(0, n));
        assert forall|k: int| 0 <= k < n implies {
            let l = (#[trigger] cs.subrange(0, n)[k]).1;
            l < 16 && (l > 0 ==> count_label(cs.subrange(0, n), l) <= 2)
        } by {
            assert(cs.subrange(0, n)[k] == t[k]);
            lemma_count_push(cs.subrange(0, n), t.last(), cs.subrange(0, n)[k].1);
            assert(t =~= cs.subrange(0, n).push(t.last()));
        }
    } else {
        assert(cs.subrange(0, n) =~= cs);
    }
}

/// Splits the cells of a field into sources, targets and body cells; None
/// when a label exceeds 15 or occurs more than twice.
pub fn parse_field(field: &Field) -> (r: Option<(Vec<P>, Vec<P>, Vec<P>)>)
    ensures
        r is None <==> !labels_ok(cells_of(field_view(field))),
        r matches Some((s, t, b)) ==> (s@, t@, b@) == roles(cells_of(field_view(field))),
{
    let ghost fv = field_view(field);
    let mut cnt: Vec<usize> = vec![0, 0, 0, 0, 0, 0, 0, 0, 0, 0, 0, 0, 0, 0, 0, 0];
    let mut s: Vec<P> = Vec::new();
    let mut t: Vec<P> = Vec::new();
    let mut b: Vec<P> = Vec::new();
    let mut i: usize = 0;
    while i < field.len()
        invariant
            fv == field_view(field),
            i <= fv.len(),
            cnt@.len() == 16,
            labels_ok(cells_of(fv.subrange(0, i as int))),
            forall|l: usize| 0 < l < 16 ==> cnt@[l as int] == count_label(cells_of(fv.subrange(0, i as int)), l),
            (s@, t@, b@) == roles(cells_of(fv.subrange(0, i as int))),
        decreases fv.len() - i,
    {
        let row = &field[i];
        let ghost before = cells_of(fv.subrange(0, i as int));
        assert(fv.subrange(0, i + 1).drop_last() =~= fv.subrange(0, i as int));
        assert(fv[i as int] == row@);
        let mut j: usize = 0;
        while j < row.len()
            invariant
                fv == field_view(field),
                i < fv.len(),
                fv[i as int] == row@,
                before == cells_of(fv.subrange(0, i as int)),
                j <= row@.len(),
                cnt@.len() == 16,
                labels_ok(before + row_cells(i as int, row@.subrange(0, j as int))),
                forall|l: usize| 0 < l < 16 ==> cnt@[l as int]
                    == count_label(before + row_cells(i as int, row@.subrange(0, j as int)), l),
                (s@, t@, b@) == roles(before + row_cells(i as int, row@.subrange(0, j as int))),
            decreases row@.len() - j,
        {
            let ghost cur = before + row_cells(i as int, row@.subrange(0, j as int));
            let ghost nxt = before + row_cells(i as int, row@.subrange(0, j + 1));
            let p = row[j];
            let ghost x = ((i, j), p);
            assert(nxt =~= cur.push(x));
            assert(nxt == cells_of(fv.subrange(0, i as int)) + row_cells(i as int, fv[i as int].subrange(0, j + 1)));
            assert(nxt.drop_last() =~= cur);
            assert forall|l: usize| #![auto] count_label(nxt, l) == count_label(cur, l) + if p == l { 1nat } else { 0nat } by {
                lemma_count_push(cur, x, l);
            }
            if p >= 16 {
                assert(nxt[nxt.len() - 1] == x);
                assert(!labels_ok(nxt));
                proof {
                    lemma_labels_ok_whole_row(fv, i as int, j as int);
                }
                return None;
            }
            if p > 0 {
                if cnt[p] >= 2 {
                    assert(nxt[nxt.len() - 1] == x);
                    assert(count_label(nxt, p) >= 3);
                    assert(!labels_ok(nxt));
                    proof {
                        lemma_labels_ok_whole_row(fv, i as int, j as int);
                    }
                    return None;
                }
                if cnt[p] == 0 {
                    s.push((i, j));
                } else {
                    t.push((i, j));
                }
                cnt.set(p, cnt[p] + 1);
            } else {
                b.push((i, j));
            }
            j = j + 1;
            assert forall|k: int| 0 <= k < nxt.len() implies {
                let l = (#[trigger] nxt[k]).1;
                l < 16 && (l > 0 ==> count_label(nxt, l) <= 2)
            } by {
                if k < cur.len() {
                    assert(nxt[k] == cur[k]);
                }
            }
        }
        assert(row@.subrange(0, j as int) =~= row@);
        i = i + 1;
    }
    assert(fv.subrange(0, i as int) =~= fv);
    Some((s, t, b))
}

/// A field whose prefix up to row `i`, column `j` (inclusive) breaks
/// `labels_ok` breaks it as a whole.
proof fn lemma_labels_ok_whole_row(fv: Seq<Seq<usize>>, i: int, j: int)
    requires
        0 <= i < fv.len(),
        0 <= j < fv[i].len(),
        !labels_ok(cells_of(fv.subrange(0, i)) + row_cells(i, fv[i].subrange(0, j + 1))),
    ensures
        !labels_ok(cells_of(fv)),
{
    let pre = cells_of(fv.subrange(0, i)) + row_cells(i, fv[i].subrange(0, j + 1));
    lemma_cells_prefix(fv, i, j + 1);
    let n = pre.len() as int;
    if labels_ok(cells_of(fv)) {
        lemma_labels_ok_prefix(cells_of(fv), n);
        assert(cells_of(fv).subrange(0, n) =~= pre);
    }
}

/// The cells of the rows before `i` and the first `j` cells of row `i` are a
/// prefix of the cells of the whole grid.
proof fn lemma_cells_prefix(fv: Seq<Seq<usize>>, i: int, j: int)
    requires
        0 <= i < fv.len(),
        0 <= j <= fv[i].len(),
    ensures
        cells_of(fv.subrange(0, i)) + row_cells(i, fv[i].subrange(0, j))
            =~= cells_of(fv).subrange(0, cells_of(fv.subrange(0, i)).len() + j),
        cells_of(fv.subrange(0, i)).len() + j <= cells_of(fv).len(),
    decreases fv.len(),
{
    if i == fv.len() - 1 {
        assert(fv.drop_last() =~= fv.subrange(0, i));
    } else {
        lemma_cells_prefix(fv.drop_last(), i, j);
        assert(fv.drop_last().subrange(0, i) =~= fv.subrange(0, i));
    }
}

/// Each cell of `cells_of` sits inside its row and carries that row's label.
pub proof fn lemma_cells_in_rows(fv: Seq<Seq<usize>>)
    requires
        fv.len() <= usize::MAX,
        forall|r: int| 0 <= r < fv.len() ==> (#[trigger] fv[r]).len() <= usize::MAX,
    ensures
        forall|k: int| 0 <= k < cells_of(fv).len() ==> {
            let (p, l) = #[trigger] cells_of(fv)[k];
            p.0 < fv.len() && p.1 < fv[p.0 as int].len() && l == fv[p.0 as int][p.1 as int]
        },
    decreases fv.len(),
{
    if fv.len() > 0 {
        let init = fv.drop_last();
        assert forall|r: int| 0 <= r < init.len() implies (#[trigger] init[r]).len() <= usize::MAX by {
            assert(init[r] == fv[r]);
        }
        lemma_cells_in_rows(init);
        let cs = cells_of(fv);
        let a = cells_of(init);
        let rc = row_cells(fv.len() - 1, fv.last());
        assert forall|k: int| 0 <= k < cs.len() implies {
            let (p, l) = #[trigger] cs[k];
            p.0 < fv.len() && p.1 < fv[p.0 as int].len() && l == fv[p.0 as int][p.1 as int]
        } by {
            if k < a.len() {
                assert(cs[k] == a[k]);
                assert(init[a[k].0.0 as int] == fv[a[k].0.0 as int]);
            } else {
                assert(cs[k] == rc[k - a.len()]);
                assert(fv.last() == fv[fv.len() - 1]);
            }
        }
    }
}

/// Every source, target and body cell is one of the cells.
pub proof fn lemma_roles_from_cells(cs: Seq<(P, usize)>)
    ensures
        forall|i: int| 0 <= i < roles(cs).0.len() ==> exists|k: int| 0 <= k < cs.len() && (#[trigger] roles(cs).0[i]) == cs[k].0,
        forall|i: int| 0 <= i < roles(cs).1.len() ==> exists|k: int| 0 <= k < cs.len() && (#[trigger] roles(cs).1[i]) == cs[k].0,
        forall|i: int| 0 <= i < roles(cs).2.len() ==> exists|k: int| 0 <= k < cs.len() && (#[trigger] roles(cs).2[i]) == cs[k].0,
        roles(cs).0.len() + roles(cs).1.len() + roles(cs).2.len() == cs.len(),
    decreases cs.len(),
{
    if cs.len() > 0 {
        let init = cs.drop_last();
        lemma_roles_from_cells(init);
        let (s0, t0, b0) = roles(init);
        assert forall|i: int| 0 <= i < roles(cs).0.len() implies exists|k: int| 0 <= k < cs.len() && (#[trigger] roles(cs).0[i]) == cs[k].0 by {
            if i < s0.len() {
                let k = choose|k: int| 0 <= k < init.len() && s0[i] == init[k].0;
                assert(roles(cs).0[i] == s0[i] && cs[k] == init[k]);
            } else {
                assert(roles(cs).0[i] == cs[cs.len() - 1].0);
            }
        }
        assert forall|i: int| 0 <= i < roles(cs).1.len() implies exists|k: int| 0 <= k < cs.len() && (#[trigger] roles(cs).1[i]) == cs[k].0 by {
            if i < t0.len() {
                let k = choose|k: int| 0 <= k < init.len() && t0[i] == init[k].0;
                assert(roles(cs).1[i] == t0[i] && cs[k] == init[k]);
            } else {
                assert(roles(cs).1[i] == cs[cs.len() - 1].0);
            }
        }
        assert forall|i: int| 0 <= i < roles(cs).2.len() implies exists|k: int| 0 <= k < cs.len() && (#[trigger] roles(cs).2[i]) == cs[k].0 by {
            if i < b0.len() {
                let k = choose|k: int| 0 <= k < init.len() && b0[i] == init[k].0;
                assert(roles(cs).2[i] == b0[i] && cs[k] == init[k]);
            } else {
                assert(roles(cs).2[i] == cs[cs.len() - 1].0);
            }
        }
    }
}

/// A grid of `h` rows of `w` cells has `w * h` cells.
pub proof fn lemma_cells_len(fv: Seq<Seq<usize>>, w: nat)
    requires
        forall|r: int| 0 <= r < fv.len() ==> (#[trigger] fv[r]).len() == w,
    ensures
        cells_of(fv).len() == fv.len() * w,
    decreases fv.len(),
{
    if fv.len() > 0 {
        let init = fv.drop_last();
        assert forall|r: int| 0 <= r < init.len() implies (#[trigger] init[r]).len() == w by {
            assert(init[r] == fv[r]);
        }
        lemma_cells_len(init, w);
        assert(fv.last().len() == w);
        assert(cells_of(fv).len() == init.len() * w + w);
        assert(init.len() * w + w == fv.len() * w) by (nonlinear_arith)
            requires init.len() + 1 == fv.len();
    }
}

/// Number of labels `l` with `0 < l < m` that occur exactly once.
pub open spec fn singles(cs: Seq<(P, usize)>, m: nat) -> nat
    decreases m,
{
    if m <= 1 {
        0
    } else {
        singles(cs, (m - 1) as nat) + if count_label(cs, (m - 1) as usize) == 1 { 1nat } else { 0nat }
    }
}

proof fn lemma_singles_push(cs: Seq<(P, usize)>, x: (P, usize), m: nat)
    requires
        m <= 16,
        0 < x.1,
    ensures
        x.1 >= m ==> singles(cs.push(x), m) == singles(cs, m),
        x.1 < m && count_label(cs, x.1) == 0 ==> singles(cs.push(x), m) == singles(cs, m) + 1,
        x.1 < m && count_label(cs, x.1) == 1 ==> singles(cs.push(x), m) + 1 == singles(cs, m),
        x.1 < m && count_label(cs, x.1) >= 2 ==> singles(cs.push(x), m) == singles(cs, m),
    decreases m,
{
    if m > 1 {
        lemma_singles_push(cs, x, (m - 1) as nat);
        lemma_count_push(cs, x, (m - 1) as usize);
    }
}

proof fn lemma_roles_diff(cs: Seq<(P, usize)>)
    requires
        labels_ok(cs),
    ensures
        roles(cs).0.len() == roles(cs).1.len() + singles(cs, 16),
    decreases cs.len(),
{
    if cs.len() == 0 {
        lemma_singles_zero(cs, 16);
    } else {
        let init = cs.drop_last();
        let x = cs.last();
        lemma_labels_ok_prefix(cs, cs.len() - 1);
        assert(cs.subrange(0, cs.len() - 1) =~= init);
        lemma_roles_diff(init);
        assert(init.push(x) =~= cs);
        assert(cs[cs.len() - 1] == x);
        if x.1 == 0 {
            lemma_singles_unchanged(init, x, 16);
        } else {
            lemma_singles_push(init, x, 16);
            lemma_count_push(init, x, x.1);
        }
    }
}

proof fn lemma_singles_zero(cs: Seq<(P, usize)>, m: nat)
    requires
        cs.len() == 0,
    ensures
        singles(cs, m) == 0,
    decreases m,
{
    if m > 1 {
        lemma_singles_zero(cs, (m - 1) as nat);
    }
}

proof fn lemma_singles_unchanged(cs: Seq<(P, usize)>, x: (P, usize), m: nat)
    requires
        x.1 == 0,
        m <= 16,
    ensures
        singles(cs.push(x), m) == singles(cs, m),
    decreases m,
{
    if m > 1 {
        lemma_singles_unchanged(cs, x, (m - 1) as nat);
        lemma_count_push(cs, x, (m - 1) as usize);
    }
}

proof fn lemma_no_singles(cs: Seq<(P, usize)>, m: nat)
    requires
        m <= 16,
        forall|l: usize| 0 < l < m ==> count_label(cs, l) != 1,
    ensures
        singles(cs, m) == 0,
    decreases m,
{
    if m > 1 {
        lemma_no_singles(cs, (m - 1) as nat);
        assert(count_label(cs, (m - 1) as usize) != 1);
    }
}

proof fn lemma_count_positive(cs: Seq<(P, usize)>, l: usize)
    requires
        count_label(cs, l) > 0,
    ensures
        exists|k: int| 0 <= k < cs.len() && (#[trigger] cs[k]).1 == l,
    decreases cs.len(),
{
    let init = cs.drop_last();
    if cs.last().1 != l {
        lemma_count_positive(init, l);
        let k = choose|k: int| 0 <= k < init.len() && (#[trigger] init[k]).1 == l;
        assert(cs[k] == init[k]);
    } else {
        assert(cs[cs.len() - 1].1 == l);
    }
}

/// In a rectangular field whose nonzero labels are at most 15 and occur
/// exactly twice each, there are as many sources as targets, and sources,
/// targets and body cells together are the `width * height` cells.
pub proof fn lemma_roles_balanced(fv: Seq<Seq<usize>>, width: nat)
    requires
        forall|r: int| 0 <= r < fv.len() ==> (#[trigger] fv[r]).len() == width,
        labels_ok(cells_of(fv)),
        forall|k: int| 0 <= k < cells_of(fv).len() && (#[trigger] cells_of(fv)[k]).1 > 0
            ==> count_label(cells_of(fv), cells_of(fv)[k].1) == 2,
    ensures
        roles(cells_of(fv)).0.len() == roles(cells_of(fv)).1.len(),
        roles(cells_of(fv)).0.len() + roles(cells_of(fv)).1.len() + roles(cells_of(fv)).2.len()
            == fv.len() * width,
{
    let cs = cells_of(fv);
    lemma_roles_diff(cs);
    lemma_roles_from_cells(cs);
    lemma_cells_len(fv, width);
    assert forall|l: usize| 0 < l < 16 implies count_label(cs, l) != 1 by {
        if count_label(cs, l) == 1 {
            lemma_count_positive(cs, l);
        }
    }
    lemma_no_singles(cs, 16);
}

proof fn lemma_some_single(cs: Seq<(P, usize)>, m: nat, l: usize)
    requires
        m <= 16,
        0 < l < m,
        count_label(cs, l) == 1,
    ensures
        singles(cs, m) >= 1,
    decreases m,
{
    if l < m - 1 {
        lemma_some_single(cs, (m - 1) as nat, l);
    }
}

/// When a nonzero label occurs only once, there are more sources than
/// targets, so the field is rejected as malformed.
pub proof fn lemma_single_label_unbalanced(fv: Seq<Seq<usize>>, k: int)
    requires
        labels_ok(cells_of(fv)),
        0 <= k < cells_of(fv).len(),
        cells_of(fv)[k].1 > 0,
        count_label(cells_of(fv), cells_of(fv)[k].1) == 1,
    ensures
        roles(cells_of(fv)).0.len() > roles(cells_of(fv)).1.len(),
{
    let cs = cells_of(fv);
    lemma_roles_diff(cs);
    assert(cs[k].1 < 16);
    lemma_some_single(cs, 16, cs[k].1);
}

} // verus!
