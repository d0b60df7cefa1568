//! The reduction of a Numberlink field to a formula over one variable per arc.
use vstd::prelude::*;

use crate::arcs::{adj, adj_spec, arcs_exact, in_grid, lemma_adj_spec, Arc};
use crate::cardinality::{
    clause_true, count_true, covers, formula_true, lit_true, mk_clause_eq1, mk_clause_less2,
    over_vars, Clause, Literal,
};
use crate::decode::{field_view, Field};
use crate::field::P;

verus! {

/// The part a cell plays in the flow.
#[derive(Debug, Clone, Copy, PartialEq, Eq, Structural)]
pub enum Role {
    /// First cell of a label: one unit of flow leaves it, none enters.
    Source,
    /// Second cell of a label: one unit of flow enters it, none leaves.
    Target,
    /// Unlabelled cell: at most one unit enters and at most one leaves.
    Body,
}

/// The variable of an arc: its index in the arc list.
pub open spec fn arc_index(arcs: Seq<Arc>, x: Arc) -> int {
    choose|k: int| 0 <= k < arcs.len() && arcs[k] == x
}

/// Variables of the arcs that leave `u`, in the order of its neighbours.
pub open spec fn out_vars(arcs: Seq<Arc>, u: P, width: usize, height: usize) -> Seq<usize> {
    adj_spec(u, width, height).map_values(|v: P| arc_index(arcs, (u, v)) as usize)
}

/// Variables of the arcs that enter `u`, in the order of its neighbours.
pub open spec fn in_vars(arcs: Seq<Arc>, u: P, width: usize, height: usize) -> Seq<usize> {
    adj_spec(u, width, height).map_values(|v: P| arc_index(arcs, (v, u)) as usize)
}

/// The flow through `u` agrees with its role.
pub open spec fn degree_ok(role: Role, arcs: Seq<Arc>, u: P, width: usize, height: usize, a: Seq<bool>) -> bool {
    let o = count_true(out_vars(arcs, u, width, height), a);
    let i = count_true(in_vars(arcs, u, width, height), a);
    match role {
        Role::Source => o == 1 && i == 0,
        Role::Target => o == 0 && i == 1,
        Role::Body => o <= 1 && i <= 1,
    }
}

/// Label of a cell.
pub open spec fn label(fv: Seq<Seq<usize>>, p: P) -> usize {
    fv[p.0 as int][p.1 as int]
}

/// The field has `height` rows of `width` labels.
pub open spec fn is_grid(fv: Seq<Seq<usize>>, width: usize, height: usize) -> bool {
    fv.len() == height && forall|r: int| 0 <= r < height ==> (#[trigger] fv[r]).len() == width
}

/// Flow only runs along arcs between cells of equal label.
pub open spec fn labels_respected(fv: Seq<Seq<usize>>, arcs: Seq<Arc>, a: Seq<bool>) -> bool {
    forall|k: int| 0 <= k < arcs.len() && label(fv, (#[trigger] arcs[k]).0) != label(fv, arcs[k].1) ==> !a[k]
}

/// Flow never runs both ways along one edge.
pub open spec fn one_way(arcs: Seq<Arc>, a: Seq<bool>) -> bool {
    forall|k: int| 0 <= k < arcs.len() ==> !(a[k] && a[arc_index(arcs, ((#[trigger] arcs[k]).1, arcs[k].0))])
}

/// Every listed cell agrees with the role.
pub open spec fn degrees_ok(role: Role, arcs: Seq<Arc>, ps: Seq<P>, width: usize, height: usize, a: Seq<bool>) -> bool {
    forall|i: int| 0 <= i < ps.len() ==> degree_ok(role, arcs, #[trigger] ps[i], width, height, a)
}

/// What a model of the encoding is: a flow along arcs that respects labels,
/// runs one way along each edge, and meets the degree of every cell's role.
pub open spec fn flow_ok(
    fv: Seq<Seq<usize>>,
    arcs: Seq<Arc>,
    s: Seq<P>,
    t: Seq<P>,
    b: Seq<P>,
    width: usize,
    height: usize,
    a: Seq<bool>,
) -> bool {
    &&& labels_respected(fv, arcs, a)
    &&& one_way(arcs, a)
    &&& degrees_ok(Role::Source, arcs, s, width, height, a)
    &&& degrees_ok(Role::Target, arcs, t, width, height, a)
    &&& degrees_ok(Role::Body, arcs, b, width, height, a)
}

/// The clauses over variables below `n` only.
pub open spec fn vars_below(f: Seq<Clause>, n: nat) -> bool {
    forall|j: int, i: int| 0 <= j < f.len() && 0 <= i < f[j]@.len() ==> (#[trigger] f[j]@[i]).var < n
}

proof fn lemma_formula_concat(f1: Seq<Clause>, f2: Seq<Clause>, a: Seq<bool>)
    ensures
        formula_true(f1 + f2, a) <==> (formula_true(f1, a) && formula_true(f2, a)),
{
    let f = f1 + f2;
    if formula_true(f1, a) && formula_true(f2, a) {
        assert forall|j: int| 0 <= j < f.len() implies clause_true(#[trigger] f[j]@, a) by {
            if j < f1.len() {
                assert(f[j] == f1[j]);
            } else {
                assert(f[j] == f2[j - f1.len()]);
            }
        }
    }
    if formula_true(f, a) {
        assert forall|j: int| 0 <= j < f1.len() implies clause_true(#[trigger] f1[j]@, a) by {
            assert(f[j] == f1[j]);
        }
        assert forall|j: int| 0 <= j < f2.len() implies clause_true(#[trigger] f2[j]@, a) by {
            assert(f[j + f1.len()] == f2[j]);
        }
    }
}

proof fn lemma_unit_clause(k: usize, a: Seq<bool>)
    requires
        k < a.len(),
    ensures
        clause_true(seq![Literal { var: k, positive: false }], a) <==> !a[k as int],
{
    let c = seq![Literal { var: k, positive: false }];
    if !a[k as int] {
        assert(lit_true(c[0], a));
    }
}

proof fn lemma_count_zero(vars: Seq<usize>, a: Seq<bool>)
    ensures
        count_true(vars, a) == 0 <==> forall|i: int| 0 <= i < vars.len() ==> !a[#[trigger] vars[i] as int],
    decreases vars.len(),
{
    if vars.len() > 0 {
        lemma_count_zero(vars.drop_first(), a);
        if count_true(vars, a) == 0 {
            assert forall|i: int| 0 <= i < vars.len() implies !a[#[trigger] vars[i] as int] by {
                if i > 0 {
                    assert(vars.drop_first()[i - 1] == vars[i]);
                }
            }
        }
        if forall|i: int| 0 <= i < vars.len() ==> !a[#[trigger] vars[i] as int] {
            assert forall|i: int| 0 <= i < vars.drop_first().len() implies !a[#[trigger] vars.drop_first()[i] as int] by {
                assert(vars.drop_first()[i] == vars[i + 1]);
            }
            assert(!a[vars[0] as int]);
        }
    }
}

proof fn lemma_arc_index(arcs: Seq<Arc>, k: int)
    requires
        arcs.no_duplicates(),
        0 <= k < arcs.len(),
    ensures
        arc_index(arcs, arcs[k]) == k,
{
    let j = arc_index(arcs, arcs[k]);
    assert(0 <= j < arcs.len() && arcs[j] == arcs[k]);
}

/// Index of an arc in the list, looked for first among the few arcs from
/// index `hint` on.
fn find_arc(arcs: &Vec<Arc>, x: Arc, hint: usize) -> (r: usize)
    requires
        arcs@.no_duplicates(),
        arcs@.contains(x),
    ensures
        r == arc_index(arcs@, x),
        r < arcs@.len(),
{
    let mut h: usize = hint;
    while h < arcs.len() && h - hint < 4
        invariant
            hint <= h,
            arcs@.no_duplicates(),
        decreases arcs@.len() - h,
    {
        let y = arcs[h];
        if y.0.0 == x.0.0 && y.0.1 == x.0.1 && y.1.0 == x.1.0 && y.1.1 == x.1.1 {
            proof {
                lemma_arc_index(arcs@, h as int);
            }
            return h;
        }
        h = h + 1;
    }
    let mut k: usize = 0;
    while k < arcs.len()
        invariant
            k <= arcs@.len(),
            arcs@.contains(x),
            arcs@.no_duplicates(),
            forall|m: int| 0 <= m < k ==> arcs@[m] != x,
        decreases arcs@.len() - k,
    {
        let y = arcs[k];
        if y.0.0 == x.0.0 && y.0.1 == x.0.1 && y.1.0 == x.1.0 && y.1.1 == x.1.1 {
            proof {
                lemma_arc_index(arcs@, k as int);
            }
            return k;
        }
        k = k + 1;
    }
    proof {
        let m = choose|m: int| 0 <= m < arcs@.len() && arcs@[m] == x;
        assert(arcs@[m] == x);
    }
    0
}

/// For each cell, in row-major order, the index of its first arc: where
/// `find_arc` starts looking for the arcs of that cell.
fn arc_starts(arcs: &Vec<Arc>, width: usize, height: usize) -> (r: Vec<usize>)
    requires
        arcs_exact(arcs@, width, height),
        width * height <= usize::MAX,
    ensures
        r@.len() == width * height,
{
    let cells = width * height;
    let mut starts: Vec<usize> = Vec::new();
    while starts.len() < cells
        invariant
            starts@.len() <= cells,
        decreases cells - starts@.len(),
    {
        starts.push(0);
    }
    let mut k: usize = arcs.len();
    while k > 0
        invariant
            k <= arcs@.len(),
            starts@.len() == cells,
            cells == width * height,
            arcs_exact(arcs@, width, height),
        decreases k,
    {
        k = k - 1;
        let (u, v) = arcs[k];
        assert(arcs@[k as int] == (u, v));
        let c = cell_number(u, width, height);
        starts.set(c, k);
    }
    starts
}

/// Row-major number of a cell.
fn cell_number(u: P, width: usize, height: usize) -> (r: usize)
    requires
        in_grid(u, width, height),
        width * height <= usize::MAX,
    ensures
        r < width * height,
{
    assert(u.0 * width + u.1 < width * height) by (nonlinear_arith)
        requires u.0 < height, u.1 < width;
    u.0 * width + u.1
}

/// The variables of the arcs that leave `u` (or enter it, when `incoming`).
fn incident_vars(arcs: &Vec<Arc>, starts: &Vec<usize>, u: P, width: usize, height: usize, incoming: bool) -> (r: Vec<usize>)
    requires
        arcs_exact(arcs@, width, height),
        starts@.len() == width * height,
        width * height <= usize::MAX,
        in_grid(u, width, height),
    ensures
        r@ == if incoming { in_vars(arcs@, u, width, height) } else { out_vars(arcs@, u, width, height) },
        r@.len() <= 4,
        forall|i: int| 0 <= i < r@.len() ==> #[trigger] r@[i] < arcs@.len(),
{
    let adjs = adj(u, width, height);
    proof {
        lemma_adj_spec(u, width, height);
    }
    let ghost target = if incoming { in_vars(arcs@, u, width, height) } else { out_vars(arcs@, u, width, height) };
    let mut res: Vec<usize> = Vec::new();
    let mut k: usize = 0;
    while k < adjs.len()
        invariant
            adjs@ == adj_spec(u, width, height),
            arcs_exact(arcs@, width, height),
            starts@.len() == width * height,
            width * height <= usize::MAX,
            in_grid(u, width, height),
            forall|m: int| 0 <= m < adjs@.len() ==>
                in_grid(#[trigger] adjs@[m], width, height) && crate::arcs::adjacent(u, adjs@[m]),
            target == if incoming { in_vars(arcs@, u, width, height) } else { out_vars(arcs@, u, width, height) },
            k <= adjs@.len(),
            res@ == target.subrange(0, k as int),
            forall|m: int| 0 <= m < k ==> #[trigger] res@[m] < arcs@.len(),
        decreases adjs@.len() - k,
    {
        let v = adjs[k];
        let x: Arc = if incoming { (v, u) } else { (u, v) };
        assert(crate::arcs::adjacent(v, u));
        let from = if incoming { v } else { u };
        let idx = find_arc(arcs, x, starts[cell_number(from, width, height)]);
        res.push(idx);
        k = k + 1;
        assert(res@ =~= target.subrange(0, k as int));
    }
    assert(res@ =~= target);
    assert(adjs@.len() <= 4);
    res
}

/// One unit clause `!x` for each variable `x` of the list.
fn unit_negations(vars: &Vec<usize>) -> (r: Vec<Clause>)
    ensures
        over_vars(r@, vars@),
        forall|a: Seq<bool>| covers(vars@, a) ==>
            (#[trigger] formula_true(r@, a) <==> count_true(vars@, a) == 0),
{
    let mut res: Vec<Clause> = Vec::new();
    let mut k: usize = 0;
    while k < vars.len()
        invariant
            k <= vars@.len(),
            res@.len() == k,
            forall|j: int| 0 <= j < k ==> (#[trigger] res@[j])@ == seq![Literal { var: vars@[j], positive: false }],
        decreases vars@.len() - k,
    {
        res.push(vec![Literal { var: vars[k], positive: false }]);
        k = k + 1;
    }
    assert forall|j: int, i: int| 0 <= j < res@.len() && 0 <= i < res@[j]@.len()
        implies vars@.contains(#[trigger] res@[j]@[i].var) by {
        assert(vars@[j] == res@[j]@[i].var);
    }
    assert forall|a: Seq<bool>| covers(vars@, a) implies
        (#[trigger] formula_true(res@, a) <==> count_true(vars@, a) == 0) by {
        lemma_count_zero(vars@, a);
        assert forall|j: int| 0 <= j < vars@.len() implies
            (clause_true(#[trigger] res@[j]@, a) <==> !a[vars@[j] as int]) by {
            lemma_unit_clause(vars@[j], a);
        }
        if formula_true(res@, a) {
            assert forall|i: int| 0 <= i < vars@.len() implies !a[#[trigger] vars@[i] as int] by {
                assert(clause_true(res@[i]@, a));
            }
        }
        if count_true(vars@, a) == 0 {
            assert forall|j: int| 0 <= j < res@.len() implies clause_true(#[trigger] res@[j]@, a) by {
                assert(!a[vars@[j] as int]);
            }
        }
    }
    res
}

proof fn lemma_vars_below(f: Seq<Clause>, vars: Seq<usize>, n: nat)
    requires
        over_vars(f, vars),
        forall|i: int| 0 <= i < vars.len() ==> #[trigger] vars[i] < n,
    ensures
        vars_below(f, n),
{
    assert forall|j: int, i: int| 0 <= j < f.len() && 0 <= i < f[j]@.len() implies (#[trigger] f[j]@[i]).var < n by {
        assert(vars.contains(f[j]@[i].var));
    }
}

proof fn lemma_vars_below_concat(f1: Seq<Clause>, f2: Seq<Clause>, n: nat)
    requires
        vars_below(f1, n),
        vars_below(f2, n),
    ensures
        vars_below(f1 + f2, n),
{
    assert forall|j: int, i: int| 0 <= j < (f1 + f2).len() && 0 <= i < (f1 + f2)[j]@.len()
        implies (#[trigger] (f1 + f2)[j]@[i]).var < n by {
        if j < f1.len() {
            assert((f1 + f2)[j] == f1[j]);
        } else {
            assert((f1 + f2)[j] == f2[j - f1.len()]);
        }
    }
}

/// The clauses that hold exactly when the flow through `u` meets its role.
fn role_clauses(arcs: &Vec<Arc>, starts: &Vec<usize>, u: P, width: usize, height: usize, role: Role) -> (r: Vec<Clause>)
    requires
        arcs_exact(arcs@, width, height),
        starts@.len() == width * height,
        width * height <= usize::MAX,
        in_grid(u, width, height),
    ensures
        vars_below(r@, arcs@.len() as nat),
        forall|a: Seq<bool>| a.len() == arcs@.len() ==>
            (#[trigger] formula_true(r@, a) <==> degree_ok(role, arcs@, u, width, height, a)),
{
    let outs = incident_vars(arcs, starts, u, width, height, false);
    let ins = incident_vars(arcs, starts, u, width, height, true);
    let mut first = match role {
        Role::Source => mk_clause_eq1(&outs),
        Role::Target => unit_negations(&outs),
        Role::Body => mk_clause_less2(&outs),
    };
    let mut second = match role {
        Role::Source => unit_negations(&ins),
        Role::Target => mk_clause_eq1(&ins),
        Role::Body => mk_clause_less2(&ins),
    };
    let ghost f1 = first@;
    let ghost f2 = second@;
    proof {
        lemma_vars_below(f1, outs@, arcs@.len() as nat);
        lemma_vars_below(f2, ins@, arcs@.len() as nat);
        lemma_vars_below_concat(f1, f2, arcs@.len() as nat);
    }
    first.append(&mut second);
    assert forall|a: Seq<bool>| a.len() == arcs@.len() implies
        (#[trigger] formula_true(first@, a) <==> degree_ok(role, arcs@, u, width, height, a)) by {
        lemma_formula_concat(f1, f2, a);
        assert(covers(outs@, a));
        assert(covers(ins@, a));
    }
    first
}

/// The clauses that hold exactly when every listed cell meets the role.
fn cells_clauses(arcs: &Vec<Arc>, starts: &Vec<usize>, ps: &Vec<P>, width: usize, height: usize, role: Role) -> (r: Vec<Clause>)
    requires
        arcs_exact(arcs@, width, height),
        starts@.len() == width * height,
        width * height <= usize::MAX,
        forall|i: int| 0 <= i < ps@.len() ==> in_grid(#[trigger] ps@[i], width, height),
    ensures
        vars_below(r@, arcs@.len() as nat),
        forall|a: Seq<bool>| a.len() == arcs@.len() ==>
            (#[trigger] formula_true(r@, a) <==> degrees_ok(role, arcs@, ps@, width, height, a)),
{
    let mut res: Vec<Clause> = Vec::new();
    let mut k: usize = 0;
    while k < ps.len()
        invariant
            arcs_exact(arcs@, width, height),
            starts@.len() == width * height,
            width * height <= usize::MAX,
            forall|i: int| 0 <= i < ps@.len() ==> in_grid(#[trigger] ps@[i], width, height),
            k <= ps@.len(),
            vars_below(res@, arcs@.len() as nat),
            forall|a: Seq<bool>| a.len() == arcs@.len() ==>
                (#[trigger] formula_true(res@, a) <==> degrees_ok(role, arcs@, ps@.subrange(0, k as int), width, height, a)),
        decreases ps@.len() - k,
    {
        let mut more = role_clauses(arcs, starts, ps[k], width, height, role);
        let ghost f1 = res@;
        let ghost f2 = more@;
        proof {
            lemma_vars_below_concat(f1, f2, arcs@.len() as nat);
        }
        res.append(&mut more);
        k = k + 1;
        assert forall|a: Seq<bool>| a.len() == arcs@.len() implies
            (#[trigger] formula_true(res@, a) <==> degrees_ok(role, arcs@, ps@.subrange(0, k as int), width, height, a)) by {
            lemma_formula_concat(f1, f2, a);
            let pre = ps@.subrange(0, k - 1);
            let cur = ps@.subrange(0, k as int);
            assert(formula_true(f1, a) <==> degrees_ok(role, arcs@, pre, width, height, a));
            assert(formula_true(f2, a) <==> degree_ok(role, arcs@, ps@[k - 1], width, height, a));
            if degrees_ok(role, arcs@, cur, width, height, a) {
                assert forall|i: int| 0 <= i < pre.len() implies degree_ok(role, arcs@, #[trigger] pre[i], width, height, a) by {
                    assert(pre[i] == cur[i]);
                }
                assert(cur[k - 1] == ps@[k - 1]);
            }
            if degrees_ok(role, arcs@, pre, width, height, a) && degree_ok(role, arcs@, ps@[k - 1], width, height, a) {
                assert forall|i: int| 0 <= i < cur.len() implies degree_ok(role, arcs@, #[trigger] cur[i], width, height, a) by {
                    if i < k - 1 {
                        assert(pre[i] == cur[i]);
                    }
                }
            }
        }
    }
    assert(ps@.subrange(0, k as int) =~= ps@);
    res
}

proof fn lemma_formula_push(f: Seq<Clause>, c: Clause, a: Seq<bool>)
    ensures
        formula_true(f.push(c), a) <==> (formula_true(f, a) && clause_true(c@, a)),
{
    let g = f.push(c);
    if formula_true(g, a) {
        assert forall|j: int| 0 <= j < f.len() implies clause_true(#[trigger] f[j]@, a) by {
            assert(g[j] == f[j]);
        }
        assert(g[f.len() as int] == c);
    }
    if formula_true(f, a) && clause_true(c@, a) {
        assert forall|j: int| 0 <= j < g.len() implies clause_true(#[trigger] g[j]@, a) by {
            if j < f.len() {
                assert(g[j] == f[j]);
            }
        }
    }
}

proof fn lemma_vars_below_push(f: Seq<Clause>, c: Clause, n: nat)
    requires
        vars_below(f, n),
        forall|i: int| 0 <= i < c@.len() ==> (#[trigger] c@[i]).var < n,
    ensures
        vars_below(f.push(c), n),
{
    assert forall|j: int, i: int| 0 <= j < f.push(c).len() && 0 <= i < f.push(c)[j]@.len()
        implies (#[trigger] f.push(c)[j]@[i]).var < n by {
        if j < f.len() {
            assert(f.push(c)[j] == f[j]);
        }
    }
}

/// Clauses that forbid flow along arcs between cells of different labels.
fn label_clauses(field: &Field, arcs: &Vec<Arc>, width: usize, height: usize) -> (r: Vec<Clause>)
    requires
        is_grid(field_view(field), width, height),
        arcs_exact(arcs@, width, height),
    ensures
        vars_below(r@, arcs@.len() as nat),
        forall|a: Seq<bool>| a.len() == arcs@.len() ==>
            (#[trigger] formula_true(r@, a) <==> labels_respected(field_view(field), arcs@, a)),
{
    let ghost fv = field_view(field);
    let mut res: Vec<Clause> = Vec::new();
    let mut k: usize = 0;
    while k < arcs.len()
        invariant
            fv == field_view(field),
            is_grid(fv, width, height),
            arcs_exact(arcs@, width, height),
            k <= arcs@.len(),
            vars_below(res@, arcs@.len() as nat),
            forall|a: Seq<bool>| a.len() == arcs@.len() ==>
                (#[trigger] formula_true(res@, a) <==> forall|m: int| 0 <= m < k
                    && label(fv, (#[trigger] arcs@[m]).0) != label(fv, arcs@[m].1) ==> !a[m]),
        decreases arcs@.len() - k,
    {
        let (u, v) = arcs[k];
        assert(arcs@[k as int] == (u, v));
        assert(field[u.0 as int]@ == fv[u.0 as int]);
        assert(field[v.0 as int]@ == fv[v.0 as int]);
        let ghost prev = res@;
        if field[u.0][u.1] != field[v.0][v.1] {
            let c: Clause = vec![Literal { var: k, positive: false }];
            proof {
                lemma_vars_below_push(prev, c, arcs@.len() as nat);
            }
            res.push(c);
            assert forall|a: Seq<bool>| a.len() == arcs@.len() implies
                (#[trigger] formula_true(res@, a) <==> forall|m: int| 0 <= m < k + 1
                    && label(fv, (#[trigger] arcs@[m]).0) != label(fv, arcs@[m].1) ==> !a[m]) by {
                lemma_formula_push(prev, c, a);
                lemma_unit_clause(k, a);
                assert(c@ == seq![Literal { var: k, positive: false }]);
            }
        } else {
            assert forall|a: Seq<bool>| a.len() == arcs@.len() implies
                (#[trigger] formula_true(res@, a) <==> forall|m: int| 0 <= m < k + 1
                    && label(fv, (#[trigger] arcs@[m]).0) != label(fv, arcs@[m].1) ==> !a[m]) by {
            }
        }
        k = k + 1;
    }
    res
}

/// Clauses that forbid flow both ways along one edge.
fn one_way_clauses(arcs: &Vec<Arc>, starts: &Vec<usize>, width: usize, height: usize) -> (r: Vec<Clause>)
    requires
        arcs_exact(arcs@, width, height),
        starts@.len() == width * height,
        width * height <= usize::MAX,
    ensures
        vars_below(r@, arcs@.len() as nat),
        forall|a: Seq<bool>| a.len() == arcs@.len() ==>
            (#[trigger] formula_true(r@, a) <==> one_way(arcs@, a)),
{
    let mut res: Vec<Clause> = Vec::new();
    let mut k: usize = 0;
    while k < arcs.len()
        invariant
            arcs_exact(arcs@, width, height),
            starts@.len() == width * height,
            width * height <= usize::MAX,
            k <= arcs@.len(),
            res@.len() == k,
            vars_below(res@, arcs@.len() as nat),
            forall|a: Seq<bool>| a.len() == arcs@.len() ==>
                (#[trigger] formula_true(res@, a) <==> forall|m: int| 0 <= m < k ==>
                    !(a[m] && a[arc_index(arcs@, ((#[trigger] arcs@[m]).1, arcs@[m].0))])),
        decreases arcs@.len() - k,
    {
        let (u, v) = arcs[k];
        assert(arcs@[k as int] == (u, v));
        assert(crate::arcs::adjacent(v, u));
        let y = find_arc(arcs, (v, u), starts[cell_number(v, width, height)]);
        let c: Clause = vec![Literal { var: k, positive: false }, Literal { var: y, positive: false }];
        let ghost prev = res@;
        proof {
            lemma_vars_below_push(prev, c, arcs@.len() as nat);
        }
        res.push(c);
        assert forall|a: Seq<bool>| a.len() == arcs@.len() implies
            (#[trigger] formula_true(res@, a) <==> forall|m: int| 0 <= m < k + 1 ==>
                !(a[m] && a[arc_index(arcs@, ((#[trigger] arcs@[m]).1, arcs@[m].0))])) by {
            lemma_formula_push(prev, c, a);
            if clause_true(c@, a) {
                let i = choose|i: int| 0 <= i < c@.len() && lit_true(#[trigger] c@[i], a);
            } else {
                assert(!lit_true(c@[0], a) && !lit_true(c@[1], a));
            }
            if !(a[k as int] && a[y as int]) {
                if !a[k as int] {
                    assert(lit_true(c@[0], a));
                } else {
                    assert(lit_true(c@[1], a));
                }
            }
        }
        k = k + 1;
    }
    res
}

/// The formula whose models are the flows that a solution of the puzzle
/// induces: one variable per arc, its index in `arcs`.
pub fn encode(
    field: &Field,
    arcs: &Vec<Arc>,
    s: &Vec<P>,
    t: &Vec<P>,
    b: &Vec<P>,
    width: usize,
    height: usize,
) -> (r: Vec<Clause>)
    requires
        is_grid(field_view(field), width, height),
        arcs_exact(arcs@, width, height),
        width * height <= usize::MAX,
        forall|i: int| 0 <= i < s@.len() ==> in_grid(#[trigger] s@[i], width, height),
        forall|i: int| 0 <= i < t@.len() ==> in_grid(#[trigger] t@[i], width, height),
        forall|i: int| 0 <= i < b@.len() ==> in_grid(#[trigger] b@[i], width, height),
    ensures
        vars_below(r@, arcs@.len() as nat),
        forall|a: Seq<bool>| a.len() == arcs@.len() ==>
            (#[trigger] formula_true(r@, a)
                <==> flow_ok(field_view(field), arcs@, s@, t@, b@, width, height, a)),
{
    let mut f = label_clauses(field, arcs, width, height);
    let starts = arc_starts(arcs, width, height);
    let mut f2 = one_way_clauses(arcs, &starts, width, height);
    let mut f3 = cells_clauses(arcs, &starts, s, width, height, Role::Source);
    let mut f4 = cells_clauses(arcs, &starts, t, width, height, Role::Target);
    let mut f5 = cells_clauses(arcs, &starts, b, width, height, Role::Body);
    let ghost g1 = f@;
    let ghost g2 = f2@;
    let ghost g3 = f3@;
    let ghost g4 = f4@;
    let ghost g5 = f5@;
    let n = arcs.len();
    proof {
        lemma_vars_below_concat(g1, g2, n as nat);
        lemma_vars_below_concat(g1 + g2, g3, n as nat);
        lemma_vars_below_concat(g1 + g2 + g3, g4, n as nat);
        lemma_vars_below_concat(g1 + g2 + g3 + g4, g5, n as nat);
    }
    f.append(&mut f2);
    f.append(&mut f3);
    f.append(&mut f4);
    f.append(&mut f5);
    assert forall|a: Seq<bool>| a.len() == arcs@.len() implies
        (#[trigger] formula_true(f@, a)
            <==> flow_ok(field_view(field), arcs@, s@, t@, b@, width, height, a)) by {
        lemma_formula_concat(g1, g2, a);
        lemma_formula_concat(g1 + g2, g3, a);
        lemma_formula_concat(g1 + g2 + g3, g4, a);
        lemma_formula_concat(g1 + g2 + g3 + g4, g5, a);
    }
    f
}

} // verus!
