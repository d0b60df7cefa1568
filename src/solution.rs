//! Turning a model into paths, and the whole solving pipeline.
use vstd::prelude::*;

use crate::arcs::{arcs_exact, gen_arcs, in_grid, Arc};
use crate::decode::{field_view, Field};
use crate::encode::{encode, flow_ok, is_grid};
use crate::field::{
    cells_of, labels_ok, lemma_cells_in_rows, lemma_cells_len, lemma_roles_from_cells, parse_field,
    roles, P,
};
use crate::sat::{solve_formula, MAX_VAR};
use crate::NumberlinkError;

verus! {

/// Arc `k` carries flow from `u` to `v`.
pub open spec fn flows(arcs: Seq<Arc>, a: Seq<bool>, u: P, v: P) -> bool {
    exists|k: int| 0 <= k < arcs.len() && #[trigger] arcs[k] == (u, v) && a[k]
}

/// `path` follows the flow from `src` to one of the targets.
pub open spec fn traces(path: Seq<P>, src: P, t: Seq<P>, arcs: Seq<Arc>, a: Seq<bool>) -> bool {
    &&& path.len() >= 1
    &&& path[0] == src
    &&& t.contains(path.last())
    &&& forall|j: int| 0 <= j < path.len() - 1 ==> flows(arcs, a, #[trigger] path[j], path[j + 1])
}

/// The arc is a step of one of the paths.
pub open spec fn on_paths(paths: Seq<Vec<P>>, x: Arc) -> bool {
    exists|i: int, j: int| 0 <= i < paths.len() && 0 <= j < paths[i]@.len() - 1
        && (#[trigger] paths[i]@[j], paths[i]@[j + 1]) == x
}

/// The cell that the first flow-carrying arc out of `u` at index `k` or
/// later leads to.
pub open spec fn succ_from(arcs: Seq<Arc>, a: Seq<bool>, u: P, k: int) -> Option<P>
    decreases arcs.len() - k,
{
    if k < 0 || k >= arcs.len() {
        None
    } else if a[k] && arcs[k].0 == u {
        Some(arcs[k].1)
    } else {
        succ_from(arcs, a, u, k + 1)
    }
}

/// The chain of cells that the flow leads along from `u` to the first
/// target, taking at most `fuel` steps and, at each cell, the first
/// flow-carrying arc; None when it stops short of a target.
pub open spec fn chain_from(arcs: Seq<Arc>, a: Seq<bool>, t: Seq<P>, u: P, fuel: nat) -> Option<Seq<P>>
    decreases fuel,
{
    if t.contains(u) {
        Some(seq![u])
    } else if fuel == 0 {
        None
    } else {
        match succ_from(arcs, a, u, 0) {
            None => None,
            Some(v) => match chain_from(arcs, a, t, v, (fuel - 1) as nat) {
                None => None,
                Some(p) => Some(seq![u] + p),
            },
        }
    }
}

proof fn lemma_succ_flows(arcs: Seq<Arc>, a: Seq<bool>, u: P, k: int)
    requires
        a.len() == arcs.len(),
        0 <= k,
    ensures
        succ_from(arcs, a, u, k) matches Some(v) ==> flows(arcs, a, u, v),
    decreases arcs.len() - k,
{
    if k < arcs.len() {
        if a[k] && arcs[k].0 == u {
            assert(arcs[k] == (u, arcs[k].1));
        } else {
            lemma_succ_flows(arcs, a, u, k + 1);
        }
    }
}

/// First arc out of `u` that carries flow.
fn next_step(arcs: &Vec<Arc>, a: &Vec<bool>, u: P) -> (r: Option<P>)
    requires
        a@.len() == arcs@.len(),
    ensures
        r == succ_from(arcs@, a@, u, 0),
{
    let mut k: usize = 0;
    while k < arcs.len()
        invariant
            k <= arcs@.len(),
            a@.len() == arcs@.len(),
            succ_from(arcs@, a@, u, 0) == succ_from(arcs@, a@, u, k as int),
        decreases arcs@.len() - k,
    {
        let (x, y) = arcs[k];
        if a[k] && x.0 == u.0 && x.1 == u.1 {
            return Some(y);
        }
        k = k + 1;
    }
    None
}

fn contains_pos(ps: &Vec<P>, p: P) -> (r: bool)
    ensures
        r == ps@.contains(p),
{
    let mut k: usize = 0;
    while k < ps.len()
        invariant
            k <= ps@.len(),
            forall|m: int| 0 <= m < k ==> ps@[m] != p,
        decreases ps@.len() - k,
    {
        let q = ps[k];
        if q.0 == p.0 && q.1 == p.1 {
            assert(ps@[k as int] == p);
            return true;
        }
        k = k + 1;
    }
    false
}

/// Follows the flow from `src` until a target, in at most `limit` steps.
fn trace_from(arcs: &Vec<Arc>, a: &Vec<bool>, src: P, t: &Vec<P>, limit: usize) -> (r: Option<Vec<P>>)
    requires
        a@.len() == arcs@.len(),
    ensures
        r matches Some(path) ==> chain_from(arcs@, a@, t@, src, limit as nat) == Some(path@),
        r is None ==> chain_from(arcs@, a@, t@, src, limit as nat) is None,
{
    let mut path: Vec<P> = vec![src];
    let mut cur = src;
    let mut steps: usize = 0;
    assert(path@.drop_last() + seq![src] =~= path@);
    while !contains_pos(t, cur)
        invariant
            a@.len() == arcs@.len(),
            path@.len() >= 1,
            path@.last() == cur,
            steps <= limit,
            chain_from(arcs@, a@, t@, src, limit as nat) == match chain_from(arcs@, a@, t@, cur, (limit - steps) as nat) {
                None => None,
                Some(p) => Some(path@.drop_last() + p),
            },
        decreases limit - steps,
    {
        if steps == limit {
            return None;
        }
        match next_step(arcs, a, cur) {
            None => return None,
            Some(v) => {
                let ghost prev = path@;
                let ghost f = (limit - steps - 1) as nat;
                path.push(v);
                assert(path@.drop_last() =~= prev);
                assert(prev =~= prev.drop_last() + seq![cur]);
                assert forall|p: Seq<P>| #[trigger] (prev.drop_last() + (seq![cur] + p)) == path@.drop_last() + p by {
                    assert(prev.drop_last() + (seq![cur] + p) =~= path@.drop_last() + p);
                }
                cur = v;
                steps = steps + 1;
            },
        }
    }
    assert(chain_from(arcs@, a@, t@, cur, (limit - steps) as nat) == Some(seq![cur]));
    assert(path@.drop_last() + seq![cur] =~= path@);
    Some(path)
}

proof fn lemma_chain_traces(arcs: Seq<Arc>, a: Seq<bool>, t: Seq<P>, u: P, fuel: nat)
    requires
        a.len() == arcs.len(),
        chain_from(arcs, a, t, u, fuel) is Some,
    ensures
        traces(chain_from(arcs, a, t, u, fuel)->0, u, t, arcs, a),
    decreases fuel,
{
    if !t.contains(u) {
        let v = succ_from(arcs, a, u, 0)->0;
        lemma_succ_flows(arcs, a, u, 0);
        lemma_chain_traces(arcs, a, t, v, (fuel - 1) as nat);
        let p = chain_from(arcs, a, t, v, (fuel - 1) as nat)->0;
        let c = seq![u] + p;
        assert forall|j: int| 0 <= j < c.len() - 1 implies flows(arcs, a, #[trigger] c[j], c[j + 1]) by {
            if j > 0 {
                assert(c[j] == p[j - 1] && c[j + 1] == p[j]);
            }
        }
        assert(c.last() == p.last());
    }
}

fn arc_on_paths(paths: &Vec<Vec<P>>, x: Arc) -> (r: bool)
    ensures
        r == on_paths(paths@, x),
{
    let mut i: usize = 0;
    while i < paths.len()
        invariant
            i <= paths@.len(),
            forall|i2: int, j: int| 0 <= i2 < i && 0 <= j < paths@[i2]@.len() - 1
                ==> (#[trigger] paths@[i2]@[j], paths@[i2]@[j + 1]) != x,
        decreases paths@.len() - i,
    {
        let path = &paths[i];
        let len = path.len();
        let mut j: usize = 0;
        while j < len && j < len - 1
            invariant
                i < paths@.len(),
                len == path@.len(),
                path@ == paths@[i as int]@,
                forall|i2: int, j2: int| 0 <= i2 < i && 0 <= j2 < paths@[i2]@.len() - 1
                    ==> (#[trigger] paths@[i2]@[j2], paths@[i2]@[j2 + 1]) != x,
                forall|j2: int| 0 <= j2 < j && j2 < path@.len() - 1 ==> (#[trigger] path@[j2], path@[j2 + 1]) != x,
            decreases path@.len() - j,
        {
            let p = path[j];
            let q = path[j + 1];
            if p.0 == x.0.0 && p.1 == x.0.1 && q.0 == x.1.0 && q.1 == x.1.1 {
                assert((paths@[i as int]@[j as int], paths@[i as int]@[j + 1]) == x);
                return true;
            }
            j = j + 1;
        }
        assert forall|i2: int, j2: int| 0 <= i2 < i + 1 && 0 <= j2 < paths@[i2]@.len() - 1
            implies (#[trigger] paths@[i2]@[j2], paths@[i2]@[j2 + 1]) != x by {
            if i2 == i {
                assert(path@[j2] == paths@[i2]@[j2]);
            }
        }
        i = i + 1;
    }
    false
}

/// The chains of all sources, when each reaches a target.
pub open spec fn all_chains(arcs: Seq<Arc>, a: Seq<bool>, s: Seq<P>, t: Seq<P>) -> bool {
    forall|i: int| 0 <= i < s.len() ==> (#[trigger] chain_from(arcs, a, t, s[i], arcs.len())) is Some
}

/// The chain of the `i`-th source.
pub open spec fn chain_of(arcs: Seq<Arc>, a: Seq<bool>, s: Seq<P>, t: Seq<P>, i: int) -> Seq<P> {
    chain_from(arcs, a, t, s[i], arcs.len())->0
}

/// The arc is a step of the chain of some source.
pub open spec fn on_chains(arcs: Seq<Arc>, a: Seq<bool>, s: Seq<P>, t: Seq<P>, x: Arc) -> bool {
    exists|i: int, j: int| 0 <= i < s.len() && 0 <= j < chain_of(arcs, a, s, t, i).len() - 1
        && (#[trigger] chain_of(arcs, a, s, t, i)[j], chain_of(arcs, a, s, t, i)[j + 1]) == x
}

/// Every arc that carries flow is a step of the chain of some source.
pub open spec fn chains_cover(arcs: Seq<Arc>, a: Seq<bool>, s: Seq<P>, t: Seq<P>) -> bool {
    forall|k: int| 0 <= k < arcs.len() && a[k] ==> on_chains(arcs, a, s, t, #[trigger] arcs[k])
}

/// The chain of every source, when each reaches a target.
fn trace_all(arcs: &Vec<Arc>, a: &Vec<bool>, s: &Vec<P>, t: &Vec<P>) -> (r: Option<Vec<Vec<P>>>)
    requires
        a@.len() == arcs@.len(),
    ensures
        r is Some <==> all_chains(arcs@, a@, s@, t@),
        r matches Some(paths) ==> paths@.len() == s@.len()
            && forall|i: int| 0 <= i < s@.len() ==> (#[trigger] paths@[i])@ == chain_of(arcs@, a@, s@, t@, i)
                && chain_from(arcs@, a@, t@, s@[i], arcs@.len()) is Some,
{
    let mut paths: Vec<Vec<P>> = Vec::new();
    let mut i: usize = 0;
    while i < s.len()
        invariant
            a@.len() == arcs@.len(),
            i <= s@.len(),
            paths@.len() == i,
            forall|i2: int| 0 <= i2 < i ==> (#[trigger] paths@[i2])@ == chain_of(arcs@, a@, s@, t@, i2)
                && chain_from(arcs@, a@, t@, s@[i2], arcs@.len()) is Some,
        decreases s@.len() - i,
    {
        match trace_from(arcs, a, s[i], t, arcs.len()) {
            None => {
                assert(chain_from(arcs@, a@, t@, s@[i as int], arcs@.len()) is None);
                return None;
            },
            Some(path) => {
                paths.push(path);
            },
        }
        i = i + 1;
    }
    assert forall|i2: int| 0 <= i2 < s@.len() implies (#[trigger] chain_from(arcs@, a@, t@, s@[i2], arcs@.len())) is Some by {
        assert(paths@[i2]@ == chain_of(arcs@, a@, s@, t@, i2));
    }
    Some(paths)
}

/// Whether every arc that carries flow is a step of one of the chains.
fn chains_cover_exec(arcs: &Vec<Arc>, a: &Vec<bool>, s: &Vec<P>, t: &Vec<P>, paths: &Vec<Vec<P>>) -> (r: bool)
    requires
        a@.len() == arcs@.len(),
        paths@.len() == s@.len(),
        forall|i: int| 0 <= i < s@.len() ==> (#[trigger] paths@[i])@ == chain_of(arcs@, a@, s@, t@, i),
    ensures
        r == chains_cover(arcs@, a@, s@, t@),
{
    let mut k: usize = 0;
    while k < arcs.len()
        invariant
            a@.len() == arcs@.len(),
            k <= arcs@.len(),
            paths@.len() == s@.len(),
            forall|i: int| 0 <= i < s@.len() ==> (#[trigger] paths@[i])@ == chain_of(arcs@, a@, s@, t@, i),
            forall|k2: int| 0 <= k2 < k && a@[k2] ==> on_chains(arcs@, a@, s@, t@, #[trigger] arcs@[k2]),
        decreases arcs@.len() - k,
    {
        if a[k] && !arc_on_paths(paths, arcs[k]) {
            assert(!on_chains(arcs@, a@, s@, t@, arcs@[k as int])) by {
                if on_chains(arcs@, a@, s@, t@, arcs@[k as int]) {
                    let (i2, j) = choose|i2: int, j: int| 0 <= i2 < s@.len() && 0 <= j < chain_of(arcs@, a@, s@, t@, i2).len() - 1
                        && (#[trigger] chain_of(arcs@, a@, s@, t@, i2)[j], chain_of(arcs@, a@, s@, t@, i2)[j + 1]) == arcs@[k as int];
                    assert(paths@[i2]@ == chain_of(arcs@, a@, s@, t@, i2));
                    assert((paths@[i2]@[j], paths@[i2]@[j + 1]) == arcs@[k as int]);
                }
            }
            return false;
        }
        proof {
            if a@[k as int] {
                assert(on_paths(paths@, arcs@[k as int]));
                let (i2, j) = choose|i2: int, j: int| 0 <= i2 < paths@.len() && 0 <= j < paths@[i2]@.len() - 1
                    && (#[trigger] paths@[i2]@[j], paths@[i2]@[j + 1]) == arcs@[k as int];
                assert(paths@[i2]@ == chain_of(arcs@, a@, s@, t@, i2));
                assert((chain_of(arcs@, a@, s@, t@, i2)[j], chain_of(arcs@, a@, s@, t@, i2)[j + 1]) == arcs@[k as int]);
            }
        }
        k = k + 1;
    }
    true
}

/// The paths of a model: for each source, the cells that the flow visits
/// up to a target. Fails when a chain cannot be followed to a target, or
/// when some arc carries flow outside every chain (a closed loop).
pub fn reconstruct(arcs: &Vec<Arc>, a: &Vec<bool>, s: &Vec<P>, t: &Vec<P>) -> (r: Result<Vec<Vec<P>>, NumberlinkError>)
    requires
        a@.len() == arcs@.len(),
    ensures
        r is Ok <==> all_chains(arcs@, a@, s@, t@) && chains_cover(arcs@, a@, s@, t@),
        r matches Ok(paths) ==> paths@.len() == s@.len()
            && (forall|i: int| 0 <= i < s@.len() ==> (#[trigger] paths@[i])@ == chain_of(arcs@, a@, s@, t@, i))
            && (forall|i: int| 0 <= i < s@.len() ==> traces(#[trigger] paths@[i]@, s@[i], t@, arcs@, a@))
            && (forall|k: int| 0 <= k < arcs@.len() && a@[k] ==> on_paths(paths@, #[trigger] arcs@[k])),
        r matches Err(e) ==> e == NumberlinkError::ReconstructionFailure,
{
    let paths = match trace_all(arcs, a, s, t) {
        None => return Err(NumberlinkError::ReconstructionFailure),
        Some(paths) => paths,
    };
    if !chains_cover_exec(arcs, a, s, t, &paths) {
        return Err(NumberlinkError::ReconstructionFailure);
    }
    assert forall|i: int| 0 <= i < s@.len() implies traces(#[trigger] paths@[i]@, s@[i], t@, arcs@, a@) by {
        lemma_chain_traces(arcs@, a@, t@, s@[i], arcs@.len());
    }
    assert forall|k: int| 0 <= k < arcs@.len() && a@[k] implies on_paths(paths@, #[trigger] arcs@[k]) by {
        assert(on_chains(arcs@, a@, s@, t@, arcs@[k]));
        let (i2, j) = choose|i2: int, j: int| 0 <= i2 < s@.len() && 0 <= j < chain_of(arcs@, a@, s@, t@, i2).len() - 1
            && (#[trigger] chain_of(arcs@, a@, s@, t@, i2)[j], chain_of(arcs@, a@, s@, t@, i2)[j + 1]) == arcs@[k];
        assert(paths@[i2]@ == chain_of(arcs@, a@, s@, t@, i2));
        assert((paths@[i2]@[j], paths@[i2]@[j + 1]) == arcs@[k]);
    }
    Ok(paths)
}

/// Width of a field: the length of its first row.
pub open spec fn width_of(fv: Seq<Seq<usize>>) -> usize {
    fv[0].len() as usize
}

/// A puzzle that can be encoded: a non-empty rectangle whose nonzero labels
/// are at most 15 and occur twice each, with at least one pair.
pub open spec fn field_ok(fv: Seq<Seq<usize>>) -> bool {
    &&& fv.len() > 0
    &&& fv[0].len() > 0
    &&& fv.len() <= usize::MAX
    &&& fv[0].len() <= usize::MAX
    &&& is_grid(fv, width_of(fv), fv.len() as usize)
    &&& fv.len() * fv[0].len() <= usize::MAX
    &&& labels_ok(cells_of(fv))
    &&& roles(cells_of(fv)).0.len() > 0
    &&& roles(cells_of(fv)).0.len() == roles(cells_of(fv)).1.len()
}

/// Classifies the cells of a field into sources, targets and body cells, and
/// rejects a field that cannot be encoded.
pub fn check_field(field: &Field) -> (r: Result<(Vec<P>, Vec<P>, Vec<P>), NumberlinkError>)
    ensures
        r is Ok <==> field_ok(field_view(field)),
        r matches Ok((s, t, b)) ==> (s@, t@, b@) == roles(cells_of(field_view(field)))
            && s@.len() == t@.len()
            && s@.len() + t@.len() + b@.len() == field@.len() * field_view(field)[0].len(),
        r matches Err(e) ==> e == NumberlinkError::MalformedField,
{
    let ghost fv = field_view(field);
    let height = field.len();
    if height == 0 {
        return Err(NumberlinkError::MalformedField);
    }
    let width = field[0].len();
    assert(fv[0] == field@[0]@);
    if width == 0 {
        return Err(NumberlinkError::MalformedField);
    }
    let mut i: usize = 0;
    while i < height
        invariant
            fv == field_view(field),
            height == fv.len(),
            height > 0,
            width == fv[0].len(),
            i <= height,
            forall|r: int| 0 <= r < i ==> (#[trigger] fv[r]).len() == width,
        decreases height - i,
    {
        assert(fv[i as int] == field@[i as int]@);
        if field[i].len() != width {
            assert(fv[i as int].len() != width_of(fv));
            assert(!is_grid(fv, width_of(fv), fv.len() as usize));
            return Err(NumberlinkError::MalformedField);
        }
        i = i + 1;
    }
    if width > usize::MAX / height {
        assert(height * width > usize::MAX) by (nonlinear_arith)
            requires width > usize::MAX / height, height > 0;
        return Err(NumberlinkError::MalformedField);
    }
    assert(height * width <= usize::MAX) by (nonlinear_arith)
        requires width <= usize::MAX / height, height > 0;
    let (s, t, b) = match parse_field(field) {
        None => return Err(NumberlinkError::MalformedField),
        Some(roles) => roles,
    };
    proof {
        lemma_roles_from_cells(cells_of(fv));
        lemma_cells_len(fv, width as nat);
    }
    if s.len() == 0 || s.len() != t.len() {
        return Err(NumberlinkError::MalformedField);
    }
    Ok((s, t, b))
}

/// Solves a puzzle: for each source, in row-major order, the path of cells
/// to its partner.
pub fn solve_numberlink(field: &Field) -> (r: Result<Vec<Vec<P>>, NumberlinkError>)
    ensures
        r matches Err(NumberlinkError::MalformedField) <==> !field_ok(field_view(field)),
        r matches Err(NumberlinkError::MalformedUrl) ==> false,
        r matches Err(NumberlinkError::EngineFailure) <==> field_ok(field_view(field))
            && field@.len() * width_of(field_view(field)) > MAX_VAR / 4,
        r matches Err(NumberlinkError::ReconstructionFailure) ==> exists|arcs: Seq<Arc>, a: Seq<bool>|
            arcs_exact(arcs, width_of(field_view(field)), field@.len() as usize)
            && a.len() == arcs.len()
            && #[trigger] flow_ok(field_view(field), arcs,
                roles(cells_of(field_view(field))).0, roles(cells_of(field_view(field))).1,
                roles(cells_of(field_view(field))).2, width_of(field_view(field)), field@.len() as usize, a),
        r matches Err(NumberlinkError::Unsatisfiable) ==> exists|arcs: Seq<Arc>|
            #[trigger] arcs_exact(arcs, width_of(field_view(field)), field@.len() as usize)
            && forall|a: Seq<bool>| a.len() == arcs.len() ==> !#[trigger] flow_ok(field_view(field), arcs,
                roles(cells_of(field_view(field))).0, roles(cells_of(field_view(field))).1,
                roles(cells_of(field_view(field))).2, width_of(field_view(field)), field@.len() as usize, a),
        r matches Ok(paths) ==> exists|arcs: Seq<Arc>, a: Seq<bool>|
            arcs_exact(arcs, width_of(field_view(field)), field@.len() as usize)
            && a.len() == arcs.len()
            && #[trigger] flow_ok(field_view(field), arcs,
                roles(cells_of(field_view(field))).0, roles(cells_of(field_view(field))).1,
                roles(cells_of(field_view(field))).2, width_of(field_view(field)), field@.len() as usize, a)
            && paths@.len() == roles(cells_of(field_view(field))).0.len()
            && (forall|i: int| 0 <= i < paths@.len() ==> traces(#[trigger] paths@[i]@,
                roles(cells_of(field_view(field))).0[i], roles(cells_of(field_view(field))).1, arcs, a))
            && (forall|k: int| 0 <= k < arcs.len() && a[k] ==> on_paths(paths@, #[trigger] arcs[k])),
{
    let ghost fv = field_view(field);
    let (s, t, b) = match check_field(field) {
        Err(e) => return Err(e),
        Ok(roles) => roles,
    };
    let height = field.len();
    let width = field[0].len();
    assert(fv[0] == field@[0]@);
    proof {
        lemma_cells_in_rows(fv);
        lemma_roles_from_cells(cells_of(fv));
        let cs = cells_of(fv);
        assert forall|i: int| 0 <= i < s@.len() implies in_grid(#[trigger] s@[i], width, height) by {
            let k = choose|k: int| 0 <= k < cs.len() && roles(cs).0[i] == cs[k].0;
            let (p, l) = cs[k];
        }
        assert forall|i: int| 0 <= i < t@.len() implies in_grid(#[trigger] t@[i], width, height) by {
            let k = choose|k: int| 0 <= k < cs.len() && roles(cs).1[i] == cs[k].0;
            let (p, l) = cs[k];
        }
        assert forall|i: int| 0 <= i < b@.len() implies in_grid(#[trigger] b@[i], width, height) by {
            let k = choose|k: int| 0 <= k < cs.len() && roles(cs).2[i] == cs[k].0;
            let (p, l) = cs[k];
        }
    }
    if height * width > MAX_VAR / 4 {
        return Err(NumberlinkError::EngineFailure);
    }
    let arcs = gen_arcs(width, height);
    let n = arcs.len();
    assert(4 * width * height <= MAX_VAR) by (nonlinear_arith)
        requires height * width <= MAX_VAR / 4;
    let clauses = encode(field, &arcs, &s, &t, &b, width, height);
    let a = match solve_formula(&clauses, n) {
        Err(e) => {
            assert(e == NumberlinkError::Unsatisfiable ==> forall|a: Seq<bool>| a.len() == arcs@.len()
                ==> !flow_ok(fv, arcs@, s@, t@, b@, width, height, a));
            return Err(e);
        },
        Ok(a) => a,
    };
    assert(flow_ok(fv, arcs@, s@, t@, b@, width, height, a@));
    let paths = match reconstruct(&arcs, &a, &s, &t) {
        Err(e) => return Err(e),
        Ok(paths) => paths,
    };
    Ok(paths)
}

} // verus!
