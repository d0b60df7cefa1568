//! Handing a formula to the varisat SAT solver and reading back a model.
use vstd::prelude::*;

use varisat::ExtendFormula;

use crate::cardinality::{clause_true, formula_true, lit_true, Clause, Literal};
use crate::encode::vars_below;
use crate::NumberlinkError;

verus! {

#[verifier::external_type_specification]
#[verifier::external_body]
pub struct ExCnfFormula(varisat::CnfFormula);

#[verifier::external_type_specification]
#[verifier::external_body]
pub struct ExSolver<'a>(varisat::Solver<'a>);

/// The clauses of a varisat formula, each literal as (variable index, polarity).
pub uninterp spec fn cnf_clauses(f: varisat::CnfFormula) -> Seq<Seq<(usize, bool)>>;

/// The clauses added to a varisat solver so far.
pub uninterp spec fn solver_clauses(s: varisat::Solver) -> Seq<Seq<(usize, bool)>>;

/// A literal as a (variable index, polarity) pair.
pub open spec fn lit_pair(l: Literal) -> (usize, bool) {
    (l.var, l.positive)
}

/// The clauses with each literal as a pair.
pub open spec fn clause_pairs(f: Seq<Clause>) -> Seq<Seq<(usize, bool)>> {
    f.map_values(|c: Clause| c@.map_values(|l: Literal| lit_pair(l)))
}

/// The clause holds a literal of the model.
pub open spec fn meets_model(c: Seq<(usize, bool)>, m: Seq<(usize, bool)>) -> bool {
    exists|i: int| 0 <= i < c.len() && m.contains(#[trigger] c[i])
}

/// Every clause holds a literal of the model.
pub open spec fn model_satisfies(cls: Seq<Seq<(usize, bool)>>, m: Seq<(usize, bool)>) -> bool {
    forall|j: int| 0 <= j < cls.len() ==> meets_model(#[trigger] cls[j], m)
}

/// The assignment makes a literal of the clause true.
pub open spec fn meets_assignment(c: Seq<(usize, bool)>, a: Seq<bool>) -> bool {
    exists|i: int| 0 <= i < c.len() && (#[trigger] c[i]).0 < a.len() && a[c[i].0 as int] == c[i].1
}

/// The assignment makes a literal of every clause true.
pub open spec fn assignment_satisfies(cls: Seq<Seq<(usize, bool)>>, a: Seq<bool>) -> bool {
    forall|j: int| 0 <= j < cls.len() ==> meets_assignment(#[trigger] cls[j], a)
}

/// No variable appears twice in the model.
pub open spec fn model_consistent(m: Seq<(usize, bool)>) -> bool {
    forall|i: int, j: int| 0 <= i < m.len() && 0 <= j < m.len() && i != j ==> m[i].0 != m[j].0
}

/// Largest variable index that varisat supports (`Var::max_var`).
pub const MAX_VAR: usize = 0x0fff_ffff;

/// Relies on `CnfFormula::new`: an empty formula.
#[verifier::external_body]
fn cnf_new() -> (r: varisat::CnfFormula)
    ensures
        cnf_clauses(r) == Seq::<Seq<(usize, bool)>>::empty(),
{
    varisat::CnfFormula::new()
}

/// Relies on `CnfFormula::add_clause` (with `Lit::from_index` to build each
/// literal): the clause is appended.
#[verifier::external_body]
fn cnf_add_clause(f: &mut varisat::CnfFormula, c: &Clause)
    requires
        forall|i: int| 0 <= i < c@.len() ==> (#[trigger] c@[i]).var <= MAX_VAR,
    ensures
        cnf_clauses(*final(f)) == cnf_clauses(*old(f)).push(c@.map_values(|l: Literal| lit_pair(l))),
{
    let lits: Vec<varisat::Lit> = c.iter().map(|l| varisat::Lit::from_index(l.var, l.positive)).collect();
    f.add_clause(&lits);
}

/// Relies on `Solver::new`: a solver without clauses.
#[verifier::external_body]
fn solver_new<'a>() -> (r: varisat::Solver<'a>)
    ensures
        solver_clauses(r) == Seq::<Seq<(usize, bool)>>::empty(),
{
    varisat::Solver::new()
}

/// Relies on `Solver::add_formula`: the formula's clauses join the solver's.
#[verifier::external_body]
fn solver_add_formula(s: &mut varisat::Solver, f: &varisat::CnfFormula)
    ensures
        solver_clauses(*final(s)) == solver_clauses(*old(s)) + cnf_clauses(*f),
{
    s.add_formula(f);
}

/// The solver's last search ended with the clauses found satisfiable.
pub uninterp spec fn solver_is_sat(s: varisat::Solver) -> bool;

/// Relies on `Solver::solve`: without proof output, proof processors or
/// interruption (none is set up here) it answers; `Some(false)` means that
/// no assignment satisfies the clauses, `Some(true)` that the solver state
/// is satisfiable.
#[verifier::external_body]
fn solver_solve(s: &mut varisat::Solver) -> (r: Option<bool>)
    ensures
        r is Some,
        solver_clauses(*final(s)) == solver_clauses(*old(s)),
        r == Some(false) ==> forall|a: Seq<bool>| !assignment_satisfies(solver_clauses(*final(s)), a),
        r == Some(true) ==> solver_is_sat(*final(s)),
{
    s.solve().ok()
}

/// Relies on `Solver::model`: present exactly when the solver state is
/// satisfiable; one literal per variable, satisfying every clause.
#[verifier::external_body]
fn solver_model(s: &varisat::Solver) -> (r: Option<Vec<(usize, bool)>>)
    ensures
        solver_is_sat(*s) ==> r is Some,
        r matches Some(m) ==> model_consistent(m@) && model_satisfies(solver_clauses(*s), m@),
{
    s.model().map(|m| m.iter().map(|l| (l.index(), l.is_positive())).collect())
}

proof fn lemma_pairs_of_satisfied(f: Seq<Clause>, a: Seq<bool>)
    requires
        formula_true(f, a),
    ensures
        assignment_satisfies(clause_pairs(f), a),
{
    let cls = clause_pairs(f);
    assert forall|j: int| 0 <= j < cls.len() implies meets_assignment(#[trigger] cls[j], a) by {
        assert(clause_true(f[j]@, a));
        let i = choose|i: int| 0 <= i < f[j]@.len() && lit_true(#[trigger] f[j]@[i], a);
        assert(cls[j][i] == lit_pair(f[j]@[i]));
    }
}

/// Builds the varisat formula of the clauses.
fn to_cnf(clauses: &Vec<Clause>) -> (f: varisat::CnfFormula)
    requires
        vars_below(clauses@, (MAX_VAR + 1) as nat),
    ensures
        cnf_clauses(f) == clause_pairs(clauses@),
{
    let mut f = cnf_new();
    let mut k: usize = 0;
    while k < clauses.len()
        invariant
            k <= clauses@.len(),
            vars_below(clauses@, (MAX_VAR + 1) as nat),
            cnf_clauses(f) == clause_pairs(clauses@.subrange(0, k as int)),
        decreases clauses@.len() - k,
    {
        assert forall|i: int| 0 <= i < clauses@[k as int]@.len() implies (#[trigger] clauses@[k as int]@[i]).var <= MAX_VAR by {}
        cnf_add_clause(&mut f, &clauses[k]);
        k = k + 1;
        assert(cnf_clauses(f) =~= clause_pairs(clauses@.subrange(0, k as int)));
    }
    assert(clauses@.subrange(0, k as int) =~= clauses@);
    f
}

/// Solves the clauses over the variables below `n`: a satisfying assignment,
/// or why there is none.
pub fn solve_formula(clauses: &Vec<Clause>, n: usize) -> (r: Result<Vec<bool>, NumberlinkError>)
    requires
        vars_below(clauses@, n as nat),
        n <= MAX_VAR + 1,
    ensures
        r matches Ok(a) ==> a@.len() == n && formula_true(clauses@, a@),
        r matches Err(e) ==> e == NumberlinkError::Unsatisfiable,
        r is Err <==> forall|a: Seq<bool>| a.len() == n ==> !formula_true(clauses@, a),
{
    assert forall|j: int, i: int| 0 <= j < clauses@.len() && 0 <= i < clauses@[j]@.len()
        implies (#[trigger] clauses@[j]@[i]).var < MAX_VAR + 1 by {}
    let f = to_cnf(clauses);
    let mut s = solver_new();
    solver_add_formula(&mut s, &f);
    assert(solver_clauses(s) =~= clause_pairs(clauses@));
    let answer = solver_solve(&mut s);
    match answer {
        None => {
            return Err(NumberlinkError::Unsatisfiable);
        },
        Some(false) => {
            assert forall|a: Seq<bool>| a.len() == n implies !formula_true(clauses@, a) by {
                if formula_true(clauses@, a) {
                    lemma_pairs_of_satisfied(clauses@, a);
                }
            }
            return Err(NumberlinkError::Unsatisfiable);
        },
        Some(true) => {},
    }
    let m = match solver_model(&s) {
        None => {
            return Err(NumberlinkError::Unsatisfiable);
        },
        Some(m) => m,
    };
    let mut a: Vec<bool> = Vec::new();
    while a.len() < n
        invariant
            a@.len() <= n,
        decreases n - a@.len(),
    {
        a.push(false);
    }
    let mut k: usize = 0;
    while k < m.len()
        invariant
            a@.len() == n,
            k <= m@.len(),
            model_consistent(m@),
            forall|q: int| 0 <= q < k && (#[trigger] m@[q]).0 < n ==> a@[m@[q].0 as int] == m@[q].1,
        decreases m@.len() - k,
    {
        let (var, pos) = m[k];
        if var < n {
            a.set(var, pos);
        }
        k = k + 1;
    }
    assert forall|j: int| 0 <= j < clauses@.len() implies clause_true(#[trigger] clauses@[j]@, a@) by {
        let cls = clause_pairs(clauses@);
        assert(meets_model(cls[j], m@));
        let i = choose|i: int| 0 <= i < cls[j].len() && m@.contains(#[trigger] cls[j][i]);
        let q = choose|q: int| 0 <= q < m@.len() && m@[q] == cls[j][i];
        assert(cls[j][i] == lit_pair(clauses@[j]@[i]));
        assert(lit_true(clauses@[j]@[i], a@));
    }
    assert(a@.len() == n as int);
    Ok(a)
}

} // verus!
