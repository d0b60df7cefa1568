//! Clauses in conjunctive normal form, and blocking clauses that bound how
//! many of a few variables are true.
use vstd::prelude::*;

use bitintr::Popcnt;

verus! {

/// A variable, by index, or its negation.
#[derive(Debug, Clone, Copy, PartialEq, Eq, Structural)]
pub struct Literal {
    pub var: usize,
    pub positive: bool,
}

/// A clause: true when one of its literals is.
pub type Clause = Vec<Literal>;

pub open spec fn lit_true(l: Literal, a: Seq<bool>) -> bool {
    l.var < a.len() && a[l.var as int] == l.positive
}

pub open spec fn clause_true(c: Seq<Literal>, a: Seq<bool>) -> bool {
    exists|i: int| 0 <= i < c.len() && lit_true(#[trigger] c[i], a)
}

/// The assignment `a` satisfies every clause.
pub open spec fn formula_true(f: Seq<Clause>, a: Seq<bool>) -> bool {
    forall|j: int| 0 <= j < f.len() ==> clause_true(#[trigger] f[j]@, a)
}

/// Every variable of the list has a value in `a`.
pub open spec fn covers(vars: Seq<usize>, a: Seq<bool>) -> bool {
    forall|i: int| 0 <= i < vars.len() ==> #[trigger] vars[i] < a.len()
}

/// How many entries of `vars` are true under `a`.
pub open spec fn count_true(vars: Seq<usize>, a: Seq<bool>) -> nat
    decreases vars.len(),
{
    if vars.len() == 0 {
        0
    } else {
        (if a[vars[0] as int] { 1nat } else { 0nat }) + count_true(vars.drop_first(), a)
    }
}

/// Every literal of the clauses is over one of `vars`.
pub open spec fn over_vars(f: Seq<Clause>, vars: Seq<usize>) -> bool {
    forall|j: int, i: int| 0 <= j < f.len() && 0 <= i < f[j]@.len()
        ==> vars.contains(#[trigger] f[j]@[i].var)
}

/// The low `n` bits of `b`, least significant first.
pub open spec fn bits_of(b: nat, n: nat) -> Seq<bool>
    decreases n,
{
    if n == 0 {
        seq![]
    } else {
        seq![b % 2 == 1] + bits_of(b / 2, (n - 1) as nat)
    }
}

/// Number of ones among the low `n` bits of `b`.
pub open spec fn ones(b: nat, n: nat) -> nat
    decreases n,
{
    if n == 0 {
        0
    } else {
        b % 2 + ones(b / 2, (n - 1) as nat)
    }
}

/// 2 to the power `n`.
pub open spec fn two_to(n: nat) -> nat
    decreases n,
{
    if n == 0 {
        1
    } else {
        2 * two_to((n - 1) as nat)
    }
}

/// Relies on bitintr's `Popcnt::popcnt` for `u32`: the number of set bits.
#[verifier::external_body]
fn popcnt32(x: u32) -> (r: u32)
    ensures
        r == ones(x as nat, 32),
{
    x.popcnt()
}

proof fn lemma_ones_zero(m: nat)
    ensures
        ones(0, m) == 0,
    decreases m,
{
    if m > 0 {
        lemma_ones_zero((m - 1) as nat);
    }
}

proof fn lemma_ones_small(b: nat, n: nat, m: nat)
    requires
        b < two_to(n),
        n <= m,
    ensures
        ones(b, m) == ones(b, n),
        ones(b, n) <= n,
    decreases n,
{
    if n == 0 {
        lemma_ones_zero(m);
    } else {
        lemma_ones_small(b / 2, (n - 1) as nat, (m - 1) as nat);
    }
}

/// The clause that only the assignment giving `vars[i]` the complement of
/// bit `i` of `b` falsifies.
pub open spec fn blocking_clause(vars: Seq<usize>, b: nat) -> Seq<Literal> {
    Seq::new(vars.len(), |i: int| Literal { var: vars[i], positive: bits_of(b, vars.len())[i] })
}

/// The pattern whose blocking clause `a` falsifies.
pub open spec fn pattern_of(vars: Seq<usize>, a: Seq<bool>) -> nat
    decreases vars.len(),
{
    if vars.len() == 0 {
        0
    } else {
        (if a[vars[0] as int] { 0nat } else { 1nat }) + 2 * pattern_of(vars.drop_first(), a)
    }
}

proof fn lemma_bits_len(b: nat, n: nat)
    ensures
        bits_of(b, n).len() == n,
    decreases n,
{
    if n > 0 {
        lemma_bits_len(b / 2, (n - 1) as nat);
    }
}

proof fn lemma_complement_count(vars: Seq<usize>, a: Seq<bool>, b: nat)
    requires
        forall|i: int| 0 <= i < vars.len() ==> #[trigger] bits_of(b, vars.len())[i] == !a[vars[i] as int],
    ensures
        ones(b, vars.len()) + count_true(vars, a) == vars.len(),
    decreases vars.len(),
{
    if vars.len() > 0 {
        let n = vars.len();
        let rest = vars.drop_first();
        assert(bits_of(b, n) == seq![b % 2 == 1] + bits_of(b / 2, (n - 1) as nat));
        lemma_bits_len(b / 2, (n - 1) as nat);
        assert forall|i: int| 0 <= i < rest.len() implies #[trigger] bits_of(b / 2, rest.len())[i] == !a[rest[i] as int] by {
            assert(bits_of(b, n)[i + 1] == bits_of(b / 2, rest.len())[i]);
        }
        assert(bits_of(b, n)[0] == !a[vars[0] as int]);
        lemma_complement_count(rest, a, b / 2);
    }
}

proof fn lemma_pattern(vars: Seq<usize>, a: Seq<bool>)
    ensures
        pattern_of(vars, a) < two_to(vars.len()),
        forall|i: int| 0 <= i < vars.len() ==>
            #[trigger] bits_of(pattern_of(vars, a), vars.len())[i] == !a[vars[i] as int],
    decreases vars.len(),
{
    if vars.len() > 0 {
        let n = vars.len();
        let rest = vars.drop_first();
        let p = pattern_of(vars, a);
        lemma_pattern(rest, a);
        assert(p % 2 == (if a[vars[0] as int] { 0nat } else { 1nat }));
        assert(p / 2 == pattern_of(rest, a));
        lemma_bits_len(p / 2, (n - 1) as nat);
        assert forall|i: int| 0 <= i < n implies #[trigger] bits_of(p, n)[i] == !a[vars[i] as int] by {
            if i > 0 {
                assert(bits_of(p, n)[i] == bits_of(p / 2, rest.len())[i - 1]);
                assert(rest[i - 1] == vars[i]);
            }
        }
    }
}

/// The number of true variables is allowed: exactly one, or at most one.
pub open spec fn allowed(exactly_one: bool, cnt: nat) -> bool {
    if exactly_one {
        cnt == 1
    } else {
        cnt <= 1
    }
}

proof fn lemma_blocking_clause_false(vars: Seq<usize>, a: Seq<bool>, b: nat)
    requires
        covers(vars, a),
        !clause_true(blocking_clause(vars, b), a),
    ensures
        ones(b, vars.len()) + count_true(vars, a) == vars.len(),
{
    lemma_bits_len(b, vars.len());
    assert forall|i: int| 0 <= i < vars.len() implies #[trigger] bits_of(b, vars.len())[i] == !a[vars[i] as int] by {
        assert(!lit_true(blocking_clause(vars, b)[i], a));
    }
    lemma_complement_count(vars, a, b);
}

/// The blocking clause of the pattern `bit` over `vars`.
fn make_blocking_clause(vars: &Vec<usize>, bit: u32) -> (lits: Clause)
    ensures
    lits@ == blocking_clause(vars@, bit as nat),
{
    let n = vars.len();
    let mut lits: Clause = Vec::new();
    let mut rest: u32 = bit;
    let mut i: usize = 0;
    proof {
        lemma_bits_len(bit as nat, n as nat);
    }
    while i < n
        invariant
            n == vars@.len(),
            bits_of(bit as nat, n as nat).len() == n,
            i <= n,
            bits_of(rest as nat, (n - i) as nat)
                == bits_of(bit as nat, n as nat).subrange(i as int, n as int),
            lits@ == blocking_clause(vars@, bit as nat).subrange(0, i as int),
        decreases n - i,
    {
        let ghost whole = bits_of(bit as nat, n as nat);
        let ghost tail = bits_of(rest as nat, (n - i) as nat);
        proof {
            lemma_bits_len(rest as nat, (n - i) as nat);
            assert(tail[0] == (rest % 2 == 1));
            assert(tail.drop_first() =~= bits_of((rest / 2) as nat, (n - i - 1) as nat));
            assert(tail[0] == whole[i as int]);
            assert(tail.drop_first() =~= whole.subrange(i + 1, n as int));
        }
        lits.push(Literal { var: vars[i], positive: rest % 2 == 1 });
        rest = rest / 2;
        i = i + 1;
        assert(lits@ =~= blocking_clause(vars@, bit as nat).subrange(0, i as int));
    }
    assert(lits@ =~= blocking_clause(vars@, bit as nat));
    lits
}

/// The patterns below `upto`, in increasing order, whose complement (the
/// assignment they block) has a number of true variables that is not allowed.
pub open spec fn forbidden_patterns(exactly_one: bool, n: nat, upto: nat) -> Seq<nat>
    decreases upto,
{
    if upto == 0 {
        seq![]
    } else {
        let b = (upto - 1) as nat;
        forbidden_patterns(exactly_one, n, b) + if !allowed(exactly_one, (n - ones(b, n)) as nat) {
            seq![b]
        } else {
            seq![]
        }
    }
}

/// The blocking clauses of the forbidden patterns, one per pattern, in
/// increasing order of pattern.
pub open spec fn blocking_list(vars: Seq<usize>, exactly_one: bool) -> Seq<Seq<Literal>> {
    forbidden_patterns(exactly_one, vars.len(), two_to(vars.len())).map_values(|b: nat| blocking_clause(vars, b))
}

/// The views of the clauses.
pub open spec fn clause_views(f: Seq<Clause>) -> Seq<Seq<Literal>> {
    f.map_values(|c: Clause| c@)
}

/// The clause blocks a pattern whose number of true variables is not allowed.
pub open spec fn blocks_forbidden(c: Seq<Literal>, vars: Seq<usize>, exactly_one: bool) -> bool {
    exists|b: nat| !allowed(exactly_one, (vars.len() - ones(b, vars.len())) as nat)
        && b < two_to(vars.len()) && c == #[trigger] blocking_clause(vars, b)
}

/// The clauses that block every assignment of `vars` whose number of true
/// variables is not allowed.
fn blocking_clauses(vars: &Vec<usize>, exactly_one: bool) -> (r: Vec<Clause>)
    requires
        vars@.len() <= 4,
    ensures
        over_vars(r@, vars@),
        clause_views(r@) == blocking_list(vars@, exactly_one),
        forall|a: Seq<bool>| covers(vars@, a) ==>
            (#[trigger] formula_true(r@, a) <==> allowed(exactly_one, count_true(vars@, a))),
{
    let n = vars.len();
    let mut limit: u32 = 1;
    let mut k: usize = 0;
    while k < n
        invariant
            k <= n <= 4,
            limit == two_to(k as nat),
            limit <= 16,
        decreases n - k,
    {
        proof {
            reveal_with_fuel(two_to, 4);
        }
        limit = limit * 2;
        k = k + 1;
    }
    let mut res: Vec<Clause> = Vec::new();
    let mut bit: u32 = 0;
    while bit < limit
        invariant
            n == vars@.len() <= 4,
            limit == two_to(n as nat),
            bit <= limit,
            over_vars(res@, vars@),
            clause_views(res@) == forbidden_patterns(exactly_one, n as nat, bit as nat)
                .map_values(|b: nat| blocking_clause(vars@, b)),
            forall|j: int| 0 <= j < res@.len() ==> blocks_forbidden(#[trigger] res@[j]@, vars@, exactly_one),
            forall|b: nat| b < bit && !allowed(exactly_one, (n - ones(b, n as nat)) as nat)
                ==> exists|j: int| 0 <= j < res@.len() && #[trigger] res@[j]@ == blocking_clause(vars@, b),
        decreases limit - bit,
    {
        let pc = popcnt32(bit);
        proof {
            lemma_ones_small(bit as nat, n as nat, 32);
        }
        let keep = if exactly_one { n - pc as usize == 1 } else { n - pc as usize <= 1 };
        let ghost fb = forbidden_patterns(exactly_one, n as nat, bit as nat);
        assert(forbidden_patterns(exactly_one, n as nat, (bit + 1) as nat) == fb + if !keep {
            seq![bit as nat]
        } else {
            seq![]
        });
        if !keep {
            let lits = make_blocking_clause(vars, bit);
            let ghost prev = res@;
            let ghost lv = lits@;
            res.push(lits);
            assert(clause_views(res@) =~= clause_views(prev).push(lv));
            assert((fb + seq![bit as nat]).map_values(|b: nat| blocking_clause(vars@, b))
                =~= fb.map_values(|b: nat| blocking_clause(vars@, b)).push(blocking_clause(vars@, bit as nat)));
            assert forall|j: int, m: int| 0 <= j < res@.len() && 0 <= m < res@[j]@.len()
                implies vars@.contains(#[trigger] res@[j]@[m].var) by {
                if j < prev.len() {
                    assert(res@[j] == prev[j]);
                } else {
                    assert(res@[j]@[m].var == vars@[m]);
                }
            }
            assert forall|j: int| 0 <= j < res@.len() implies blocks_forbidden(#[trigger] res@[j]@, vars@, exactly_one) by {
                if j < prev.len() {
                    assert(res@[j] == prev[j]);
                } else {
                    assert(res@[j]@ == blocking_clause(vars@, bit as nat));
                    assert(bit < two_to(n as nat));
                }
            }
            assert forall|b: nat| b < bit + 1 && !allowed(exactly_one, (n - ones(b, n as nat)) as nat)
                implies exists|j: int| 0 <= j < res@.len() && #[trigger] res@[j]@ == blocking_clause(vars@, b) by {
                if b < bit {
                    let j = choose|j: int| 0 <= j < prev.len() && #[trigger] prev[j]@ == blocking_clause(vars@, b);
                    assert(res@[j] == prev[j]);
                } else {
                    assert(res@[prev.len() as int]@ == blocking_clause(vars@, b));
                }
            }
        }
        else {
            assert(fb + seq![] =~= fb);
        }
        bit = bit + 1;
    }
    assert forall|a: Seq<bool>| covers(vars@, a) implies
        (#[trigger] formula_true(res@, a) <==> allowed(exactly_one, count_true(vars@, a))) by {
        if allowed(exactly_one, count_true(vars@, a)) {
            assert forall|j: int| 0 <= j < res@.len() implies clause_true(#[trigger] res@[j]@, a) by {
                assert(blocks_forbidden(res@[j]@, vars@, exactly_one));
                let b = choose|b: nat| !allowed(exactly_one, (n - ones(b, n as nat)) as nat)
                    && b < two_to(n as nat) && res@[j]@ == #[trigger] blocking_clause(vars@, b);
                if !clause_true(res@[j]@, a) {
                    lemma_blocking_clause_false(vars@, a, b);
                }
            }
        } else {
            lemma_pattern(vars@, a);
            let p = pattern_of(vars@, a);
            lemma_complement_count(vars@, a, p);
            let j = choose|j: int| 0 <= j < res@.len() && #[trigger] res@[j]@ == blocking_clause(vars@, p);
            lemma_bits_len(p, n as nat);
            if clause_true(res@[j]@, a) {
                let i = choose|i: int| 0 <= i < res@[j]@.len() && lit_true(#[trigger] res@[j]@[i], a);
                assert(bits_of(p, n as nat)[i] == !a[vars@[i] as int]);
            }
        }
    }
    res
}

/// Clauses that hold exactly when one of `vars` is true.
pub fn mk_clause_eq1(vars: &Vec<usize>) -> (r: Vec<Clause>)
    requires
        vars@.len() <= 4,
    ensures
        over_vars(r@, vars@),
        clause_views(r@) == blocking_list(vars@, true),
        forall|a: Seq<bool>| covers(vars@, a) ==>
            (#[trigger] formula_true(r@, a) <==> count_true(vars@, a) == 1),
{
    blocking_clauses(vars, true)
}

/// Clauses that hold exactly when at most one of `vars` is true.
pub fn mk_clause_less2(vars: &Vec<usize>) -> (r: Vec<Clause>)
    requires
        vars@.len() <= 4,
    ensures
        over_vars(r@, vars@),
        clause_views(r@) == blocking_list(vars@, false),
        forall|a: Seq<bool>| covers(vars@, a) ==>
            (#[trigger] formula_true(r@, a) <==> count_true(vars@, a) <= 1),
{
    blocking_clauses(vars, false)
}

/// How many blocking clauses there are: 2^n - n for "exactly one" and
/// 2^n - n - 1 for "at most one", for n from 1 to 4.
pub proof fn lemma_blocking_counts(n: nat)
    requires
        1 <= n <= 4,
    ensures
        forbidden_patterns(true, n, two_to(n)).len() == two_to(n) - n,
        forbidden_patterns(false, n, two_to(n)).len() == two_to(n) - n - 1,
{
    reveal_with_fuel(two_to, 5);
    reveal_with_fuel(ones, 5);
    reveal_with_fuel(forbidden_patterns, 17);
    if n == 1 {
        assert(forbidden_patterns(true, 1, 2).len() == 1);
        assert(forbidden_patterns(false, 1, 2).len() == 0);
    } else if n == 2 {
        assert(forbidden_patterns(true, 2, 4).len() == 2);
        assert(forbidden_patterns(false, 2, 4).len() == 1);
    } else if n == 3 {
        assert(forbidden_patterns(true, 3, 8).len() == 5);
        assert(forbidden_patterns(false, 3, 8).len() == 4);
    } else {
        assert(forbidden_patterns(true, 4, 16).len() == 12);
        assert(forbidden_patterns(false, 4, 16).len() == 11);
    }
}

} // verus!
