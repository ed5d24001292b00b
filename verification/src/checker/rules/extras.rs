//! Rules about equality and about the shape of clauses: symmetry, reordering and weakening.

use vstd::prelude::*;

use crate::ast::pool::{all_below, PrimitivePool};
use crate::ast::{Operator, TermId};
use crate::checker::rules::arrays::{
    binary_args, match_binary, match_negated_eq, negated_eq, premises_in, NEGATED_EQ_PATTERN,
};
use crate::checker::rules::{assert_clause_len, assert_num_premises, assert_same_term, get_premise_term, RuleResult};
use crate::error::CheckerError;
use crate::utils::Range;

verus! {

/// The pattern of an equality.
pub const EQUALITY_PATTERN: &'static str = "(= a b)";

/// The pattern of an equality between two equalities.
pub const EQ_OF_EQS_PATTERN: &'static str = "(= (= a b) (= c d))";

/// What a symmetry rule gives for a step whose premise and conclusion are both of one form,
/// whose sides `sides` extracts: the conclusion swaps the sides of the premise.
pub open spec fn swapped_result(
    pool: PrimitivePool,
    conclusion: Seq<TermId>,
    premises: Seq<Vec<TermId>>,
    negated: bool,
) -> RuleResult {
    let pattern = if negated { NEGATED_EQ_PATTERN } else { EQUALITY_PATTERN };
    if premises.len() != 1 {
        Err(CheckerError::WrongNumberOfPremises(Range(Some(1), Some(1)), premises.len() as usize))
    } else if conclusion.len() != 1 {
        Err(CheckerError::WrongLengthOfClause(Range(Some(1), Some(1)), conclusion.len() as usize))
    } else if premises[0]@.len() != 1 {
        Err(CheckerError::BadPremise(0))
    } else {
        let p = premises[0]@[0];
        let q = conclusion[0];
        match sides(pool, p, negated) {
            None => Err(CheckerError::TermOfWrongForm(pattern, p)),
            Some((p1, p2)) => match sides(pool, q, negated) {
                None => Err(CheckerError::TermOfWrongForm(pattern, q)),
                Some((q1, q2)) => if p1 != q2 {
                    Err(CheckerError::TermEquality(p1, q2))
                } else if p2 != q1 {
                    Err(CheckerError::TermEquality(p2, q1))
                } else {
                    Ok(())
                },
            },
        }
    }
}

/// The sides of `(= a b)`, or of `(not (= a b))` when `negated`.
pub open spec fn sides(pool: PrimitivePool, t: TermId, negated: bool) -> Option<(TermId, TermId)> {
    if negated {
        negated_eq(pool, t)
    } else {
        binary_args(pool, t, Operator::Equals)
    }
}

fn match_sides(pool: &PrimitivePool, t: TermId, negated: bool) -> (res: Option<(TermId, TermId)>)
    requires
        pool.wf(),
        t < pool.size(),
    ensures
        res == sides(*pool, t, negated),
{
    if negated {
        match_negated_eq(pool, t)
    } else {
        match_binary(pool, t, Operator::Equals)
    }
}

fn check_swapped(pool: &PrimitivePool, conclusion: &Vec<TermId>, premises: &Vec<Vec<TermId>>, negated: bool) -> (res: RuleResult)
    requires
        pool.wf(),
        all_below(conclusion@, pool.size()),
        premises_in(*pool, premises@),
    ensures
        res == swapped_result(*pool, conclusion@, premises@, negated),
{
    let pattern = if negated { NEGATED_EQ_PATTERN } else { EQUALITY_PATTERN };
    assert_num_premises(premises, 1)?;
    assert_clause_len(conclusion, 1)?;
    let premise = get_premise_term(premises, 0)?;
    assert(all_below(premises@[0]@, pool.size()));
    let (p1, p2) = match match_sides(pool, premise, negated) {
        Some(x) => x,
        None => {
            return Err(CheckerError::TermOfWrongForm(pattern, premise));
        },
    };
    let (q1, q2) = match match_sides(pool, conclusion[0], negated) {
        Some(x) => x,
        None => {
            return Err(CheckerError::TermOfWrongForm(pattern, conclusion[0]));
        },
    };
    assert_same_term(p1, q2)?;
    assert_same_term(p2, q1)
}

/// Whether the sides of `q` are those of `p`, swapped (of equalities, or of negated equalities
/// when `negated`).
pub open spec fn sides_swapped(pool: PrimitivePool, p: TermId, q: TermId, negated: bool) -> bool {
    match (sides(pool, p, negated), sides(pool, q, negated)) {
        (Some(x), Some(y)) => y == (x.1, x.0),
        _ => false,
    }
}

/// `symm` (`not_symm` when `negated`) accepts a step exactly when it has one premise, a clause of
/// one term, and a clause of one term whose sides are those of the premise swapped; when it
/// rejects one on a pair of terms, they are different terms.
pub proof fn lemma_swapped_law(pool: PrimitivePool, conclusion: Seq<TermId>, premises: Seq<Vec<TermId>>, negated: bool)
    ensures
        swapped_result(pool, conclusion, premises, negated) is Ok <==> {
            &&& premises.len() == 1
            &&& premises[0]@.len() == 1
            &&& conclusion.len() == 1
            &&& sides_swapped(pool, premises[0]@[0], conclusion[0], negated)
        },
        swapped_result(pool, conclusion, premises, negated) matches Err(CheckerError::TermEquality(x, y)) ==> x != y,
{
}

/// The rule `symm`: from `(= a b)`, conclude `(= b a)`.
pub fn symm(pool: &PrimitivePool, conclusion: &Vec<TermId>, premises: &Vec<Vec<TermId>>) -> (res: RuleResult)
    requires
        pool.wf(),
        all_below(conclusion@, pool.size()),
        premises_in(*pool, premises@),
    ensures
        res == swapped_result(*pool, conclusion@, premises@, false),
{
    check_swapped(pool, conclusion, premises, false)
}

/// The rule `not_symm`: from `(not (= a b))`, conclude `(not (= b a))`.
pub fn not_symm(pool: &PrimitivePool, conclusion: &Vec<TermId>, premises: &Vec<Vec<TermId>>) -> (res: RuleResult)
    requires
        pool.wf(),
        all_below(conclusion@, pool.size()),
        premises_in(*pool, premises@),
    ensures
        res == swapped_result(*pool, conclusion@, premises@, true),
{
    check_swapped(pool, conclusion, premises, true)
}

/// What `eq_symmetric` gives for a conclusion: it must be `(= (= a b) (= b a))`.
pub open spec fn eq_symmetric_result(pool: PrimitivePool, conclusion: Seq<TermId>) -> RuleResult {
    if conclusion.len() != 1 {
        Err(CheckerError::WrongLengthOfClause(Range(Some(1), Some(1)), conclusion.len() as usize))
    } else {
        let c = conclusion[0];
        match binary_args(pool, c, Operator::Equals) {
            None => Err(CheckerError::TermOfWrongForm(EQ_OF_EQS_PATTERN, c)),
            Some((l, r)) => match (binary_args(pool, l, Operator::Equals), binary_args(pool, r, Operator::Equals)) {
                (Some((a, b)), Some((c2, d))) => if a != d {
                    Err(CheckerError::TermEquality(a, d))
                } else if b != c2 {
                    Err(CheckerError::TermEquality(b, c2))
                } else {
                    Ok(())
                },
                _ => Err(CheckerError::TermOfWrongForm(EQ_OF_EQS_PATTERN, c)),
            },
        }
    }
}

/// Whether the term at `t` is `(= (= a b) (= b a))` for some `a` and `b`.
pub open spec fn is_mirrored_equality(pool: PrimitivePool, t: TermId) -> bool {
    match binary_args(pool, t, Operator::Equals) {
        Some((l, r)) => match (binary_args(pool, l, Operator::Equals), binary_args(pool, r, Operator::Equals)) {
            (Some(x), Some(y)) => y == (x.1, x.0),
            _ => false,
        },
        None => false,
    }
}

/// `eq_symmetric` accepts exactly a clause of one term `(= (= a b) (= b a))`; when it rejects a
/// clause on a pair of terms, they are different terms.
pub proof fn lemma_eq_symmetric_law(pool: PrimitivePool, conclusion: Seq<TermId>)
    ensures
        eq_symmetric_result(pool, conclusion) is Ok <==> conclusion.len() == 1 && is_mirrored_equality(pool, conclusion[0]),
        eq_symmetric_result(pool, conclusion) matches Err(CheckerError::TermEquality(x, y)) ==> x != y,
{
}

/// The rule `eq_symmetric`: conclude `(= (= a b) (= b a))`.
pub fn eq_symmetric(pool: &PrimitivePool, conclusion: &Vec<TermId>) -> (res: RuleResult)
    requires
        pool.wf(),
        all_below(conclusion@, pool.size()),
    ensures
        res == eq_symmetric_result(*pool, conclusion@),
{
    assert_clause_len(conclusion, 1)?;
    let c = conclusion[0];
    let (l, r) = match match_binary(pool, c, Operator::Equals) {
        Some(x) => x,
        None => {
            return Err(CheckerError::TermOfWrongForm(EQ_OF_EQS_PATTERN, c));
        },
    };
    let (a, b) = match match_binary(pool, l, Operator::Equals) {
        Some(x) => x,
        None => {
            return Err(CheckerError::TermOfWrongForm(EQ_OF_EQS_PATTERN, c));
        },
    };
    let (c2, d) = match match_binary(pool, r, Operator::Equals) {
        Some(x) => x,
        None => {
            return Err(CheckerError::TermOfWrongForm(EQ_OF_EQS_PATTERN, c));
        },
    };
    assert_same_term(a, d)?;
    assert_same_term(b, c2)
}

/// The first term of `a`, in order, that `b` does not contain.
pub open spec fn first_not_in(a: Seq<TermId>, b: Seq<TermId>) -> Option<TermId>
    decreases a.len(),
{
    if a.len() == 0 {
        None
    } else if !b.contains(a[0]) {
        Some(a[0])
    } else {
        first_not_in(a.drop_first(), b)
    }
}

/// `first_not_in` is `None` exactly when `b` contains every term of `a`.
pub proof fn lemma_first_not_in(a: Seq<TermId>, b: Seq<TermId>)
    ensures
        first_not_in(a, b) is None <==> forall|k: int| 0 <= k < a.len() ==> b.contains(#[trigger] a[k]),
        first_not_in(a, b) matches Some(t) ==> a.contains(t) && !b.contains(t),
    decreases a.len(),
{
    if a.len() > 0 {
        lemma_first_not_in(a.drop_first(), b);
        if b.contains(a[0]) {
            assert forall|k: int| 0 <= k < a.len() && (forall|m: int| 0 <= m < a.drop_first().len() ==> b.contains(#[trigger] a.drop_first()[m]))
                implies b.contains(#[trigger] a[k]) by {
                if k > 0 {
                    assert(a[k] == a.drop_first()[k - 1]);
                }
            }
            if let Some(t) = first_not_in(a, b) {
                let k = choose|k: int| 0 <= k < a.drop_first().len() && a.drop_first()[k] == t;
                assert(a[k + 1] == t);
            }
            if forall|k: int| 0 <= k < a.len() ==> b.contains(#[trigger] a[k]) {
                assert forall|m: int| 0 <= m < a.drop_first().len() implies b.contains(#[trigger] a.drop_first()[m]) by {
                    assert(a.drop_first()[m] == a[m + 1]);
                }
            }
        } else {
            assert(a.contains(a[0]));
        }
    }
}

/// The first term of `a`, in order, that `b` does not contain, computed by a search.
fn find_not_in(a: &Vec<TermId>, b: &Vec<TermId>) -> (res: Option<TermId>)
    ensures
        res == first_not_in(a@, b@),
{
    let mut k: usize = 0;
    assert(a@.skip(0) =~= a@);
    while k < a.len()
        invariant
            k <= a@.len(),
            first_not_in(a@, b@) == first_not_in(a@.skip(k as int), b@),
        decreases a@.len() - k,
    {
        let t = a[k];
        let mut found = false;
        let mut m: usize = 0;
        while m < b.len()
            invariant
                m <= b@.len(),
                found <==> exists|i: int| 0 <= i < m && b@[i] == t,
            decreases b@.len() - m,
        {
            if b[m] == t {
                found = true;
            }
            m += 1;
        }
        assert(a@.skip(k as int)[0] == t);
        assert(a@.skip(k as int).drop_first() =~= a@.skip(k + 1));
        if !found {
            return Some(t);
        }
        assert(b@[choose|i: int| 0 <= i < b@.len() && b@[i] == t] == t);
        assert(b@.contains(t));
        k += 1;
    }
    assert(a@.skip(k as int).len() == 0);
    None
}

/// What `reordering` gives for a step: the conclusion has the length of the premise and the same
/// terms, in any order.
pub open spec fn reordering_result(conclusion: Seq<TermId>, premises: Seq<Vec<TermId>>) -> RuleResult {
    if premises.len() != 1 {
        Err(CheckerError::WrongNumberOfPremises(Range(Some(1), Some(1)), premises.len() as usize))
    } else {
        let premise = premises[0]@;
        if conclusion.len() != premise.len() {
            Err(CheckerError::WrongLengthOfClause(Range(Some(premise.len() as usize), Some(premise.len() as usize)), conclusion.len() as usize))
        } else {
            match first_not_in(premise, conclusion) {
                Some(t) => Err(CheckerError::ContractionMissingTerm(t)),
                None => match first_not_in(conclusion, premise) {
                    Some(t) => Err(CheckerError::ContractionExtraTerm(t)),
                    None => Ok(()),
                },
            }
        }
    }
}

/// The rule `reordering`: the conclusion is the premise with its terms in another order.
pub fn reordering(conclusion: &Vec<TermId>, premises: &Vec<Vec<TermId>>) -> (res: RuleResult)
    ensures
        res == reordering_result(conclusion@, premises@),
{
    assert_num_premises(premises, 1)?;
    let premise = &premises[0];
    assert_clause_len(conclusion, premise.len())?;
    if let Some(t) = find_not_in(premise, conclusion) {
        return Err(CheckerError::ContractionMissingTerm(t));
    }
    if let Some(t) = find_not_in(conclusion, premise) {
        return Err(CheckerError::ContractionExtraTerm(t));
    }
    Ok(())
}

/// The first position below `n` at which `a` and `b` differ.
pub open spec fn first_mismatch(a: Seq<TermId>, b: Seq<TermId>, n: int) -> Option<int>
    decreases n,
{
    if n <= 0 {
        None
    } else {
        match first_mismatch(a, b, n - 1) {
            Some(k) => Some(k),
            None => if a[n - 1] != b[n - 1] { Some(n - 1) } else { None },
        }
    }
}

/// Once a mismatch is found, it stays the first one for every longer prefix.
proof fn lemma_first_mismatch_stays(a: Seq<TermId>, b: Seq<TermId>, k: int, n: int)
    requires
        first_mismatch(a, b, k + 1) == Some(k),
        k + 1 <= n,
    ensures
        first_mismatch(a, b, n) == Some(k),
    decreases n,
{
    if n > k + 1 {
        lemma_first_mismatch_stays(a, b, k, n - 1);
    }
}

/// What `weakening` gives for a step: the conclusion starts with the terms of the premise.
pub open spec fn weakening_result(conclusion: Seq<TermId>, premises: Seq<Vec<TermId>>) -> RuleResult {
    if premises.len() != 1 {
        Err(CheckerError::WrongNumberOfPremises(Range(Some(1), Some(1)), premises.len() as usize))
    } else {
        let premise = premises[0]@;
        if conclusion.len() < premise.len() {
            Err(CheckerError::WrongLengthOfClause(Range(Some(premise.len() as usize), None), conclusion.len() as usize))
        } else {
            match first_mismatch(premise, conclusion, premise.len() as int) {
                Some(k) => Err(CheckerError::TermEquality(premise[k], conclusion[k])),
                None => Ok(()),
            }
        }
    }
}

/// `reordering` accepts a step exactly when it has one premise and its clause has as many terms
/// as the premise, every term of the premise occurring in it and every term of it occurring in
/// the premise. A term it reports as missing is in the premise and not in the clause; one it
/// reports as extra is in the clause and not in the premise.
pub proof fn lemma_reordering_law(conclusion: Seq<TermId>, premises: Seq<Vec<TermId>>)
    ensures
        reordering_result(conclusion, premises) is Ok <==> {
            &&& premises.len() == 1
            &&& conclusion.len() == premises[0]@.len()
            &&& forall|k: int| 0 <= k < premises[0]@.len() ==> conclusion.contains(#[trigger] premises[0]@[k])
            &&& forall|k: int| 0 <= k < conclusion.len() ==> premises[0]@.contains(#[trigger] conclusion[k])
        },
        reordering_result(conclusion, premises) matches Err(CheckerError::ContractionMissingTerm(t)) ==>
            premises[0]@.contains(t) && !conclusion.contains(t),
        reordering_result(conclusion, premises) matches Err(CheckerError::ContractionExtraTerm(t)) ==>
            conclusion.contains(t) && !premises[0]@.contains(t),
{
    if premises.len() == 1 {
        lemma_first_not_in(premises[0]@, conclusion);
        lemma_first_not_in(conclusion, premises[0]@);
    }
}

/// `weakening` accepts a step exactly when it has one premise and its clause starts with the
/// terms of that premise, in order; when it rejects one on a pair of terms, that pair is the
/// first position at which the two clauses differ.
pub proof fn lemma_weakening_law(conclusion: Seq<TermId>, premises: Seq<Vec<TermId>>)
    ensures
        weakening_result(conclusion, premises) is Ok <==> {
            &&& premises.len() == 1
            &&& premises[0]@.len() <= conclusion.len()
            &&& conclusion.subrange(0, premises[0]@.len() as int) == premises[0]@
        },
        weakening_result(conclusion, premises) matches Err(CheckerError::TermEquality(x, y)) ==> {
            &&& premises.len() == 1
            &&& exists|k: int| 0 <= k < premises[0]@.len() && k < conclusion.len()
                && x == premises[0]@[k] && y == conclusion[k] && x != y
                && conclusion.subrange(0, k) == premises[0]@.subrange(0, k)
        },
{
    if premises.len() == 1 && premises[0]@.len() <= conclusion.len() {
        let p = premises[0]@;
        lemma_first_mismatch(p, conclusion, p.len() as int);
        match first_mismatch(p, conclusion, p.len() as int) {
            Some(k) => {
                assert(conclusion.subrange(0, k) =~= p.subrange(0, k));
                assert(conclusion.subrange(0, p.len() as int)[k] != p[k]);
            },
            None => {
                assert(conclusion.subrange(0, p.len() as int) =~= p);
            },
        }
    }
}

/// `first_mismatch` finds the first of the `n` first positions at which `a` and `b` differ.
proof fn lemma_first_mismatch(a: Seq<TermId>, b: Seq<TermId>, n: int)
    requires
        0 <= n <= a.len(),
        n <= b.len(),
    ensures
        first_mismatch(a, b, n) is None <==> forall|k: int| 0 <= k < n ==> a[k] == b[k],
        first_mismatch(a, b, n) matches Some(k) ==> 0 <= k < n && a[k] != b[k]
            && forall|j: int| 0 <= j < k ==> a[j] == b[j],
    decreases n,
{
    if n > 0 {
        lemma_first_mismatch(a, b, n - 1);
    }
}

/// The rule `weakening`: the conclusion is the premise with more terms after it.
pub fn weakening(conclusion: &Vec<TermId>, premises: &Vec<Vec<TermId>>) -> (res: RuleResult)
    ensures
        res == weakening_result(conclusion@, premises@),
{
    assert_num_premises(premises, 1)?;
    let premise = &premises[0];
    if conclusion.len() < premise.len() {
        return Err(CheckerError::WrongLengthOfClause(Range(Some(premise.len()), None), conclusion.len()));
    }
    let mut k: usize = 0;
    while k < premise.len()
        invariant
            k <= premise@.len() <= conclusion@.len(),
            *premise == premises@[0],
            premises@.len() == 1,
            first_mismatch(premise@, conclusion@, k as int) is None,
        decreases premise@.len() - k,
    {
        if premise[k] != conclusion[k] {
            proof {
                lemma_first_mismatch_stays(premise@, conclusion@, k as int, premise@.len() as int);
            }
        }
        assert_same_term(premise[k], conclusion[k])?;
        k += 1;
    }
    Ok(())
}

} // verus!
