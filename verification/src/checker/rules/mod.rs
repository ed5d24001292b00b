//! The rules of the proof format, and the checks they share.

pub mod arrays;
pub mod extras;
pub mod strings;

use vstd::prelude::*;

use crate::ast::polyeq::{polyeq, polyeq_terms};
use crate::ast::pool::PrimitivePool;
use crate::ast::TermId;
use crate::error::CheckerError;
use crate::utils::Range;

verus! {

/// The result of checking a step with a rule.
pub type RuleResult = Result<(), CheckerError>;

/// Checks that a clause has exactly `expected` terms.
pub fn assert_clause_len(clause: &Vec<TermId>, expected: usize) -> (res: RuleResult)
    ensures
        res == if clause@.len() == expected {
            Ok(())
        } else {
            Err(CheckerError::WrongLengthOfClause(Range(Some(expected), Some(expected)), clause@.len() as usize))
        },
{
    if clause.len() == expected {
        Ok(())
    } else {
        Err(CheckerError::WrongLengthOfClause(Range::exactly(expected), clause.len()))
    }
}

/// Checks that a step has exactly `expected` premises.
pub fn assert_num_premises(premises: &Vec<Vec<TermId>>, expected: usize) -> (res: RuleResult)
    ensures
        res == if premises@.len() == expected {
            Ok(())
        } else {
            Err(CheckerError::WrongNumberOfPremises(Range(Some(expected), Some(expected)), premises@.len() as usize))
        },
{
    if premises.len() == expected {
        Ok(())
    } else {
        Err(CheckerError::WrongNumberOfPremises(Range::exactly(expected), premises.len()))
    }
}

/// The term of the premise at position `k`, which must be a clause of exactly one term.
pub fn get_premise_term(premises: &Vec<Vec<TermId>>, k: usize) -> (res: Result<TermId, CheckerError>)
    requires
        k < premises@.len(),
    ensures
        res == if premises@[k as int]@.len() == 1 {
            Ok(premises@[k as int]@[0])
        } else {
            Err(CheckerError::BadPremise(k))
        },
{
    let premise = &premises[k];
    if premise.len() == 1 {
        Ok(premise[0])
    } else {
        Err(CheckerError::BadPremise(k))
    }
}

/// Checks that two terms are equal.
pub fn assert_same_term(a: TermId, b: TermId) -> (res: RuleResult)
    ensures
        res == if a == b { Ok(()) } else { Err(CheckerError::TermEquality(a, b)) },
{
    if a == b {
        Ok(())
    } else {
        Err(CheckerError::TermEquality(a, b))
    }
}

/// Checks that two terms are equal up to the order of the sides of equalities.
pub fn assert_polyeq(pool: &PrimitivePool, a: TermId, b: TermId) -> (res: RuleResult)
    requires
        pool.wf(),
        a < pool.size(),
        b < pool.size(),
    ensures
        res == if polyeq(*pool, a, b) { Ok(()) } else { Err(CheckerError::ExpectedTermToBe(a, b)) },
{
    if polyeq_terms(pool, a, b) {
        Ok(())
    } else {
        Err(CheckerError::ExpectedTermToBe(a, b))
    }
}

} // verus!
