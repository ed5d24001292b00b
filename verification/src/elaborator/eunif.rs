//! The premise equalities of a `g_eunif` step, and the explanation of its conclusion by the
//! congruence closure.

use vstd::prelude::*;

use crate::ast::pool::{all_below, args_of, PrimitivePool};
use crate::ast::{Operator, TermId};
use crate::cc::{congruent, proves, CongruenceClosure, EqProofRc};
use crate::checker::rules::arrays::{binary_args, match_binary, premises_in};
use crate::error::CheckerError;

verus! {

/// The pattern of the conclusion of a `g_eunif` step.
pub const EUNIF_CONCLUSION_PATTERN: &'static str = "(= t u)";

/// The pattern of a premise equality, or of a conjunct of a conjunction premise.
pub const EUNIF_EQUALITY_PATTERN: &'static str = "(= a b)";

/// The pattern of a premise that is not an equality.
pub const EUNIF_CONJUNCTION_PATTERN: &'static str = "(and ...)";

/// A premise equality of a `g_eunif` step: its two sides, the position of the premise that gives
/// it, and, when that premise is a conjunction, the position of the conjunct.
pub type FlatEquality = (TermId, TermId, usize, Option<usize>);

/// The equalities given by the conjuncts `cs[j..]` of the `i`-th premise, or the error for the
/// first conjunct that is not an equality.
pub open spec fn conjunct_equalities(pool: PrimitivePool, cs: Seq<TermId>, i: usize, j: int) -> Result<Seq<FlatEquality>, CheckerError>
    decreases cs.len() - j,
{
    if j < 0 || j >= cs.len() {
        Ok(Seq::empty())
    } else {
        match binary_args(pool, cs[j], Operator::Equals) {
            None => Err(CheckerError::TermOfWrongForm(EUNIF_EQUALITY_PATTERN, cs[j])),
            Some((a, b)) => match conjunct_equalities(pool, cs, i, j + 1) {
                Err(e) => Err(e),
                Ok(rest) => Ok(seq![(a, b, i, Some(j as usize))] + rest),
            },
        }
    }
}

/// The equalities given by the `i`-th premise: itself when it is an equality, else its
/// conjuncts, all of which must be equalities.
pub open spec fn premise_equality(pool: PrimitivePool, t: TermId, i: usize) -> Result<Seq<FlatEquality>, CheckerError> {
    match binary_args(pool, t, Operator::Equals) {
        Some((a, b)) => Ok(seq![(a, b, i, None::<usize>)]),
        None => match args_of(pool, t, Operator::And) {
            Some(cs) => conjunct_equalities(pool, cs, i, 0),
            None => Err(CheckerError::TermOfWrongForm(EUNIF_CONJUNCTION_PATTERN, t)),
        },
    }
}

/// The equalities given by the premises from the `i`-th on, each premise being a clause of one
/// term, or the error for the first one that is neither an equality nor a conjunction of
/// equalities.
pub open spec fn premise_equalities(pool: PrimitivePool, premises: Seq<Vec<TermId>>, i: int) -> Result<Seq<FlatEquality>, CheckerError>
    decreases premises.len() - i,
{
    if i < 0 || i >= premises.len() {
        Ok(Seq::empty())
    } else {
        match premise_equality(pool, premises[i]@[0], i as usize) {
            Err(e) => Err(e),
            Ok(head) => match premise_equalities(pool, premises, i + 1) {
                Err(e) => Err(e),
                Ok(rest) => Ok(head + rest),
            },
        }
    }
}

/// The pairs of sides of a list of premise equalities.
pub open spec fn flat_pairs(flat: Seq<FlatEquality>) -> Seq<(TermId, TermId)> {
    flat.map_values(|f: FlatEquality| (f.0, f.1))
}

/// Where each of a list of premise equalities comes from: the premise, and the conjunct.
pub open spec fn flat_sources(flat: Seq<FlatEquality>) -> Seq<(usize, Option<usize>)> {
    flat.map_values(|f: FlatEquality| (f.2, f.3))
}

/// The indices `0, 1, ...` of a list of `n` premise equalities.
pub open spec fn flat_indices(n: nat) -> Seq<usize> {
    Seq::new(n, |k: int| k as usize)
}

/// Both sides of each equality are terms of a pool of `n` terms.
pub open spec fn sides_below(flat: Seq<FlatEquality>, n: nat) -> bool {
    forall|k: int| 0 <= k < flat.len() ==> (#[trigger] flat[k]).0 < n && flat[k].1 < n
}

/// The equalities given by the conjuncts of the `i`-th premise.
fn conjunct_equalities_exec(pool: &PrimitivePool, cs: &Vec<TermId>, i: usize, out: &mut Vec<FlatEquality>) -> (res: Result<(), CheckerError>)
    requires
        pool.wf(),
        all_below(cs@, pool.size()),
        sides_below(old(out)@, pool.size()),
    ensures
        match conjunct_equalities(*pool, cs@, i, 0) {
            Ok(s) => res is Ok && final(out)@ == old(out)@ + s,
            Err(e) => res == Err::<(), CheckerError>(e),
        },
        sides_below(final(out)@, pool.size()),
{
    let ghost start = out@;
    let mut j: usize = 0;
    while j < cs.len()
        invariant
            pool.wf(),
            all_below(cs@, pool.size()),
            j <= cs@.len(),
            conjunct_equalities(*pool, cs@, i, 0) == match conjunct_equalities(*pool, cs@, i, j as int) {
                Ok(s) => Ok(out@.subrange(start.len() as int, out@.len() as int) + s),
                Err(e) => Err::<Seq<FlatEquality>, CheckerError>(e),
            },
            start.len() <= out@.len(),
            out@.subrange(0, start.len() as int) == start,
            sides_below(out@, pool.size()),
        decreases cs@.len() - j,
    {
        let c = cs[j];
        match match_binary(pool, c, Operator::Equals) {
            None => {
                return Err(CheckerError::TermOfWrongForm(EUNIF_EQUALITY_PATTERN, c));
            },
            Some((a, b)) => {
                let ghost before = out@;
                out.push((a, b, i, Some(j)));
                proof {
                    let x = (a, b, i, Some(j));
                    assert(out@.subrange(start.len() as int, out@.len() as int)
                        =~= before.subrange(start.len() as int, before.len() as int).push(x));
                    assert(out@.subrange(0, start.len() as int) =~= before.subrange(0, start.len() as int));
                    match conjunct_equalities(*pool, cs@, i, j + 1) {
                        Ok(rest) => {
                            assert(before.subrange(start.len() as int, before.len() as int) + (seq![x] + rest)
                                =~= before.subrange(start.len() as int, before.len() as int).push(x) + rest);
                        },
                        Err(_) => {},
                    }
                }
            },
        }
        j += 1;
    }
    proof {
        assert(out@ =~= start + out@.subrange(start.len() as int, out@.len() as int));
        assert(out@.subrange(start.len() as int, out@.len() as int) + Seq::<FlatEquality>::empty()
            =~= out@.subrange(start.len() as int, out@.len() as int));
    }
    Ok(())
}

/// The equalities given by the premises, each a clause of one term.
fn premise_equalities_exec(pool: &PrimitivePool, premises: &Vec<Vec<TermId>>) -> (res: Result<Vec<FlatEquality>, CheckerError>)
    requires
        pool.wf(),
        premises_in(*pool, premises@),
        forall|k: int| 0 <= k < premises@.len() ==> (#[trigger] premises@[k])@.len() == 1,
    ensures
        match premise_equalities(*pool, premises@, 0) {
            Ok(s) => res matches Ok(v) && v@ == s,
            Err(e) => res == Err::<Vec<FlatEquality>, CheckerError>(e),
        },
        res matches Ok(v) ==> sides_below(v@, pool.size()),
{
    let mut out: Vec<FlatEquality> = Vec::new();
    let mut i: usize = 0;
    while i < premises.len()
        invariant
            pool.wf(),
            premises_in(*pool, premises@),
            forall|k: int| 0 <= k < premises@.len() ==> (#[trigger] premises@[k])@.len() == 1,
            i <= premises@.len(),
            premise_equalities(*pool, premises@, 0) == match premise_equalities(*pool, premises@, i as int) {
                Ok(s) => Ok(out@ + s),
                Err(e) => Err::<Seq<FlatEquality>, CheckerError>(e),
            },
            sides_below(out@, pool.size()),
        decreases premises@.len() - i,
    {
        assert(all_below(premises@[i as int]@, pool.size()));
        let t = premises[i][0];
        let ghost before = out@;
        match match_binary(pool, t, Operator::Equals) {
            Some((a, b)) => {
                out.push((a, b, i, None));
            },
            None => match pool.op_args(t, Operator::And) {
                Some(cs) => {
                    proof {
                        pool.lemma_children_below(t);
                        assert(crate::ast::pool::children(pool.node(t)) == cs@);
                        assert forall|k: int| 0 <= k < cs@.len() implies #[trigger] cs@[k] < pool.size() by {
                            assert(crate::ast::pool::children(pool.node(t))[k] == cs@[k]);
                        }
                    }
                    conjunct_equalities_exec(pool, cs, i, &mut out)?;
                },
                None => {
                    return Err(CheckerError::TermOfWrongForm(EUNIF_CONJUNCTION_PATTERN, t));
                },
            },
        }
        proof {
            match premise_equality(*pool, t, i) {
                Ok(head) => {
                    assert(out@ =~= before + head);
                    match premise_equalities(*pool, premises@, i + 1) {
                        Ok(rest) => {
                            assert(before + (head + rest) =~= (before + head) + rest);
                        },
                        Err(_) => {},
                    }
                },
                Err(_) => {},
            }
        }
        i += 1;
    }
    assert(out@ + Seq::<FlatEquality>::empty() =~= out@);
    Ok(out)
}

/// The explanation of a `g_eunif` step whose clause is `clause` and whose premises are the
/// clauses `premises`, each of one term: the conclusion must be an equality `(= t u)`, each
/// premise an equality or a conjunction of equalities, and `t` and `u` congruent given the
/// premise equalities. On success, gives a proof of `t = u` whose leaves are the premise
/// equalities, numbered in order, with the premise (and conjunct) that gives each.
///
/// The congruence closure in `cc` is made if there is none, and holds the premise equalities
/// afterwards; it is left untouched when the clause or a premise does not have the expected form.
pub fn g_eunif(
    pool: &PrimitivePool,
    cc: &mut Option<CongruenceClosure>,
    clause: &Vec<TermId>,
    premises: &Vec<Vec<TermId>>,
) -> (res: Result<(EqProofRc, Vec<(usize, Option<usize>)>), CheckerError>)
    requires
        pool.wf(),
        clause@.len() == 1,
        all_below(clause@, pool.size()),
        premises_in(*pool, premises@),
        forall|k: int| 0 <= k < premises@.len() ==> (#[trigger] premises@[k])@.len() == 1,
    ensures
        match binary_args(*pool, clause@[0], Operator::Equals) {
            None => res == Err::<(EqProofRc, Vec<(usize, Option<usize>)>), CheckerError>(
                CheckerError::TermOfWrongForm(EUNIF_CONCLUSION_PATTERN, clause@[0])) && *final(cc) == *old(cc),
            Some((t, u)) => match premise_equalities(*pool, premises@, 0) {
                Err(e) => res == Err::<(EqProofRc, Vec<(usize, Option<usize>)>), CheckerError>(e) && *final(cc) == *old(cc),
                Ok(flat) => {
                    &&& *final(cc) matches Some(c) && c.premises() == flat_pairs(flat) && c.indices() == flat_indices(flat.len())
                    &&& (res is Ok <==> congruent(*pool, flat_pairs(flat), t, u))
                    &&& (res matches Err(e) ==> e == CheckerError::TermsNotCongruent(t, u))
                    &&& (res matches Ok((p, table)) ==> p.conclusion == (t, u)
                        && proves(*pool, flat_pairs(flat), flat_indices(flat.len()), *p)
                        && table@ == flat_sources(flat))
                },
            },
        },
{
    assert(clause@[0] < pool.size());
    let (t, u) = match match_binary(pool, clause[0], Operator::Equals) {
        Some(sides) => sides,
        None => {
            return Err(CheckerError::TermOfWrongForm(EUNIF_CONCLUSION_PATTERN, clause[0]));
        },
    };
    let flat = premise_equalities_exec(pool, premises)?;
    let mut c = match cc.take() {
        Some(c) => c,
        None => CongruenceClosure::new(),
    };
    c.reset();
    let mut table: Vec<(usize, Option<usize>)> = Vec::new();
    let mut k: usize = 0;
    while k < flat.len()
        invariant
            k <= flat@.len(),
            sides_below(flat@, pool.size()),
            c.premises() == flat_pairs(flat@.take(k as int)),
            c.indices() == flat_indices(k as nat),
            table@ == flat_sources(flat@.take(k as int)),
        decreases flat@.len() - k,
    {
        let (a, b, i, j) = flat[k];
        c.add_equality(pool, a, b, k);
        table.push((i, j));
        assert(flat_pairs(flat@.take(k + 1)) =~= flat_pairs(flat@.take(k as int)).push((a, b)));
        assert(flat_indices((k + 1) as nat) =~= flat_indices(k as nat).push(k));
        assert(flat_sources(flat@.take(k + 1)) =~= flat_sources(flat@.take(k as int)).push((i, j)));
        k += 1;
    }
    assert(flat@.take(flat@.len() as int) =~= flat@);
    proof {
        assert forall|m: int| 0 <= m < c.premises().len()
            implies (#[trigger] c.premises()[m]).0 < pool.size() && c.premises()[m].1 < pool.size() by {
            assert(c.premises()[m] == (flat@[m].0, flat@[m].1));
        }
    }
    let explained = c.explain(pool, t, u);
    *cc = Some(c);
    match explained {
        Some(p) => Ok((p, table)),
        None => Err(CheckerError::TermsNotCongruent(t, u)),
    }
}

} // verus!
