//! Rules of the theory of arrays: read over write, and extensionality.

use vstd::prelude::*;

use crate::ast::polyeq::polyeq;
use crate::ast::pool::{all_below, args_of, extends, lemma_extends_trans, term_sort, PrimitivePool};
use crate::ast::{sort_eq, Binder, Operator, Sort, Term, TermId};
use crate::checker::rules::{assert_clause_len, assert_same_term, assert_num_premises, assert_polyeq, get_premise_term, RuleResult};
use crate::error::CheckerError;
use crate::text::{decimal, numbered};
use crate::utils::Range;

verus! {

/// The two arguments of an application of `op` to exactly two arguments.
pub open spec fn binary_args(pool: PrimitivePool, t: TermId, op: Operator) -> Option<(TermId, TermId)> {
    match args_of(pool, t, op) {
        Some(a) => if a.len() == 2 { Some((a[0], a[1])) } else { None },
        None => None,
    }
}

/// The three arguments of an application of `op` to exactly three arguments.
pub open spec fn ternary_args(pool: PrimitivePool, t: TermId, op: Operator) -> Option<(TermId, TermId, TermId)> {
    match args_of(pool, t, op) {
        Some(a) => if a.len() == 3 { Some((a[0], a[1], a[2])) } else { None },
        None => None,
    }
}

/// The argument of an application of `op` to exactly one argument.
pub open spec fn unary_arg(pool: PrimitivePool, t: TermId, op: Operator) -> Option<TermId> {
    match args_of(pool, t, op) {
        Some(a) => if a.len() == 1 { Some(a[0]) } else { None },
        None => None,
    }
}

/// `(not (= i j))`: the sides of the negated equality.
pub open spec fn negated_eq(pool: PrimitivePool, t: TermId) -> Option<(TermId, TermId)> {
    match unary_arg(pool, t, Operator::Not) {
        Some(e) => binary_args(pool, e, Operator::Equals),
        None => None,
    }
}

/// `(select (store a i e) j)`: the array, index and element of the store, and the index read.
pub open spec fn select_of_store(pool: PrimitivePool, t: TermId) -> Option<(TermId, TermId, TermId, TermId)> {
    match binary_args(pool, t, Operator::Select) {
        Some((st, j)) => match ternary_args(pool, st, Operator::Store) {
            Some((a, i, e)) => Some((a, i, e, j)),
            None => None,
        },
        None => None,
    }
}

/// `(= (select (store a i e) i) e)`.
pub open spec fn idx_form(pool: PrimitivePool, c: TermId) -> bool {
    match binary_args(pool, c, Operator::Equals) {
        Some((l, r)) => match select_of_store(pool, l) {
            Some((a, i, e, j)) => j == i && r == e,
            None => false,
        },
        None => false,
    }
}

/// `(= (select (store a i e) j) (select a j))`: the array, the two indices and the element.
pub open spec fn row_form(pool: PrimitivePool, c: TermId) -> Option<(TermId, TermId, TermId, TermId)> {
    match binary_args(pool, c, Operator::Equals) {
        Some((l, r)) => match select_of_store(pool, l) {
            Some((a, i, e, j)) => match binary_args(pool, r, Operator::Select) {
                Some((a2, j2)) => if a2 == a && j2 == j { Some((a, i, e, j)) } else { None },
                None => None,
            },
            None => None,
        },
        None => None,
    }
}

/// `(not (= (select (store a i e) j) (select a j)))`.
pub open spec fn row_contra_premise_form(pool: PrimitivePool, t: TermId) -> Option<(TermId, TermId, TermId, TermId)> {
    match unary_arg(pool, t, Operator::Not) {
        Some(e) => row_form(pool, e),
        None => None,
    }
}

/// `(not (= (select a k) (select b k)))`: the two arrays and the index.
pub open spec fn ext_conclusion_form(pool: PrimitivePool, t: TermId) -> Option<(TermId, TermId, TermId)> {
    match negated_eq(pool, t) {
        Some((l, r)) => match (binary_args(pool, l, Operator::Select), binary_args(pool, r, Operator::Select)) {
            (Some((a, k)), Some((b, k2))) => if k == k2 { Some((a, k, b)) } else { None },
            _ => None,
        },
        None => None,
    }
}

/// The arguments of the term at `t` if it applies `op` to `n` arguments.
fn args_n(pool: &PrimitivePool, t: TermId, op: Operator, n: usize) -> (res: Option<&Vec<TermId>>)
    requires
        t < pool.size(),
    ensures
        match res {
            Some(a) => args_of(*pool, t, op) == Some(a@) && a@.len() == n,
            None => !(args_of(*pool, t, op) matches Some(a) && a.len() == n),
        },
{
    match pool.op_args(t, op) {
        Some(a) => if a.len() == n { Some(a) } else { None },
        None => None,
    }
}

pub(crate) fn match_binary(pool: &PrimitivePool, t: TermId, op: Operator) -> (res: Option<(TermId, TermId)>)
    requires
        pool.wf(),
        t < pool.size(),
    ensures
        res == binary_args(*pool, t, op),
        res matches Some((x, y)) ==> x < t && y < t,
{
    proof {
        pool.lemma_children_below(t);
    }
    match args_n(pool, t, op, 2) {
        Some(a) => {
            assert(crate::ast::pool::children(pool.node(t)) == a@);
            assert(crate::ast::pool::children(pool.node(t))[0] == a@[0]);
            assert(crate::ast::pool::children(pool.node(t))[1] == a@[1]);
            Some((a[0], a[1]))
        },
        None => None,
    }
}

fn match_ternary(pool: &PrimitivePool, t: TermId, op: Operator) -> (res: Option<(TermId, TermId, TermId)>)
    requires
        pool.wf(),
        t < pool.size(),
    ensures
        res == ternary_args(*pool, t, op),
        res matches Some((x, y, z)) ==> x < t && y < t && z < t,
{
    proof {
        pool.lemma_children_below(t);
    }
    match args_n(pool, t, op, 3) {
        Some(a) => {
            assert(crate::ast::pool::children(pool.node(t)) == a@);
            assert(crate::ast::pool::children(pool.node(t))[0] == a@[0]);
            assert(crate::ast::pool::children(pool.node(t))[1] == a@[1]);
            assert(crate::ast::pool::children(pool.node(t))[2] == a@[2]);
            Some((a[0], a[1], a[2]))
        },
        None => None,
    }
}

pub(crate) fn match_unary(pool: &PrimitivePool, t: TermId, op: Operator) -> (res: Option<TermId>)
    requires
        pool.wf(),
        t < pool.size(),
    ensures
        res == unary_arg(*pool, t, op),
        res matches Some(x) ==> x < t,
{
    proof {
        pool.lemma_children_below(t);
    }
    match args_n(pool, t, op, 1) {
        Some(a) => {
            assert(crate::ast::pool::children(pool.node(t)) == a@);
            assert(crate::ast::pool::children(pool.node(t))[0] == a@[0]);
            Some(a[0])
        },
        None => None,
    }
}

pub(crate) fn match_negated_eq(pool: &PrimitivePool, t: TermId) -> (res: Option<(TermId, TermId)>)
    requires
        pool.wf(),
        t < pool.size(),
    ensures
        res == negated_eq(*pool, t),
        res matches Some((x, y)) ==> x < pool.size() && y < pool.size(),
{
    match match_unary(pool, t, Operator::Not) {
        Some(e) => match_binary(pool, e, Operator::Equals),
        None => None,
    }
}

fn match_select_of_store(pool: &PrimitivePool, t: TermId) -> (res: Option<(TermId, TermId, TermId, TermId)>)
    requires
        pool.wf(),
        t < pool.size(),
    ensures
        res == select_of_store(*pool, t),
{
    match match_binary(pool, t, Operator::Select) {
        Some((st, j)) => match match_ternary(pool, st, Operator::Store) {
            Some((a, i, e)) => Some((a, i, e, j)),
            None => None,
        },
        None => None,
    }
}

fn match_row_form(pool: &PrimitivePool, c: TermId) -> (res: Option<(TermId, TermId, TermId, TermId)>)
    requires
        pool.wf(),
        c < pool.size(),
    ensures
        res == row_form(*pool, c),
{
    match match_binary(pool, c, Operator::Equals) {
        Some((l, r)) => match match_select_of_store(pool, l) {
            Some((a, i, e, j)) => match match_binary(pool, r, Operator::Select) {
                Some((a2, j2)) => if a2 == a && j2 == j { Some((a, i, e, j)) } else { None },
                None => None,
            },
            None => None,
        },
        None => None,
    }
}

/// The pattern of the conclusion of `arrays_idx`.
pub const IDX_PATTERN: &'static str = "(= (select (store a i e) i) e)";
/// The pattern of the premises of `arrays_row` and `arrays_ext`.
pub const NEGATED_EQ_PATTERN: &'static str = "(not (= i j))";
/// The pattern of the conclusion of `arrays_row`.
pub const ROW_PATTERN: &'static str = "(= (select (store a i e) j) (select a j))";
/// The pattern of the premise of `arrays_row_contra`.
pub const ROW_CONTRA_PATTERN: &'static str = "(not (= (select (store a i e) j) (select a j)))";
/// The pattern of the conclusion of `arrays_row_contra`.
pub const EQ_PATTERN: &'static str = "(= i j)";
/// The pattern of the conclusion of `arrays_ext`.
pub const EXT_PATTERN: &'static str = "(not (= (select ac k) (select bc k)))";

/// The rule `arrays_idx`: `(= (select (store a i e) i) e)`.
pub fn idx(pool: &PrimitivePool, conclusion: &Vec<TermId>) -> (res: RuleResult)
    requires
        pool.wf(),
        all_below(conclusion@, pool.size()),
    ensures
        res == if conclusion@.len() != 1 {
            Err(CheckerError::WrongLengthOfClause(Range(Some(1), Some(1)), conclusion@.len() as usize))
        } else if idx_form(*pool, conclusion@[0]) {
            Ok(())
        } else {
            Err(CheckerError::TermOfWrongForm(IDX_PATTERN, conclusion@[0]))
        },
{
    assert_clause_len(conclusion, 1)?;
    let c = conclusion[0];
    let ok = match match_binary(pool, c, Operator::Equals) {
        Some((l, r)) => match match_select_of_store(pool, l) {
            Some((_, i, e, j)) => j == i && r == e,
            None => false,
        },
        None => false,
    };
    if ok {
        Ok(())
    } else {
        Err(CheckerError::TermOfWrongForm(IDX_PATTERN, c))
    }
}

/// What `arrays_row` gives for a step: from `(not (= i j))`, conclude
/// `(= (select (store a i e) j) (select a j))`.
pub open spec fn row_result(pool: PrimitivePool, conclusion: Seq<TermId>, premises: Seq<Vec<TermId>>) -> RuleResult {
    if premises.len() != 1 {
        Err(CheckerError::WrongNumberOfPremises(Range(Some(1), Some(1)), premises.len() as usize))
    } else if premises[0]@.len() != 1 {
        Err(CheckerError::BadPremise(0))
    } else {
        let p = premises[0]@[0];
        match negated_eq(pool, p) {
            None => Err(CheckerError::TermOfWrongForm(NEGATED_EQ_PATTERN, p)),
            Some((ip, jp)) => if conclusion.len() != 1 {
                Err(CheckerError::WrongLengthOfClause(Range(Some(1), Some(1)), conclusion.len() as usize))
            } else {
                match row_form(pool, conclusion[0]) {
                    None => Err(CheckerError::TermOfWrongForm(ROW_PATTERN, conclusion[0])),
                    Some((_, ic, _, jc)) => if ip != ic {
                        Err(CheckerError::TermEquality(ip, ic))
                    } else if jp != jc {
                        Err(CheckerError::TermEquality(jp, jc))
                    } else {
                        Ok(())
                    },
                }
            },
        }
    }
}

/// `arrays_row` accepts a step exactly when it has one premise, a clause `(not (= i j))`, and its
/// clause is `(= (select (store a i e) j) (select a j))` with the same `i` and `j`; when both have
/// the right forms but an index differs, it reports the first pair of indices that differ.
pub proof fn lemma_row_law(pool: PrimitivePool, conclusion: Seq<TermId>, premises: Seq<Vec<TermId>>)
    ensures
        row_result(pool, conclusion, premises) is Ok <==> {
            &&& premises.len() == 1
            &&& premises[0]@.len() == 1
            &&& conclusion.len() == 1
            &&& exists|a: TermId, i: TermId, e: TermId, j: TermId|
                #[trigger] negated_eq(pool, premises[0]@[0]) == Some((i, j))
                && #[trigger] row_form(pool, conclusion[0]) == Some((a, i, e, j))
        },
        row_result(pool, conclusion, premises) matches Err(CheckerError::TermEquality(x, y)) ==> x != y
            && exists|ip: TermId, jp: TermId, a: TermId, ic: TermId, e: TermId, jc: TermId|
                #[trigger] negated_eq(pool, premises[0]@[0]) == Some((ip, jp))
                && #[trigger] row_form(pool, conclusion[0]) == Some((a, ic, e, jc))
                && (if ip != ic { x == ip && y == ic } else { x == jp && y == jc }),
{
    if premises.len() == 1 && premises[0]@.len() == 1 && conclusion.len() == 1 {
        if let (Some((ip, jp)), Some((a, ic, e, jc))) = (negated_eq(pool, premises[0]@[0]), row_form(pool, conclusion[0])) {
            assert(negated_eq(pool, premises[0]@[0]) == Some((ip, jp)));
            assert(row_form(pool, conclusion[0]) == Some((a, ic, e, jc)));
        }
    }
}

/// `negated_eq` reads exactly the terms `(not (= i j))`.
pub proof fn lemma_negated_eq_law(pool: PrimitivePool, t: TermId, i: TermId, j: TermId)
    ensures
        negated_eq(pool, t) == Some((i, j)) <==> exists|e: TermId|
            args_of(pool, t, Operator::Not) == Some(seq![e]) && #[trigger] args_of(pool, e, Operator::Equals) == Some(seq![i, j]),
{
    if negated_eq(pool, t) == Some((i, j)) {
        let e = unary_arg(pool, t, Operator::Not)->0;
        assert(args_of(pool, t, Operator::Not)->0 =~= seq![e]);
        assert(args_of(pool, e, Operator::Equals)->0 =~= seq![i, j]);
    }
}

/// `row_form` reads exactly the terms `(= (select (store a i e) j) (select a j))`.
pub proof fn lemma_row_form_law(pool: PrimitivePool, c: TermId, a: TermId, i: TermId, e: TermId, j: TermId)
    ensures
        row_form(pool, c) == Some((a, i, e, j)) <==> exists|l: TermId, r: TermId, st: TermId|
            #![trigger args_of(pool, l, Operator::Select), args_of(pool, st, Operator::Store), args_of(pool, r, Operator::Select)]
            args_of(pool, c, Operator::Equals) == Some(seq![l, r])
            && args_of(pool, l, Operator::Select) == Some(seq![st, j])
            && args_of(pool, st, Operator::Store) == Some(seq![a, i, e])
            && args_of(pool, r, Operator::Select) == Some(seq![a, j]),
{
    if row_form(pool, c) == Some((a, i, e, j)) {
        let (l, r) = binary_args(pool, c, Operator::Equals)->0;
        let (st, j1) = binary_args(pool, l, Operator::Select)->0;
        assert(args_of(pool, c, Operator::Equals)->0 =~= seq![l, r]);
        assert(args_of(pool, l, Operator::Select)->0 =~= seq![st, j]);
        assert(args_of(pool, st, Operator::Store)->0 =~= seq![a, i, e]);
        assert(args_of(pool, r, Operator::Select)->0 =~= seq![a, j]);
    }
}

/// `idx_form` reads exactly the terms `(= (select (store a i e) i) e)`: an equality whose left
/// side reads, at index `i`, an array stored with `e` at that same `i`, and whose right side is
/// `e`.
pub proof fn lemma_idx_form_law(pool: PrimitivePool, c: TermId)
    ensures
        idx_form(pool, c) <==> exists|l: TermId, st: TermId|
            #![trigger args_of(pool, l, Operator::Select), args_of(pool, st, Operator::Store)]
            args_of(pool, c, Operator::Equals) is Some && args_of(pool, l, Operator::Select) is Some
            && args_of(pool, st, Operator::Store) is Some && {
                let x = args_of(pool, c, Operator::Equals)->0;
                let y = args_of(pool, l, Operator::Select)->0;
                let z = args_of(pool, st, Operator::Store)->0;
                &&& x.len() == 2 && y.len() == 2 && z.len() == 3
                &&& x[0] == l && y[0] == st
                &&& y[1] == z[1] && x[1] == z[2]
            },
{
    if idx_form(pool, c) {
        let (l, r) = binary_args(pool, c, Operator::Equals)->0;
        let (st, j) = binary_args(pool, l, Operator::Select)->0;
        assert(args_of(pool, l, Operator::Select) is Some);
        assert(args_of(pool, st, Operator::Store) is Some);
    }
}

/// The premises are clauses of terms of the pool.
pub open spec fn premises_in(pool: PrimitivePool, premises: Seq<Vec<TermId>>) -> bool {
    forall|k: int| 0 <= k < premises.len() ==> all_below(#[trigger] premises[k]@, pool.size())
}

/// The rule `arrays_row`: from `(not (= i j))`, conclude
/// `(= (select (store a i e) j) (select a j))`.
pub fn row(pool: &PrimitivePool, conclusion: &Vec<TermId>, premises: &Vec<Vec<TermId>>) -> (res: RuleResult)
    requires
        pool.wf(),
        all_below(conclusion@, pool.size()),
        premises_in(*pool, premises@),
    ensures
        res == row_result(*pool, conclusion@, premises@),
{
    assert_num_premises(premises, 1)?;
    let premise = get_premise_term(premises, 0)?;
    assert(all_below(premises@[0]@, pool.size()));
    let (ip, jp) = match match_negated_eq(pool, premise) {
        Some(x) => x,
        None => {
            return Err(CheckerError::TermOfWrongForm(NEGATED_EQ_PATTERN, premise));
        },
    };
    assert_clause_len(conclusion, 1)?;
    let (_, ic, _, jc) = match match_row_form(pool, conclusion[0]) {
        Some(x) => x,
        None => {
            return Err(CheckerError::TermOfWrongForm(ROW_PATTERN, conclusion[0]));
        },
    };
    assert_same_term(ip, ic)?;
    assert_same_term(jp, jc)?;
    Ok(())
}

/// What `arrays_row_contra` gives for a step: from
/// `(not (= (select (store a i e) j) (select a j)))`, conclude `(= i j)`, in either order.
pub open spec fn row_contra_result(pool: PrimitivePool, conclusion: Seq<TermId>, premises: Seq<Vec<TermId>>) -> RuleResult {
    if premises.len() != 1 {
        Err(CheckerError::WrongNumberOfPremises(Range(Some(1), Some(1)), premises.len() as usize))
    } else if premises[0]@.len() != 1 {
        Err(CheckerError::BadPremise(0))
    } else {
        let p = premises[0]@[0];
        match row_contra_premise_form(pool, p) {
            None => Err(CheckerError::TermOfWrongForm(ROW_CONTRA_PATTERN, p)),
            Some((_, ip, _, jp)) => if conclusion.len() != 1 {
                Err(CheckerError::WrongLengthOfClause(Range(Some(1), Some(1)), conclusion.len() as usize))
            } else {
                match binary_args(pool, conclusion[0], Operator::Equals) {
                    None => Err(CheckerError::TermOfWrongForm(EQ_PATTERN, conclusion[0])),
                    Some((ic, jc)) => if ip != ic {
                        if ip != jc {
                            Err(CheckerError::TermEquality(ip, jc))
                        } else if jp != ic {
                            Err(CheckerError::TermEquality(jp, ic))
                        } else {
                            Ok(())
                        }
                    } else if jp != jc {
                        Err(CheckerError::TermEquality(jp, jc))
                    } else {
                        Ok(())
                    },
                }
            },
        }
    }
}

/// Whether `c` is `(= i j)` or `(= j i)` for the indices `i` and `j` of a premise
/// `(not (= (select (store a i e) j) (select a j)))` at `p`.
pub open spec fn row_contra_matches(pool: PrimitivePool, p: TermId, c: TermId) -> bool {
    match (row_contra_premise_form(pool, p), binary_args(pool, c, Operator::Equals)) {
        (Some((_, i, _, j)), Some((x, y))) => (x == i && y == j) || (x == j && y == i),
        _ => false,
    }
}

/// `arrays_row_contra` accepts a step exactly when it has one premise,
/// `(not (= (select (store a i e) j) (select a j)))`, and its clause is `(= i j)` or `(= j i)`;
/// when it rejects one on a pair of terms, they are different terms.
pub proof fn lemma_row_contra_law(pool: PrimitivePool, conclusion: Seq<TermId>, premises: Seq<Vec<TermId>>)
    ensures
        row_contra_result(pool, conclusion, premises) is Ok <==> {
            &&& premises.len() == 1
            &&& premises[0]@.len() == 1
            &&& conclusion.len() == 1
            &&& row_contra_matches(pool, premises[0]@[0], conclusion[0])
        },
        row_contra_result(pool, conclusion, premises) matches Err(CheckerError::TermEquality(x, y)) ==> x != y,
{
}

/// The rule `arrays_row_contra`: from `(not (= (select (store a i e) j) (select a j)))`,
/// conclude `(= i j)`, in either order.
pub fn row_contra(pool: &PrimitivePool, conclusion: &Vec<TermId>, premises: &Vec<Vec<TermId>>) -> (res: RuleResult)
    requires
        pool.wf(),
        all_below(conclusion@, pool.size()),
        premises_in(*pool, premises@),
    ensures
        res == row_contra_result(*pool, conclusion@, premises@),
{
    assert_num_premises(premises, 1)?;
    let premise = get_premise_term(premises, 0)?;
    assert(all_below(premises@[0]@, pool.size()));
    let (_, ip, _, jp) = match match_unary(pool, premise, Operator::Not) {
        Some(e) => match match_row_form(pool, e) {
            Some(x) => x,
            None => {
                return Err(CheckerError::TermOfWrongForm(ROW_CONTRA_PATTERN, premise));
            },
        },
        None => {
            return Err(CheckerError::TermOfWrongForm(ROW_CONTRA_PATTERN, premise));
        },
    };
    assert_clause_len(conclusion, 1)?;
    let (ic, jc) = match match_binary(pool, conclusion[0], Operator::Equals) {
        Some(x) => x,
        None => {
            return Err(CheckerError::TermOfWrongForm(EQ_PATTERN, conclusion[0]));
        },
    };
    if ip != ic {
        assert_same_term(ip, jc)?;
        assert_same_term(jp, ic)
    } else {
        assert_same_term(jp, jc)
    }
}


/// Whether the term at `x` is a variable named `name` of a sort equal to `s`.
pub open spec fn is_var(pool: PrimitivePool, x: TermId, name: Seq<char>, s: Sort) -> bool {
    &&& x < pool.size()
    &&& pool.node(x) matches Term::Var(n, t) && n@ == name && sort_eq(t, s)
}

/// Whether `body` is `(or (= a b) (not (= (select a x) (select b x))))`, with `x` a variable
/// named `x` of sort `s`.
pub open spec fn is_ext_body(pool: PrimitivePool, body: TermId, a: TermId, b: TermId, s: Sort) -> bool {
    match binary_args(pool, body, Operator::Or) {
        Some((p, q)) => binary_args(pool, p, Operator::Equals) == Some((a, b)) && match negated_eq(pool, q) {
            Some((l, r)) => match (binary_args(pool, l, Operator::Select), binary_args(pool, r, Operator::Select)) {
                (Some((a2, x)), Some((b2, x2))) => a2 == a && b2 == b && x == x2 && is_var(pool, x, "x"@, s),
                _ => false,
            },
            None => false,
        },
        None => false,
    }
}

/// Whether `ch` is the Skolem term `(choice ((x s)) (or (= a b) (not (= (select a x) (select b x)))))`.
pub open spec fn is_ext_skolem(pool: PrimitivePool, ch: TermId, a: TermId, b: TermId, s: Sort) -> bool {
    &&& ch < pool.size()
    &&& pool.node(ch) matches Term::Binder(q, vs, body) && q == Binder::Choice && vs@.len() == 1
        && vs@[0].0@ == "x"@ && sort_eq(vs@[0].1, s) && is_ext_body(pool, body, a, b, s)
}

/// Whether `e` is `(not (= (select a ch) (select b ch)))`, with `ch` the Skolem term of `a`, `b`
/// and the index sort `s`.
pub open spec fn is_ext_expected(pool: PrimitivePool, e: TermId, a: TermId, b: TermId, s: Sort) -> bool {
    match negated_eq(pool, e) {
        Some((l, r)) => match (binary_args(pool, l, Operator::Select), binary_args(pool, r, Operator::Select)) {
            (Some((a1, ch)), Some((b1, ch2))) => a1 == a && b1 == b && ch == ch2 && is_ext_skolem(pool, ch, a, b, s),
            _ => false,
        },
        None => false,
    }
}

/// The checks of `arrays_ext` before its Skolem term is built: the arrays `a` and `b` of the
/// premise `(not (= a b))`, if the conclusion reads them at one index, or the first error.
pub open spec fn ext_precheck(pool: PrimitivePool, conclusion: Seq<TermId>, premises: Seq<Vec<TermId>>) -> Result<(TermId, TermId), CheckerError> {
    if premises.len() != 1 {
        Err(CheckerError::WrongNumberOfPremises(Range(Some(1), Some(1)), premises.len() as usize))
    } else if premises[0]@.len() != 1 {
        Err(CheckerError::BadPremise(0))
    } else {
        let p = premises[0]@[0];
        match negated_eq(pool, p) {
            None => Err(CheckerError::TermOfWrongForm(NEGATED_EQ_PATTERN, p)),
            Some((ap, bp)) => match ext_conclusion_form(pool, conclusion[0]) {
                None => Err(CheckerError::TermOfWrongForm(EXT_PATTERN, conclusion[0])),
                Some((ac, _, bc)) => if ap != ac {
                    Err(CheckerError::TermEquality(ap, ac))
                } else if bp != bc {
                    Err(CheckerError::TermEquality(bp, bc))
                } else {
                    Ok((ap, bp))
                },
            },
        }
    }
}

/// The message given when the sort of an array term is not an array sort.
pub open spec fn no_array_sort_message(a: TermId) -> Seq<char> {
    "Could not get Array sort from term "@ + decimal(a as nat)
}

/// The rule `arrays_ext`: from `(not (= a b))`, conclude
/// `(not (= (select a k) (select b k)))` where `k` is the Skolem term
/// `(choice ((x I)) (or (= a b) (not (= (select a x) (select b x)))))`, `I` being the index sort of
/// the arrays. The conclusion is compared with the expected term up to the order of the sides
/// of equalities; the terms built for the comparison are added to the pool.
pub fn ext(pool: &mut PrimitivePool, conclusion: &Vec<TermId>, premises: &Vec<Vec<TermId>>) -> (res: RuleResult)
    requires
        old(pool).wf(),
        conclusion@.len() >= 1,
        all_below(conclusion@, old(pool).size()),
        premises_in(*old(pool), premises@),
    ensures
        final(pool).wf(),
        extends(*final(pool), *old(pool)),
        ext_precheck(*old(pool), conclusion@, premises@) is Err ==> res == Err::<(), CheckerError>(ext_precheck(*old(pool), conclusion@, premises@)->Err_0),
        ext_precheck(*old(pool), conclusion@, premises@) matches Ok((a, b)) ==> match term_sort(*old(pool), a) {
            Some(Sort::Array(s, _)) => exists|e: TermId| #[trigger] is_ext_expected(*final(pool), e, a, b, *s) && res == (
                if polyeq(*final(pool), conclusion@[0], e) {
                    Ok(())
                } else {
                    Err(CheckerError::ExpectedTermToBe(conclusion@[0], e))
                }),
            _ => res matches Err(CheckerError::Explanation(m)) && m@ == no_array_sort_message(a),
        },
{
    let ghost p0 = *pool;
    assert_num_premises(premises, 1)?;
    let premise = get_premise_term(premises, 0)?;
    assert(all_below(premises@[0]@, pool.size()));
    let (ap, bp) = match match_negated_eq(pool, premise) {
        Some(x) => x,
        None => {
            return Err(CheckerError::TermOfWrongForm(NEGATED_EQ_PATTERN, premise));
        },
    };
    let c = conclusion[0];
    let (ac, bc) = match match_negated_eq(pool, c) {
        Some((l, r)) => match (match_binary(pool, l, Operator::Select), match_binary(pool, r, Operator::Select)) {
            (Some((a, k)), Some((b, k2))) => if k == k2 {
                (a, b)
            } else {
                return Err(CheckerError::TermOfWrongForm(EXT_PATTERN, c));
            },
            _ => {
                return Err(CheckerError::TermOfWrongForm(EXT_PATTERN, c));
            },
        },
        None => {
            return Err(CheckerError::TermOfWrongForm(EXT_PATTERN, c));
        },
    };
    assert_same_term(ap, ac)?;
    assert_same_term(bp, bc)?;
    let index_sort = match pool.sort(ap) {
        Some(Sort::Array(i, _)) => *i,
        _ => {
            return Err(CheckerError::Explanation(numbered("Could not get Array sort from term ", ap)));
        },
    };
    let ghost s = match term_sort(p0, ap) {
        Some(Sort::Array(i, _)) => *i,
        _ => index_sort,
    };
    assert(sort_eq(index_sort, s));
    let var_sort = index_sort.copy();
    proof {
        crate::ast::sort::lemma_sort_eq_trans(var_sort, index_sort, s);
    }
    let ghost vs_ghost = var_sort;
    let x = pool.add(Term::new_var("x", var_sort));
    let ghost p1 = *pool;
    proof {
        if x < p0.size() {
            assert(pool.node(x) == p0.node(x));
            if let Term::Var(_, s2) = p0.node(x) {
                crate::ast::sort::lemma_sort_eq_trans(s2, vs_ghost, s);
            }
        }
        assert(is_var(p1, x, "x"@, s));
    }
    let eq_ab = pool.add_op(Operator::Equals, vec![ap, bp]);
    let ghost p2 = *pool;
    let sel_ax = pool.add_op(Operator::Select, vec![ap, x]);
    let ghost p3 = *pool;
    let sel_bx = pool.add_op(Operator::Select, vec![bp, x]);
    let ghost p4 = *pool;
    let eq_sel = pool.add_op(Operator::Equals, vec![sel_ax, sel_bx]);
    let ghost p5 = *pool;
    let not_eq = pool.add_op(Operator::Not, vec![eq_sel]);
    let ghost p6 = *pool;
    let body = pool.add_op(Operator::Or, vec![eq_ab, not_eq]);
    let ghost p7 = *pool;
    let ghost is_ghost = index_sort;
    let ghost p7b = *pool;
    let choice = pool.add(Term::Binder(Binder::Choice, vec![("x".to_owned(), index_sort)], body));
    let ghost p8 = *pool;
    proof {
        if choice < p7b.size() {
            assert(p8.node(choice) == p7b.node(choice));
            if let Term::Binder(_, vs2, _) = p7b.node(choice) {
                assert(sort_eq(vs2@[0].1, is_ghost));
                crate::ast::sort::lemma_sort_eq_trans(vs2@[0].1, is_ghost, s);
            }
        }
        assert(is_ext_skolem(p8, choice, ap, bp, s) || !is_ext_body(p8, body, ap, bp, s));
    }
    let sel_a = pool.add_op(Operator::Select, vec![ap, choice]);
    let ghost p9 = *pool;
    let sel_b = pool.add_op(Operator::Select, vec![bp, choice]);
    let ghost p10 = *pool;
    let eq2 = pool.add_op(Operator::Equals, vec![sel_a, sel_b]);
    let ghost p11 = *pool;
    let expected = pool.add_op(Operator::Not, vec![eq2]);
    let ghost p12 = *pool;
    proof {
        lemma_extends_trans(p12, p11, p10);
        lemma_extends_trans(p12, p10, p9);
        lemma_extends_trans(p12, p9, p8);
        lemma_extends_trans(p12, p8, p7);
        lemma_extends_trans(p12, p7, p6);
        lemma_extends_trans(p12, p6, p5);
        lemma_extends_trans(p12, p5, p4);
        lemma_extends_trans(p12, p4, p3);
        lemma_extends_trans(p12, p3, p2);
        lemma_extends_trans(p12, p2, p1);
        lemma_extends_trans(p12, p1, p0);
        crate::ast::pool::lemma_extends_args(p12, p2, eq_ab, Operator::Equals);
        crate::ast::pool::lemma_extends_args(p12, p3, sel_ax, Operator::Select);
        crate::ast::pool::lemma_extends_args(p12, p4, sel_bx, Operator::Select);
        crate::ast::pool::lemma_extends_args(p12, p5, eq_sel, Operator::Equals);
        crate::ast::pool::lemma_extends_args(p12, p6, not_eq, Operator::Not);
        crate::ast::pool::lemma_extends_args(p12, p7, body, Operator::Or);
        crate::ast::pool::lemma_extends_args(p12, p9, sel_a, Operator::Select);
        crate::ast::pool::lemma_extends_args(p12, p10, sel_b, Operator::Select);
        crate::ast::pool::lemma_extends_args(p12, p11, eq2, Operator::Equals);
        assert(p12.node(x) == p1.node(x));
        assert(is_var(p12, x, "x"@, s));
        assert(is_ext_body(p12, body, ap, bp, s));
        assert(p12.node(choice) == p8.node(choice));
        assert(is_ext_skolem(p12, choice, ap, bp, s));
        assert(is_ext_expected(p12, expected, ap, bp, s));
    }
    assert_polyeq(pool, c, expected)
}

} // verus!
