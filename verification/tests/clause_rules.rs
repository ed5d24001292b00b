use carcara::ast::pool::PrimitivePool;
use carcara::ast::{Operator, Sort, Term, TermId};
use carcara::checker::rules::extras;
use carcara::error::CheckerError;

fn atom_sort() -> Sort {
    Sort::Atom("T".to_string(), vec![])
}

fn var(pool: &mut PrimitivePool, name: &str, sort: Sort) -> TermId {
    pool.add(Term::new_var(name, sort))
}

fn eq(pool: &mut PrimitivePool, a: TermId, b: TermId) -> TermId {
    pool.add(Term::Op(Operator::Equals, vec![a, b]))
}

fn not(pool: &mut PrimitivePool, a: TermId) -> TermId {
    pool.add(Term::Op(Operator::Not, vec![a]))
}

#[test]
fn symm() {
    let mut pool = PrimitivePool::new();
    let a = var(&mut pool, "a", atom_sort());
    let b = var(&mut pool, "b", atom_sort());
    let ab = eq(&mut pool, a, b);
    let ba = eq(&mut pool, b, a);
    // Simple working examples
    assert!(extras::symm(&pool, &vec![ba], &vec![vec![ab]]).is_ok());
    // Failing examples
    let nab = not(&mut pool, ab);
    let nba = not(&mut pool, ba);
    assert!(extras::symm(&pool, &vec![nba], &vec![vec![nab]]).is_err());
}

#[test]
fn not_symm() {
    let mut pool = PrimitivePool::new();
    let a = var(&mut pool, "a", atom_sort());
    let b = var(&mut pool, "b", atom_sort());
    let ab = eq(&mut pool, a, b);
    let ba = eq(&mut pool, b, a);
    let nab = not(&mut pool, ab);
    let nba = not(&mut pool, ba);
    // Simple working examples
    assert!(extras::not_symm(&pool, &vec![nba], &vec![vec![nab]]).is_ok());
    // Failing examples
    assert!(extras::not_symm(&pool, &vec![ba], &vec![vec![ab]]).is_err());
}

#[test]
fn eq_symmetric() {
    let mut pool = PrimitivePool::new();
    let a = var(&mut pool, "a", atom_sort());
    let b = var(&mut pool, "b", atom_sort());
    let ab = eq(&mut pool, a, b);
    let ba = eq(&mut pool, b, a);
    let aa = eq(&mut pool, a, a);
    // Simple working examples
    let c = eq(&mut pool, ba, ab);
    assert!(extras::eq_symmetric(&pool, &vec![c]).is_ok());
    let c = eq(&mut pool, aa, aa);
    assert!(extras::eq_symmetric(&pool, &vec![c]).is_ok());
    // Failing examples
    let c = eq(&mut pool, ab, ab);
    assert!(extras::eq_symmetric(&pool, &vec![c]).is_err());
    let nab = not(&mut pool, ab);
    let nba = not(&mut pool, ba);
    let c = eq(&mut pool, nab, nba);
    assert!(extras::eq_symmetric(&pool, &vec![c]).is_err());
}

fn bools(pool: &mut PrimitivePool, names: &[&str]) -> Vec<TermId> {
    names.iter().map(|n| var(pool, n, Sort::Bool)).collect()
}

#[test]
fn reordering() {
    let mut pool = PrimitivePool::new();
    let v = bools(&mut pool, &["p", "q", "r", "s"]);
    let (p, q, r, s) = (v[0], v[1], v[2], v[3]);
    // Simple working examples
    assert!(extras::reordering(&vec![r, q, p, s], &vec![vec![p, q, r, s]]).is_ok());
    assert!(extras::reordering(&vec![r, q, p, p, s, q], &vec![vec![p, q, q, p, r, s]]).is_ok());
    assert!(extras::reordering(&vec![], &vec![vec![]]).is_ok());
}

#[test]
fn reordering_reports_the_first_missing_or_extra_term() {
    let mut pool = PrimitivePool::new();
    let v = bools(&mut pool, &["p", "q", "r"]);
    let (p, q, r) = (v[0], v[1], v[2]);
    assert_eq!(extras::reordering(&vec![p, p], &vec![vec![p, q]]), Err(CheckerError::ContractionMissingTerm(q)));
    assert_eq!(extras::reordering(&vec![p, q, r], &vec![vec![p, q, q]]), Err(CheckerError::ContractionExtraTerm(r)));
    assert!(extras::reordering(&vec![p], &vec![vec![p, q]]).is_err());
    assert!(extras::reordering(&vec![p], &vec![]).is_err());
}

#[test]
fn weakening() {
    let mut pool = PrimitivePool::new();
    let v = bools(&mut pool, &["a", "b", "c"]);
    let (a, b, c) = (v[0], v[1], v[2]);
    // Simple working examples
    assert!(extras::weakening(&vec![a, b, c], &vec![vec![a, b]]).is_ok());
    assert!(extras::weakening(&vec![a, b], &vec![vec![]]).is_ok());
    // Failing examples
    assert!(extras::weakening(&vec![a, c, b], &vec![vec![a, b]]).is_err());
    assert!(extras::weakening(&vec![a, b], &vec![vec![a, b, c]]).is_err());
}

#[test]
fn weakening_reports_the_first_mismatch() {
    let mut pool = PrimitivePool::new();
    let v = bools(&mut pool, &["a", "b", "c"]);
    let (a, b, c) = (v[0], v[1], v[2]);
    assert_eq!(extras::weakening(&vec![a, c, b], &vec![vec![a, b]]), Err(CheckerError::TermEquality(b, c)));
}
