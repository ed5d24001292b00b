use carcara::ast::pool::PrimitivePool;
use carcara::ast::{Binder, Operator, Sort, Term, TermId};
use carcara::checker::rules::arrays;

fn array_sort() -> Sort {
    Sort::Array(Box::new(Sort::Int), Box::new(Sort::Int))
}

fn var(pool: &mut PrimitivePool, name: &str, sort: Sort) -> TermId {
    pool.add(Term::new_var(name, sort))
}

fn num(pool: &mut PrimitivePool, i: i64) -> TermId {
    pool.add(Term::new_int(i))
}

fn op(pool: &mut PrimitivePool, op: Operator, args: Vec<TermId>) -> TermId {
    pool.add(Term::Op(op, args))
}

fn select(pool: &mut PrimitivePool, a: TermId, i: TermId) -> TermId {
    op(pool, Operator::Select, vec![a, i])
}

fn store(pool: &mut PrimitivePool, a: TermId, i: TermId, e: TermId) -> TermId {
    op(pool, Operator::Store, vec![a, i, e])
}

fn eq(pool: &mut PrimitivePool, a: TermId, b: TermId) -> TermId {
    op(pool, Operator::Equals, vec![a, b])
}

fn not(pool: &mut PrimitivePool, a: TermId) -> TermId {
    op(pool, Operator::Not, vec![a])
}

#[test]
fn idx() {
    let mut pool = PrimitivePool::new();
    let a = var(&mut pool, "A", array_sort());
    let x = var(&mut pool, "x", Sort::Int);
    let y = var(&mut pool, "y", Sort::Int);
    let one = num(&mut pool, 1);
    let two = num(&mut pool, 2);

    // Simple working examples
    let st = store(&mut pool, a, one, x);
    let sel = select(&mut pool, st, one);
    let c = eq(&mut pool, sel, x);
    assert!(arrays::idx(&pool, &vec![c]).is_ok());

    let st = store(&mut pool, a, x, two);
    let sel = select(&mut pool, st, x);
    let c = eq(&mut pool, sel, two);
    assert!(arrays::idx(&pool, &vec![c]).is_ok());

    // Indices are different
    let st = store(&mut pool, a, one, x);
    let sel = select(&mut pool, st, two);
    let c = eq(&mut pool, sel, x);
    assert!(arrays::idx(&pool, &vec![c]).is_err());

    // Elements are different
    let sel = select(&mut pool, st, one);
    let c = eq(&mut pool, sel, y);
    assert!(arrays::idx(&pool, &vec![c]).is_err());
}

/// `(= (select (store a i x) j) (select b k))`
fn row_conclusion(pool: &mut PrimitivePool, a: TermId, i: TermId, x: TermId, j: TermId, b: TermId, k: TermId) -> TermId {
    let st = store(pool, a, i, x);
    let l = select(pool, st, j);
    let r = select(pool, b, k);
    eq(pool, l, r)
}

#[test]
fn row() {
    let mut pool = PrimitivePool::new();
    let a = var(&mut pool, "A", array_sort());
    let b = var(&mut pool, "B", array_sort());
    let x = var(&mut pool, "x", Sort::Int);
    let i = var(&mut pool, "i", Sort::Int);
    let j = var(&mut pool, "j", Sort::Int);
    let k = var(&mut pool, "k", Sort::Int);
    let ij = eq(&mut pool, i, j);
    let h1 = not(&mut pool, ij);

    // Simple working examples
    let c = row_conclusion(&mut pool, a, i, x, j, a, j);
    assert!(arrays::row(&pool, &vec![c], &vec![vec![h1]]).is_ok());

    // Indices in the conclusion are different
    let c = row_conclusion(&mut pool, a, i, x, j, a, k);
    assert!(arrays::row(&pool, &vec![c], &vec![vec![h1]]).is_err());

    // Arrays in the conclusion are different
    let c = row_conclusion(&mut pool, a, i, x, j, b, j);
    assert!(arrays::row(&pool, &vec![c], &vec![vec![h1]]).is_err());

    // Indices are not the same as in the premise
    let ik = eq(&mut pool, i, k);
    let h1 = not(&mut pool, ik);
    let c = row_conclusion(&mut pool, a, i, x, j, a, j);
    assert!(arrays::row(&pool, &vec![c], &vec![vec![h1]]).is_err());
}

#[test]
fn row_contra() {
    let mut pool = PrimitivePool::new();
    let a = var(&mut pool, "A", array_sort());
    let b = var(&mut pool, "B", array_sort());
    let x = var(&mut pool, "x", Sort::Int);
    let i = var(&mut pool, "i", Sort::Int);
    let j = var(&mut pool, "j", Sort::Int);
    let k = var(&mut pool, "k", Sort::Int);
    let r = row_conclusion(&mut pool, a, i, x, j, a, j);
    let h1 = not(&mut pool, r);
    let ij = eq(&mut pool, i, j);
    let ji = eq(&mut pool, j, i);
    let ik = eq(&mut pool, i, k);

    // Simple working examples
    assert!(arrays::row_contra(&pool, &vec![ij], &vec![vec![h1]]).is_ok());
    // Conclusion may be flipped
    assert!(arrays::row_contra(&pool, &vec![ji], &vec![vec![h1]]).is_ok());
    // Conclusion has the wrong index
    assert!(arrays::row_contra(&pool, &vec![ik], &vec![vec![h1]]).is_err());
    // Indices in the premise are different
    let r = row_conclusion(&mut pool, a, i, x, j, a, k);
    let h1 = not(&mut pool, r);
    assert!(arrays::row_contra(&pool, &vec![ij], &vec![vec![h1]]).is_err());
    // Arrays in the premise are different
    let r = row_conclusion(&mut pool, a, i, x, j, b, j);
    let h1 = not(&mut pool, r);
    assert!(arrays::row_contra(&pool, &vec![ij], &vec![vec![h1]]).is_err());
}

/// `(choice ((v Int)) (or (= a b) (not (= (select a v) (select b v)))))`
fn skolem(pool: &mut PrimitivePool, a: TermId, b: TermId, v: &str) -> TermId {
    let vt = var(pool, v, Sort::Int);
    let ab = eq(pool, a, b);
    let sa = select(pool, a, vt);
    let sb = select(pool, b, vt);
    let e = eq(pool, sa, sb);
    let ne = not(pool, e);
    let body = op(pool, Operator::Or, vec![ab, ne]);
    pool.add(Term::Binder(Binder::Choice, vec![(v.to_string(), Sort::Int)], body))
}

/// `(not (= (select a i) (select b j)))`
fn ext_conclusion(pool: &mut PrimitivePool, a: TermId, i: TermId, b: TermId, j: TermId) -> TermId {
    let sa = select(pool, a, i);
    let sb = select(pool, b, j);
    let e = eq(pool, sa, sb);
    not(pool, e)
}

#[test]
fn ext() {
    let mut pool = PrimitivePool::new();
    let a = var(&mut pool, "A", array_sort());
    let b = var(&mut pool, "B", array_sort());
    let c = var(&mut pool, "C", array_sort());
    let ab = eq(&mut pool, a, b);
    let h1 = not(&mut pool, ab);

    // Simple working examples
    let ch = skolem(&mut pool, a, b, "x");
    let concl = ext_conclusion(&mut pool, a, ch, b, ch);
    assert!(arrays::ext(&mut pool, &vec![concl], &vec![vec![h1]]).is_ok());

    // Arrays are not the same as in the premise
    let concl = ext_conclusion(&mut pool, a, ch, c, ch);
    assert!(arrays::ext(&mut pool, &vec![concl], &vec![vec![h1]]).is_err());

    // Indices in the conclusion are different
    let ch2 = skolem(&mut pool, a, b, "y");
    let concl = ext_conclusion(&mut pool, a, ch, b, ch2);
    assert!(arrays::ext(&mut pool, &vec![concl], &vec![vec![h1]]).is_err());

    // Index is not the skolem term
    let zero = num(&mut pool, 0);
    let concl = ext_conclusion(&mut pool, a, zero, b, zero);
    assert!(arrays::ext(&mut pool, &vec![concl], &vec![vec![h1]]).is_err());
}
