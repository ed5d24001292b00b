use carcara::ast::pool::PrimitivePool;
use carcara::ast::{Operator, Sort, Term, TermId};
use carcara::cc::{CongruenceClosure, EqProof, EqProofRule};
use carcara::error::CheckerError;

fn t_sort() -> Sort {
    Sort::Atom("T".to_string(), vec![])
}

/// The sort of a declared symbol: constants `a` to `e` of sort `T`, functions `f`, `g` from `T`
/// to `T`, `h` from `T T` to `T`, and the predicate `p` from `T` to `Bool`.
fn symbol_sort(name: &str) -> Sort {
    match name {
        "f" | "g" => Sort::Function(vec![t_sort(), t_sort()]),
        "h" => Sort::Function(vec![t_sort(), t_sort(), t_sort()]),
        "p" => Sort::Function(vec![t_sort(), Sort::Bool]),
        _ => t_sort(),
    }
}

fn tokens(text: &str) -> Vec<String> {
    text.replace('(', " ( ").replace(')', " ) ").split_whitespace().map(|s| s.to_string()).collect()
}

fn parse_at(pool: &mut PrimitivePool, toks: &[String], pos: &mut usize) -> TermId {
    let tok = toks[*pos].clone();
    *pos += 1;
    if tok != "(" {
        return pool.add(Term::new_var(&tok, symbol_sort(&tok)));
    }
    let head = toks[*pos].clone();
    *pos += 1;
    let mut args = Vec::new();
    while toks[*pos] != ")" {
        args.push(parse_at(pool, toks, pos));
    }
    *pos += 1;
    match head.as_str() {
        "=" => pool.add(Term::Op(Operator::Equals, args)),
        "and" => pool.add(Term::Op(Operator::And, args)),
        "not" => pool.add(Term::Op(Operator::Not, args)),
        _ => {
            let f = pool.add(Term::new_var(&head, symbol_sort(&head)));
            pool.add(Term::App(f, args))
        }
    }
}

/// Parses a term made of the declared symbols, such as `(h (g a) c)`.
fn parse(pool: &mut PrimitivePool, text: &str) -> TermId {
    let toks = tokens(text);
    let mut pos = 0;
    parse_at(pool, &toks, &mut pos)
}

/// Adds the premise equalities, then checks whether the goal terms are congruent; when they are,
/// also checks that the explanation is well-formed.
fn run(
    pool: &mut PrimitivePool,
    cc: &mut CongruenceClosure,
    premises: &[(&str, &str)],
    goal: (&str, &str),
) -> bool {
    for (i, (lhs, rhs)) in premises.iter().enumerate() {
        let (l, r) = (parse(pool, lhs), parse(pool, rhs));
        cc.add_equality(pool, l, r, i);
    }
    let (lhs, rhs) = (parse(pool, goal.0), parse(pool, goal.1));
    let result = cc.are_congruent(pool, lhs, rhs);
    let explained = cc.explain(pool, lhs, rhs);
    assert_eq!(explained.is_some(), result);
    if let Some(proof) = explained {
        assert_eq!(proof.conclusion, (lhs, rhs));
        check_proof(&proof, premises, pool);
    }
    result
}

fn check(premises: &[(&str, &str)], goal: (&str, &str)) -> bool {
    let mut pool = PrimitivePool::new();
    run(&mut pool, &mut CongruenceClosure::new(), premises, goal)
}

fn app_args(pool: &PrimitivePool, id: TermId) -> (String, Vec<TermId>) {
    match pool.get(id) {
        Term::App(f, args) => (format!("app {}", f), args.clone()),
        Term::Op(op, args) => (format!("{:?}", op), args.clone()),
        _ => panic!("congruence between non-applications"),
    }
}

/// Checks that an explanation is well-formed: sub-proof conclusions line up, and every leaf is
/// one of the supplied premises.
fn check_proof(proof: &EqProof, premises: &[(&str, &str)], pool: &mut PrimitivePool) {
    let (lhs, rhs) = proof.conclusion;
    match &proof.rule {
        EqProofRule::Premise(i) => {
            let (l, r) = (parse(pool, premises[*i].0), parse(pool, premises[*i].1));
            assert_eq!((l, r), (lhs, rhs));
        }
        EqProofRule::Symm(inner) => {
            assert_eq!(inner.conclusion, (rhs, lhs));
            check_proof(inner, premises, pool);
        }
        EqProofRule::Refl => assert_eq!(lhs, rhs),
        EqProofRule::Trans(links) => {
            assert!(links.len() >= 2);
            let mut cur = lhs;
            for link in links {
                assert_eq!(link.conclusion.0, cur);
                cur = link.conclusion.1;
                check_proof(link, premises, pool);
            }
            assert_eq!(cur, rhs);
        }
        EqProofRule::Cong(args) => {
            let (f, l_args) = app_args(pool, lhs);
            let (g, r_args) = app_args(pool, rhs);
            assert_eq!(f, g);
            assert_eq!(l_args.len(), args.len());
            for ((l, r), arg) in l_args.iter().zip(r_args.iter()).zip(args) {
                match arg {
                    None => assert_eq!(l, r),
                    Some(inner) => {
                        assert_eq!(inner.conclusion, (*l, *r));
                        check_proof(inner, premises, pool);
                    }
                }
            }
        }
    }
}

/// Whether a premise with the given index is among the leaves of a proof.
fn has_premise(p: &EqProof, index: usize) -> bool {
    match &p.rule {
        EqProofRule::Premise(i) => *i == index,
        EqProofRule::Symm(q) => has_premise(q, index),
        EqProofRule::Refl => false,
        EqProofRule::Trans(links) => links.iter().any(|q| has_premise(q, index)),
        EqProofRule::Cong(args) => args.iter().flatten().any(|q| has_premise(q, index)),
    }
}

#[test]
fn direct_and_symm() {
    assert!(check(&[("a", "b")], ("a", "b")));
    assert!(check(&[("a", "b")], ("b", "a")));
    assert!(check(&[], ("a", "a")));
    assert!(!check(&[("a", "b")], ("a", "c")));
    assert!(!check(&[], ("a", "b")));
}

#[test]
fn cc_transitivity() {
    assert!(check(&[("a", "b"), ("b", "c")], ("a", "c")));
    assert!(check(&[("b", "a"), ("c", "b"), ("c", "d")], ("a", "d")));
    assert!(check(&[("c", "d"), ("a", "b"), ("b", "c")], ("d", "a")));
    assert!(!check(&[("a", "b"), ("c", "d")], ("a", "d")));
}

#[test]
fn cc_congruence() {
    assert!(check(&[("a", "b")], ("(f a)", "(f b)")));
    assert!(check(&[("a", "b")], ("(h (g a) c)", "(h (g b) c)")));
    assert!(check(&[("a", "b"), ("c", "d")], ("(h a c)", "(h b d)")));
    assert!(check(&[("a", "b")], ("(p a)", "(p b)")));
    assert!(check(&[], ("(f a)", "(f a)")));
    assert!(!check(&[("a", "b")], ("(f a)", "(g b)")));
    // Congruence is not injectivity
    assert!(!check(&[("(f a)", "(f b)")], ("a", "b")));
}

#[test]
fn cc_congruence_and_transitivity() {
    assert!(check(&[("a", "b"), ("(f b)", "c"), ("c", "d")], ("(f a)", "d")));
    assert!(check(&[("a", "b"), ("b", "c"), ("(g c)", "d")], ("(f (g a))", "(f d)")));
    // The equality of `(f a)` and `(f c)` requires transitivity through the argument
    // equalities, and then congruence
    assert!(check(&[("a", "b"), ("b", "c")], ("(f a)", "(f c)")));
    // Deep congruence chains
    assert!(check(&[("a", "b"), ("(h a a)", "c"), ("(h b b)", "d")], ("c", "d")));
}

#[test]
fn late_term_addition() {
    let mut pool = PrimitivePool::new();
    let mut cc = CongruenceClosure::new();
    // `(g a)` and `(g b)` only enter the pool with the goal query, after the premises were added
    assert!(run(&mut pool, &mut cc, &[("a", "b")], ("(g a)", "(g b)")));
}

#[test]
fn reset_and_reuse() {
    let mut pool = PrimitivePool::new();
    let mut cc = CongruenceClosure::new();
    assert!(run(&mut pool, &mut cc, &[("a", "b")], ("(f a)", "(f b)")));

    // After a reset, the previous equalities are gone
    cc.reset();
    assert!(!run(&mut pool, &mut cc, &[], ("(f a)", "(f b)")));
    assert!(!run(&mut pool, &mut cc, &[("c", "d")], ("a", "b")));

    cc.reset();
    assert!(run(&mut pool, &mut cc, &[("a", "d"), ("d", "b")], ("(f a)", "(f b)")));
}

#[test]
fn operator_applications_are_congruent() {
    let mut pool = PrimitivePool::new();
    let a = parse(&mut pool, "a");
    let b = parse(&mut pool, "b");
    let c = parse(&mut pool, "c");
    let eq_ac = pool.add(Term::Op(Operator::Equals, vec![a, c]));
    let eq_bc = pool.add(Term::Op(Operator::Equals, vec![b, c]));
    let mut cc = CongruenceClosure::new();
    assert!(!cc.are_congruent(&pool, eq_ac, eq_bc));
    cc.add_equality(&pool, a, b, 7);
    assert!(cc.are_congruent(&pool, eq_ac, eq_bc));
    let proof = cc.explain(&pool, eq_ac, eq_bc).unwrap();
    assert_eq!(proof.conclusion, (eq_ac, eq_bc));
    match &proof.rule {
        EqProofRule::Trans(links) => assert_eq!(links.len(), 2),
        EqProofRule::Cong(args) => assert_eq!(args.len(), 2),
        _ => panic!("expected a congruence or transitivity proof"),
    }
}

#[test]
fn explanation_names_the_given_index() {
    let mut pool = PrimitivePool::new();
    let a = parse(&mut pool, "a");
    let b = parse(&mut pool, "b");
    let mut cc = CongruenceClosure::new();
    cc.add_equality(&pool, a, b, 42);
    let proof = cc.explain(&pool, b, a).unwrap();
    assert_eq!(proof.conclusion, (b, a));
    assert!(has_premise(&proof, 42));
    assert!(cc.explain(&pool, a, a).is_some());
}

/// Runs `g_eunif` on a step whose clause and premises (one term each) are given as text, with the
/// shared congruence closure `cc`. A clause of other than one term is refused before the call.
fn eunif_step(
    pool: &mut PrimitivePool,
    cc: &mut Option<CongruenceClosure>,
    clause: &[&str],
    premises: &[&str],
) -> Result<usize, CheckerError> {
    let clause: Vec<TermId> = clause.iter().map(|t| parse(pool, t)).collect();
    let premises: Vec<Vec<TermId>> = premises.iter().map(|t| vec![parse(pool, t)]).collect();
    if clause.len() != 1 {
        return Err(CheckerError::Unspecified);
    }
    let (proof, table) = carcara::elaborator::eunif::g_eunif(pool, cc, &clause, &premises)?;
    match pool.get(clause[0]) {
        Term::Op(Operator::Equals, sides) => assert_eq!(sides, &vec![proof.conclusion.0, proof.conclusion.1]),
        _ => panic!("the conclusion is an equality"),
    }
    Ok(table.len())
}

fn eunif_holds(clause: &[&str], premises: &[&str]) -> bool {
    let mut pool = PrimitivePool::new();
    eunif_step(&mut pool, &mut None, clause, premises).is_ok()
}

#[test]
fn g_eunif() {
    // Direct premise and symmetry
    assert!(eunif_holds(&["(= a b)"], &["(= a b)"]));
    assert!(eunif_holds(&["(= b a)"], &["(= a b)"]));
    // Transitivity
    assert!(eunif_holds(&["(= a c)"], &["(= a b)", "(= b c)"]));
    assert!(eunif_holds(&["(= a d)"], &["(= b a)", "(= c b)", "(= c d)"]));
    assert!(eunif_holds(&["(= d a)"], &["(= c d)", "(= a b)", "(= b c)"]));
    // Congruence
    assert!(eunif_holds(&["(= (f a) (f b))"], &["(= a b)"]));
    assert!(eunif_holds(&["(= (h (g a) c) (h (g b) c))"], &["(= a b)"]));
    assert!(eunif_holds(&["(= (h a c) (h b d))"], &["(= a b)", "(= c d)"]));
    assert!(eunif_holds(&["(= (p a) (p b))"], &["(= a b)"]));
    assert!(eunif_holds(&["(= (f (f a)) (f (f b)))"], &["(= a b)"]));
    // Congruence and transitivity combined
    assert!(eunif_holds(&["(= (f a) d)"], &["(= a b)", "(= (f b) c)", "(= c d)"]));
    assert!(eunif_holds(&["(= (f a) (f c))"], &["(= a b)", "(= b c)"]));
    assert!(eunif_holds(&["(= c d)"], &["(= a b)", "(= (h a a) c)", "(= (h b b) d)"]));
    // Reflexivity, with no premises
    assert!(eunif_holds(&["(= a a)"], &[]));
    assert!(eunif_holds(&["(= (f a) (f a))"], &[]));
    // Unused premises are allowed
    assert!(eunif_holds(&["(= a b)"], &["(= a b)", "(= c d)"]));
    // Multiple steps in the same proof
    {
        let mut pool = PrimitivePool::new();
        let mut cc = None;
        assert!(eunif_step(&mut pool, &mut cc, &["(= (f a) (f b))"], &["(= a b)"]).is_ok());
        assert!(eunif_step(&mut pool, &mut cc, &["(= (h c a) (h d a))"], &["(= c d)"]).is_ok());
    }
    {
        // The second step must not see the equalities of the first step's premises
        let mut pool = PrimitivePool::new();
        let mut cc = None;
        assert!(eunif_step(&mut pool, &mut cc, &["(= (f a) (f b))"], &["(= a b)"]).is_ok());
        assert!(eunif_step(&mut pool, &mut cc, &["(= a b)"], &[]).is_err());
    }
    // Conclusion is not entailed
    assert!(!eunif_holds(&["(= a c)"], &["(= a b)"]));
    assert!(!eunif_holds(&["(= a d)"], &["(= a b)", "(= c d)"]));
    assert!(!eunif_holds(&["(= a b)"], &["(= (f a) (f b))"]));
    assert!(!eunif_holds(&["(= (f a) (g b))"], &["(= a b)"]));
    assert!(!eunif_holds(&["(= a b)"], &[]));
    // Conjunction premises
    assert!(eunif_holds(&["(= (h a c) (h b d))"], &["(and (= a b) (= c d))"]));
    assert!(eunif_holds(&["(= (f a) (f c))"], &["(and (= a b) (= b c))"]));
    assert!(eunif_holds(&["(= (f a) d)"], &["(and (= a b) (= c d))", "(= (f b) c)"]));
    // Conjuncts are not implicitly usable if the premise is not given
    assert!(!eunif_holds(&["(= a d)"], &["(= c d)"]));
    // Conjunction premise with non-equality conjunct
    assert!(!eunif_holds(&["(= a b)"], &["(and (= a b) (p a))"]));
    assert!(!eunif_holds(&["(= a b)"], &["(and (= a b) (and (= b c) (= c d)))"]));
    // Premise is not an equality
    assert!(!eunif_holds(&["(= a b)"], &["(not (= a b))"]));
    assert!(!eunif_holds(&["(= a a)"], &["(p a)"]));
    // Conclusion clause is of the wrong form
    assert!(!eunif_holds(&["(not (= a b))"], &["(= a b)"]));
    assert!(!eunif_holds(&["(= a b)", "(= b a)"], &["(= a b)"]));
}

#[test]
fn g_eunif_errors_and_premise_table() {
    let mut pool = PrimitivePool::new();
    let mut cc = None;
    let not_eq = parse(&mut pool, "(not (= a b))");
    assert_eq!(
        eunif_step(&mut pool, &mut cc, &["(not (= a b))"], &["(= a b)"]),
        Err(CheckerError::TermOfWrongForm("(= t u)", not_eq))
    );
    let pa = parse(&mut pool, "(p a)");
    assert_eq!(
        eunif_step(&mut pool, &mut cc, &["(= a b)"], &["(and (= a b) (p a))"]),
        Err(CheckerError::TermOfWrongForm("(= a b)", pa))
    );
    assert_eq!(
        eunif_step(&mut pool, &mut cc, &["(= a b)"], &["(p a)"]),
        Err(CheckerError::TermOfWrongForm("(and ...)", pa))
    );
    let a = parse(&mut pool, "a");
    let c = parse(&mut pool, "c");
    assert_eq!(
        eunif_step(&mut pool, &mut cc, &["(= a c)"], &["(= a b)"]),
        Err(CheckerError::TermsNotCongruent(a, c))
    );
    let clause = vec![parse(&mut pool, "(= (f a) d)")];
    let premises = vec![vec![parse(&mut pool, "(and (= a b) (= c d))")], vec![parse(&mut pool, "(= (f b) c)")]];
    let (proof, table) = carcara::elaborator::eunif::g_eunif(&pool, &mut cc, &clause, &premises).unwrap();
    assert_eq!(table, vec![(0, Some(0)), (0, Some(1)), (1, None)]);
    let fa = parse(&mut pool, "(f a)");
    let d = parse(&mut pool, "d");
    assert_eq!(proof.conclusion, (fa, d));
}
