use carcara::ast::pool::PrimitivePool;
use carcara::ast::{Operator, Sort, Term, TermId};
use carcara::checker::rules::strings::utils::{Orientation, StringTermBuilder};

fn op_args(pool: &PrimitivePool, t: TermId, op: Operator) -> Option<Vec<TermId>> {
    match pool.get(t) {
        Term::Op(o, args) if *o == op => Some(args.clone()),
        _ => None,
    }
}

fn is_op(pool: &PrimitivePool, t: TermId, op: Operator, n: usize) -> bool {
    op_args(pool, t, op).map_or(false, |a| a.len() == n)
}

#[test]
fn test_build_str_prefix() {
    let mut pool = PrimitivePool::new();
    let u = pool.add(Term::new_var("u", Sort::String));
    let n = pool.add(Term::new_var("n", Sort::Int));

    let term = pool.build_str_prefix(u, n);
    let zero = pool.add(Term::new_int(0));
    let expected = pool.add(Term::Op(Operator::Substring, vec![u, zero, n]));
    assert_eq!(term, expected);
}

#[test]
fn test_build_str_suffix() {
    let mut pool = PrimitivePool::new();
    let u = pool.add(Term::new_var("u", Sort::String));
    let n = pool.add(Term::new_var("n", Sort::Int));

    let term = pool.build_str_suffix(u, n);
    let len = pool.add(Term::Op(Operator::StrLen, vec![u]));
    let start = pool.add(Term::Op(Operator::Sub, vec![len, n]));
    let expected = pool.add(Term::Op(Operator::Substring, vec![u, start, n]));
    assert_eq!(term, expected);
}

#[test]
fn test_build_str_suffix_rem() {
    let mut pool = PrimitivePool::new();
    let u = pool.add(Term::new_var("u", Sort::String));
    let n = pool.add(Term::new_var("n", Sort::Int));

    let term = pool.build_str_suffix_rem(u, n);
    let len = pool.add(Term::Op(Operator::StrLen, vec![u]));
    let rest = pool.add(Term::Op(Operator::Sub, vec![len, n]));
    let expected = pool.add(Term::Op(Operator::Substring, vec![u, n, rest]));
    assert_eq!(term, expected);
}

#[test]
fn test_build_str_unify_split_prefix_and_suffix() {
    let mut pool = PrimitivePool::new();
    let t = pool.add(Term::new_var("t", Sort::String));
    let s = pool.add(Term::new_var("s", Sort::String));

    let pref_term = pool.build_str_unify_split(t, s, Orientation::Prefix);
    let suff_term = pool.build_str_unify_split(t, s, Orientation::Suffix);

    for term in [pref_term, suff_term] {
        let ite = op_args(&pool, term, Operator::Ite).unwrap();
        assert_eq!(ite.len(), 3);
        let cond = op_args(&pool, ite[0], Operator::GreaterEq).unwrap();
        assert!(cond.len() == 2 && is_op(&pool, cond[0], Operator::StrLen, 1) && is_op(&pool, cond[1], Operator::StrLen, 1));
        assert!(is_op(&pool, ite[1], Operator::Substring, 3));
        assert!(is_op(&pool, ite[2], Operator::Substring, 3));
    }
    assert_ne!(pref_term, suff_term);
}

#[test]
fn unify_split_prefix_takes_the_remainders() {
    let mut pool = PrimitivePool::new();
    let t = pool.add(Term::new_var("t", Sort::String));
    let s = pool.add(Term::new_var("s", Sort::String));

    let split = pool.build_str_unify_split_prefix(t, s);
    let t_len = pool.add(Term::Op(Operator::StrLen, vec![t]));
    let s_len = pool.add(Term::Op(Operator::StrLen, vec![s]));
    let tb = pool.build_str_suffix_rem(t, s_len);
    let fb = pool.build_str_suffix_rem(s, t_len);
    let cond = pool.add(Term::Op(Operator::GreaterEq, vec![t_len, s_len]));
    let expected = pool.add(Term::Op(Operator::Ite, vec![cond, tb, fb]));
    assert_eq!(split, expected);
}

#[test]
fn unify_split_suffix_takes_the_prefixes() {
    let mut pool = PrimitivePool::new();
    let t = pool.add(Term::new_var("t", Sort::String));
    let s = pool.add(Term::new_var("s", Sort::String));

    let split = pool.build_str_unify_split_suffix(t, s);
    let t_len = pool.add(Term::Op(Operator::StrLen, vec![t]));
    let s_len = pool.add(Term::Op(Operator::StrLen, vec![s]));
    let n_t = pool.add(Term::Op(Operator::Sub, vec![t_len, s_len]));
    let n_s = pool.add(Term::Op(Operator::Sub, vec![s_len, t_len]));
    let tb = pool.build_str_prefix(t, n_t);
    let fb = pool.build_str_prefix(s, n_s);
    let cond = pool.add(Term::Op(Operator::GreaterEq, vec![t_len, s_len]));
    let expected = pool.add(Term::Op(Operator::Ite, vec![cond, tb, fb]));
    assert_eq!(split, expected);
}

use carcara::automata::Automaton;
use carcara::checker::rules::strings::utils::make_automaton_from_string;
use carcara::error::{CheckerError, StringError};

#[test]
fn test_make_automaton_from_string_success() {
    let mut pool = PrimitivePool::new();
    let s1 = pool.add(Term::new_string("a"));
    let s2 = pool.add(Term::new_string("b"));
    let concat = pool.add(Term::Op(Operator::StrConcat, vec![s1, s2]));
    let re1 = pool.add(Term::Op(Operator::StrToRe, vec![s1]));
    let re2 = pool.add(Term::Op(Operator::StrToRe, vec![s2]));
    let premises = vec![(s1, re1), (s2, re2)];
    let automaton = make_automaton_from_string(&mut pool, concat, premises);
    assert!(automaton.is_ok());
}

#[test]
fn test_make_automaton_from_string_mismatch() {
    let mut pool = PrimitivePool::new();
    let s1 = pool.add(Term::new_string("a"));
    let s2 = pool.add(Term::new_string("b"));
    let concat = pool.add(Term::Op(Operator::StrConcat, vec![s1, s2]));
    let re1 = pool.add(Term::Op(Operator::StrToRe, vec![s1]));
    let premises = vec![(s1, re1)]; // Wrong number of premises
    let result = make_automaton_from_string(&mut pool, concat, premises);
    assert!(result.is_err());
}

#[test]
fn test_make_automaton_from_string_invalid_operator() {
    let mut pool = PrimitivePool::new();
    let s = pool.add(Term::new_string("a"));
    let result = make_automaton_from_string(&mut pool, s, vec![]);
    assert!(result.is_err());
}

#[test]
fn make_automaton_from_string_errors() {
    let mut pool = PrimitivePool::new();
    let s1 = pool.add(Term::new_string("a"));
    let s2 = pool.add(Term::new_string("b"));
    let concat = pool.add(Term::Op(Operator::StrConcat, vec![s1, s2]));
    let re1 = pool.add(Term::Op(Operator::StrToRe, vec![s1]));
    assert_eq!(
        make_automaton_from_string(&mut pool, concat, vec![(s1, re1)]).err(),
        Some(CheckerError::Str(StringError::ConcatTermsNumberDiffersFromPremiseTermsNumber(2, 1)))
    );
    assert_eq!(
        make_automaton_from_string(&mut pool, concat, vec![(s1, re1), (s1, re1)]).err(),
        Some(CheckerError::TermEquality(s2, s1))
    );
    assert_eq!(
        make_automaton_from_string(&mut pool, s1, vec![]).err(),
        Some(CheckerError::Str(StringError::NotBackwardableOperator(s1)))
    );
}

#[test]
fn make_automaton_from_string_accepts_the_concatenation() {
    let mut pool = PrimitivePool::new();
    let s1 = pool.add(Term::new_string("ab"));
    let s2 = pool.add(Term::new_string("c"));
    let concat = pool.add(Term::Op(Operator::StrConcat, vec![s1, s2]));
    let re1 = pool.add(Term::Op(Operator::StrToRe, vec![s1]));
    let all = pool.add(Term::Op(Operator::ReAll, vec![]));
    let a: Automaton = make_automaton_from_string(&mut pool, concat, vec![(s1, re1), (s2, all)]).unwrap();
    for (w, expected) in [("ab", true), ("abc", true), ("abxyz", true), ("a", false), ("ba", false)] {
        assert_eq!(a.accepts(w), expected, "{}", w);
    }
}

#[test]
fn make_automaton_from_string_of_three_components() {
    let mut pool = PrimitivePool::new();
    let x = pool.add(Term::new_string("a"));
    let y = pool.add(Term::new_string("b"));
    let z = pool.add(Term::new_string("c"));
    let t = pool.add(Term::Op(Operator::StrConcat, vec![x, y, z]));
    let rx = pool.add(Term::Op(Operator::StrToRe, vec![x]));
    let ry = pool.add(Term::Op(Operator::StrToRe, vec![y]));
    let rz = pool.add(Term::Op(Operator::StrToRe, vec![z]));
    let a = make_automaton_from_string(&mut pool, t, vec![(x, rx), (y, ry), (z, rz)]).unwrap();
    assert!(a.accepts("abc"));
    assert!(!a.accepts("ab"));
}

#[test]
fn test_cached_automaton() {
    let mut pool = PrimitivePool::new();
    let mut cache = indexmap::IndexMap::new();

    let a = pool.add(Term::new_string("a"));
    let re_a = pool.add(Term::Op(Operator::StrToRe, vec![a]));

    let auto1 = carcara::checker::rules::strings::utils::cached_automaton(&mut pool, &mut cache, re_a).unwrap();
    let auto2 = carcara::checker::rules::strings::utils::cached_automaton(&mut pool, &mut cache, re_a).unwrap();

    assert!(std::sync::Arc::ptr_eq(&auto1, &auto2));
    assert_eq!(cache.len(), 1);
    assert!(auto1.accepts("a"));
}
