use carcara::ast::pool::PrimitivePool;
use carcara::ast::{Operator, Term, TermId};
use carcara::automata::Automaton;
use carcara::error::CheckerError;

fn string(pool: &mut PrimitivePool, s: &str) -> TermId {
    pool.add(Term::new_string(s))
}

fn op(pool: &mut PrimitivePool, o: Operator, args: Vec<TermId>) -> TermId {
    pool.add(Term::Op(o, args))
}

fn lit(pool: &mut PrimitivePool, s: &str) -> TermId {
    let c = string(pool, s);
    op(pool, Operator::StrToRe, vec![c])
}

fn check(pool: &mut PrimitivePool, re: TermId, cases: &[(&str, bool)]) {
    let a = Automaton::create_from_regex_operators(pool, re).unwrap();
    for (w, expected) in cases {
        assert_eq!(a.accepts(w), *expected, "{}", w);
    }
}

#[test]
fn str_to_re_accepts_exactly_its_string() {
    let mut pool = PrimitivePool::new();
    let re = lit(&mut pool, "abc");
    let a = Automaton::create_from_regex_operators(&mut pool, re).unwrap();
    assert_eq!(a.name, "str_to_re");
    assert_eq!(a.all_states.len(), 4);
    check(&mut pool, re, &[("abc", true), ("ab", false), ("abcd", false), ("", false)]);
    let empty = lit(&mut pool, "");
    check(&mut pool, empty, &[("", true), ("a", false)]);
}

#[test]
fn kleene_closure_and_cross() {
    let mut pool = PrimitivePool::new();
    let ab = lit(&mut pool, "ab");
    let star = op(&mut pool, Operator::ReKleeneClosure, vec![ab]);
    check(&mut pool, star, &[("", true), ("ab", true), ("abab", true), ("aba", false)]);
    let size = pool.len();
    let plus = op(&mut pool, Operator::ReKleeneCross, vec![ab]);
    check(&mut pool, plus, &[("", false), ("ab", true), ("ababab", true), ("b", false)]);
    // (re.+ r) is read as (re.++ r (re.* r)), which is added to the pool
    assert!(pool.len() > size + 1);
}

#[test]
fn union_intersection_and_complement() {
    let mut pool = PrimitivePool::new();
    let a = lit(&mut pool, "a");
    let b = lit(&mut pool, "b");
    let union = op(&mut pool, Operator::ReUnion, vec![a, b]);
    check(&mut pool, union, &[("a", true), ("b", true), ("", false), ("ab", false)]);
    let all = op(&mut pool, Operator::ReAll, vec![]);
    let inter = op(&mut pool, Operator::ReIntersection, vec![union, all, a]);
    check(&mut pool, inter, &[("a", true), ("b", false), ("", false)]);
    let comp = op(&mut pool, Operator::ReComplement, vec![a]);
    check(&mut pool, comp, &[("a", false), ("", true), ("b", true), ("aa", true)]);
}

#[test]
fn ranges_and_constants() {
    let mut pool = PrimitivePool::new();
    let lo = string(&mut pool, "b");
    let hi = string(&mut pool, "d");
    let range = op(&mut pool, Operator::ReRange, vec![lo, hi]);
    check(&mut pool, range, &[("a", false), ("b", true), ("c", true), ("d", true), ("e", false), ("bc", false)]);
    let allchar = op(&mut pool, Operator::ReAllChar, vec![]);
    check(&mut pool, allchar, &[("x", true), ("", false), ("xy", false)]);
    let none = op(&mut pool, Operator::ReNone, vec![]);
    check(&mut pool, none, &[("", false), ("x", false)]);
}

#[test]
fn concat_skips_components_that_accept_nothing() {
    let mut pool = PrimitivePool::new();
    let a = lit(&mut pool, "a");
    let none = op(&mut pool, Operator::ReNone, vec![]);
    let c = op(&mut pool, Operator::ReConcat, vec![none, a]);
    check(&mut pool, c, &[("a", true), ("", false)]);
    let only_none = op(&mut pool, Operator::ReConcat, vec![none]);
    assert_eq!(Automaton::create_from_regex_operators(&mut pool, only_none).err(), Some(CheckerError::Unspecified));
}

#[test]
fn regex_conversion_errors() {
    let mut pool = PrimitivePool::new();
    let s = string(&mut pool, "a");
    assert_eq!(
        Automaton::create_from_regex_operators(&mut pool, s).err(),
        Some(CheckerError::UnexpectedTermOnAutomatonConversion(s))
    );
    let x = pool.add(Term::new_var("x", carcara::ast::Sort::String));
    let bad = op(&mut pool, Operator::StrToRe, vec![x]);
    assert_eq!(
        Automaton::create_from_regex_operators(&mut pool, bad).err(),
        Some(CheckerError::ExpectedStringConstantInsideStrToRe(x))
    );
    let empty = string(&mut pool, "");
    let bad_range = op(&mut pool, Operator::ReRange, vec![empty, s]);
    assert_eq!(Automaton::create_from_regex_operators(&mut pool, bad_range).err(), Some(CheckerError::Unspecified));
}

#[test]
fn kleene_closure_of_a_word() {
    let mut pool = PrimitivePool::new();
    let r = lit(&mut pool, "ab");
    let t = op(&mut pool, Operator::ReKleeneClosure, vec![r]);
    check(&mut pool, t, &[("", true), ("ab", true), ("abab", true), ("aba", false), ("b", false)]);
}

#[test]
fn complement_of_a_letter() {
    let mut pool = PrimitivePool::new();
    let r = lit(&mut pool, "a");
    let t = op(&mut pool, Operator::ReComplement, vec![r]);
    check(&mut pool, t, &[("", true), ("a", false), ("aa", true), ("b", true)]);
}

#[test]
fn concatenation_joins_every_component() {
    let mut pool = PrimitivePool::new();
    let a = lit(&mut pool, "a");
    let b = lit(&mut pool, "b");
    let c = lit(&mut pool, "c");
    let t = op(&mut pool, Operator::ReConcat, vec![a, b, c]);
    check(&mut pool, t, &[("abc", true), ("ab", false), ("abcc", false)]);
}
