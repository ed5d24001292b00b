use carcara::ast::pool::PrimitivePool;
use carcara::ast::{Constant, Operator, Sort, Term, TermId};
use carcara::checker::rules::strings::normalization::NormalizedConcat;
use carcara::error::CheckerError;

fn string(pool: &mut PrimitivePool, s: &str) -> TermId {
    pool.add(Term::new_string(s))
}

fn var(pool: &mut PrimitivePool, name: &str) -> TermId {
    pool.add(Term::new_var(name, Sort::String))
}

fn concat(pool: &mut PrimitivePool, args: Vec<TermId>) -> TermId {
    pool.add(Term::Op(Operator::StrConcat, args))
}

fn string_of(pool: &PrimitivePool, t: TermId) -> Option<String> {
    match pool.get(t) {
        Term::Const(Constant::String(s)) => Some(s.clone()),
        _ => None,
    }
}

#[test]
fn from_term_splits_constants_and_dissolves_concatenations() {
    let mut pool = PrimitivePool::new();
    let x = var(&mut pool, "x");
    let ab = string(&mut pool, "ab");
    let empty = string(&mut pool, "");
    let inner = concat(&mut pool, vec![x, empty]);
    let term = concat(&mut pool, vec![ab, inner]);
    let n = NormalizedConcat::from_term(&mut pool, term);
    assert_eq!(n.0.len(), 3);
    assert_eq!(string_of(&pool, n.0[0]).as_deref(), Some("a"));
    assert_eq!(string_of(&pool, n.0[1]).as_deref(), Some("b"));
    assert_eq!(n.0[2], x);
}

#[test]
fn from_term_unsplit_keeps_constants_whole() {
    let mut pool = PrimitivePool::new();
    let x = var(&mut pool, "x");
    let ab = string(&mut pool, "ab");
    let empty = string(&mut pool, "");
    let inner = concat(&mut pool, vec![empty, x]);
    let term = concat(&mut pool, vec![ab, inner]);
    let n = NormalizedConcat::from_term_unsplit(&pool, term);
    assert_eq!(n.0, vec![ab, x]);
    let only_empty = NormalizedConcat::from_term_unsplit(&pool, empty);
    assert!(only_empty.0.is_empty());
}

#[test]
fn to_term_of_no_one_and_many_terms() {
    let mut pool = PrimitivePool::new();
    let x = var(&mut pool, "x");
    let y = var(&mut pool, "y");
    let none = NormalizedConcat::new(vec![]).to_term(&mut pool);
    assert_eq!(string_of(&pool, none).as_deref(), Some(""));
    assert_eq!(NormalizedConcat::new(vec![x]).to_term(&mut pool), x);
    let both = NormalizedConcat::new(vec![x, y]).into_term(&mut pool);
    assert_eq!(both, concat(&mut pool, vec![x, y]));
}

#[test]
fn compatibility_and_overlap() {
    let mut pool = PrimitivePool::new();
    let a = string(&mut pool, "a");
    let b = string(&mut pool, "b");
    let c = string(&mut pool, "c");
    assert!(NormalizedConcat::is_compatible(&[a, b], &[a, b, c]));
    assert!(NormalizedConcat::is_compatible(&[], &[a]));
    assert!(!NormalizedConcat::is_compatible(&[a, c], &[a, b]));
    assert_eq!(NormalizedConcat::overlap(&[a, b], &[a, b, c]), 0);
    assert_eq!(NormalizedConcat::overlap(&[c, a, b], &[a, b]), 1);
    assert_eq!(NormalizedConcat::overlap(&[a, b, c], &[b]), 1);
    assert_eq!(NormalizedConcat::overlap(&[a, b], &[c]), 2);
}

#[test]
fn prefix_and_suffix_checks() {
    let mut pool = PrimitivePool::new();
    let a = string(&mut pool, "a");
    let b = string(&mut pool, "b");
    let x = var(&mut pool, "x");
    let short = NormalizedConcat::new(vec![a, b]);
    let long = NormalizedConcat::new(vec![a, b, x]);
    assert_eq!(short.assert_is_prefix_of(&pool, &long, a, x), Ok(()));
    assert_eq!(long.assert_is_prefix_of(&pool, &short, a, x), Err(CheckerError::ExpectedToBePrefix(a, x)));
    assert_eq!(long.assert_is_suffix_of(&pool, &short, a, x), Err(CheckerError::ExpectedToBeSuffix(a, x)));
    assert_eq!(short.assert_is_suffix_of(&pool, &long, a, x), Err(CheckerError::ExpectedTermToBe(b, x)));
    let tail = NormalizedConcat::new(vec![b, x]);
    assert_eq!(tail.assert_is_suffix_of(&pool, &long, a, x), Ok(()));
}

#[test]
fn strip_common_prefix_and_suffix() {
    let mut pool = PrimitivePool::new();
    let a = string(&mut pool, "a");
    let b = string(&mut pool, "b");
    let x = var(&mut pool, "x");
    let y = var(&mut pool, "y");
    let s = NormalizedConcat::new(vec![a, b, x]);
    let t = NormalizedConcat::new(vec![a, b, y]);
    let (s1, t1) = s.strip_prefix_or_suffix(&pool, &t, a, b, false).unwrap();
    assert_eq!((s1.0, t1.0), (vec![x], vec![y]));
    let (s2, t2) = s.strip_prefix_or_suffix(&pool, &t, a, b, true).unwrap();
    assert_eq!((s2.0, t2.0), (vec![a, b, x], vec![a, b, y]));
    let empty = NormalizedConcat::new(vec![]);
    assert!(matches!(empty.strip_prefix_or_suffix(&pool, &t, a, b, false), Err(CheckerError::TermOfWrongForm(_, id)) if id == a));
    assert!(matches!(s.strip_prefix_or_suffix(&pool, &empty, a, b, false), Err(CheckerError::TermOfWrongForm(_, id)) if id == b));
}

#[test]
fn expand_constants_splits_strings_everywhere() {
    let mut pool = PrimitivePool::new();
    let abc = string(&mut pool, "abc");
    let len = pool.add(Term::Op(Operator::StrLen, vec![abc]));
    let expanded = NormalizedConcat::expand_constants(&mut pool, len);
    let a = string(&mut pool, "a");
    let b = string(&mut pool, "b");
    let c = string(&mut pool, "c");
    let split = concat(&mut pool, vec![a, b, c]);
    assert_eq!(expanded, pool.add(Term::Op(Operator::StrLen, vec![split])));
    // a one-character string stays as it is, the empty string too
    assert_eq!(NormalizedConcat::expand_constants(&mut pool, a), a);
    let empty = string(&mut pool, "");
    assert_eq!(NormalizedConcat::expand_constants(&mut pool, empty), empty);
    // nested concatenations are dissolved into one
    let x = var(&mut pool, "x");
    let bc = string(&mut pool, "bc");
    let inner = concat(&mut pool, vec![x, bc]);
    let outer = concat(&mut pool, vec![a, inner]);
    let flat = NormalizedConcat::expand_constants(&mut pool, outer);
    assert_eq!(flat, concat(&mut pool, vec![a, x, b, c]));
}

#[test]
fn length_one_constants() {
    let mut pool = PrimitivePool::new();
    let a = string(&mut pool, "a");
    let ab = string(&mut pool, "ab");
    let wide = string(&mut pool, "é");
    let x = var(&mut pool, "x");
    assert_eq!(NormalizedConcat::assert_length_one(&pool, a), Ok(()));
    assert_eq!(NormalizedConcat::assert_length_one(&pool, ab), Err(CheckerError::ExpectedStringConstantOfLengthOne(ab)));
    assert_eq!(NormalizedConcat::assert_length_one(&pool, wide), Ok(()));
    assert_eq!(NormalizedConcat::assert_length_one(&pool, x), Err(CheckerError::ExpectedStringConstantOfLengthOne(x)));
}

#[test]
fn expand_constants_expands_inside_concatenation_arguments() {
    let mut pool = PrimitivePool::new();
    let f = pool.add(Term::new_var("f", Sort::Function(vec![Sort::String, Sort::String])));
    let ab = string(&mut pool, "ab");
    let fab = pool.add(Term::App(f, vec![ab]));
    let x = var(&mut pool, "x");
    let term = concat(&mut pool, vec![fab, x]);
    let expanded = NormalizedConcat::expand_constants(&mut pool, term);
    let a = string(&mut pool, "a");
    let b = string(&mut pool, "b");
    let split = concat(&mut pool, vec![a, b]);
    let f_split = pool.add(Term::App(f, vec![split]));
    assert_eq!(expanded, concat(&mut pool, vec![f_split, x]));
}

#[test]
fn to_term_then_from_term_gives_back_the_pieces() {
    let mut pool = PrimitivePool::new();
    let a = string(&mut pool, "a");
    let x = var(&mut pool, "x");
    let b = string(&mut pool, "b");
    let n = NormalizedConcat::new(vec![a, x, b]);
    let t = n.to_term(&mut pool);
    let back = NormalizedConcat::from_term(&mut pool, t);
    assert_eq!(back.0, vec![a, x, b]);
}
