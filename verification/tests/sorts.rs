use carcara::ast::Sort;

fn var(name: &str) -> Sort {
    Sort::Var(name.to_owned())
}

fn atom(name: &str, args: Vec<Sort>) -> Sort {
    Sort::Atom(name.to_owned(), args)
}

#[test]
fn matching_binds_sort_variables() {
    let pattern = atom("List", vec![var("T")]);
    let target = atom("List", vec![Sort::Int]);
    let mut map: Vec<(&String, &Sort)> = Vec::new();
    assert!(pattern.is_compatible_with_map(&target, &mut map));
    assert_eq!(map.len(), 1);
    assert_eq!(map[0].0, "T");
    assert!(matches!(map[0].1, Sort::Int));
}

#[test]
fn matching_respects_earlier_bindings() {
    let pattern = atom("Pair", vec![var("T"), var("T")]);
    let same = atom("Pair", vec![Sort::Int, Sort::Int]);
    let different = atom("Pair", vec![Sort::Int, Sort::Bool]);
    let mut map: Vec<(&String, &Sort)> = Vec::new();
    assert!(pattern.is_compatible_with_map(&same, &mut map));
    assert_eq!(map.len(), 1);
    let mut map: Vec<(&String, &Sort)> = Vec::new();
    assert!(!pattern.is_compatible_with_map(&different, &mut map));
    // the binding made before the mismatch stays
    assert_eq!(map.len(), 1);
    assert!(matches!(map[0].1, Sort::Int));
}

#[test]
fn matching_other_sorts() {
    let t = var("T");
    let (a, b) = (atom("A", vec![]), atom("B", vec![]));
    let (pbv, bv4, bv8) = (Sort::ParamBitVec, Sort::BitVec(4), Sort::BitVec(8));
    let array = Sort::Array(Box::new(var("I")), Box::new(var("E")));
    let target = Sort::Array(Box::new(Sort::Int), Box::new(Sort::Real));
    let mut map: Vec<(&String, &Sort)> = Vec::new();
    // a variable of the target is not bound
    assert!(!Sort::Int.is_compatible_with_map(&t, &mut map));
    // names must agree
    assert!(!a.is_compatible_with_map(&b, &mut map));
    // bitvectors of unknown width match those of any width
    assert!(pbv.is_compatible_with_map(&bv8, &mut map));
    assert!(!bv4.is_compatible_with_map(&bv8, &mut map));
    assert!(map.is_empty());
    // arrays match index and element sorts in turn
    assert!(array.is_compatible_with_map(&target, &mut map));
    assert_eq!(map.len(), 2);
    assert!(matches!(map[1].1, Sort::Real));
    // parametric sorts match by their bodies
    let par = Sort::Par(vec!["X".to_owned()], Box::new(var("X")));
    let mut fresh: Vec<(&String, &Sort)> = Vec::new();
    assert!(par.is_compatible_with_map(&Sort::Bool, &mut fresh));
    assert_eq!(fresh[0].0, "X");
}

#[test]
fn function_sorts_of_different_arity_are_not_compatible() {
    let a = Sort::Function(vec![Sort::Int, Sort::Bool]);
    let b = Sort::Function(vec![Sort::Int]);
    assert!(!a.is_compatible(&b));
    assert!(!b.is_compatible(&a));
    let c = Sort::Function(vec![Sort::Var(String::from("X")), Sort::Bool]);
    assert!(c.is_compatible(&a));
}

#[test]
fn param_eq_is_symmetric() {
    let pairs = [
        (Sort::ParamBitVec, Sort::BitVec(8)),
        (Sort::BitVec(8), Sort::BitVec(4)),
        (Sort::Int, Sort::Int),
        (Sort::ParamBitVec, Sort::Int),
    ];
    for (a, b) in pairs.iter() {
        assert_eq!(a.param_eq(b), b.param_eq(a));
    }
    assert!(Sort::ParamBitVec.param_eq(&Sort::BitVec(8)));
    assert!(!Sort::BitVec(8).param_eq(&Sort::BitVec(4)));
}

#[test]
fn matching_lists_of_different_lengths_fails() {
    let pattern = Sort::Tuple(vec![var("X")]);
    let target = Sort::Tuple(vec![Sort::Int, Sort::Bool]);
    let mut map = Vec::new();
    assert!(!pattern.is_compatible_with_map(&target, &mut map));
    let f = Sort::Function(vec![var("X"), Sort::Bool]);
    let g = Sort::Function(vec![Sort::Int]);
    let mut map2 = Vec::new();
    assert!(!f.is_compatible_with_map(&g, &mut map2));
}
