//! Comparisons of sorts.

use vstd::prelude::*;

use crate::ast::{names_eq, sort_eq, Sort};

verus! {

/// Whether two names are equal.
fn same_name(a: &String, b: &String) -> (res: bool)
    ensures
        res == (a@ == b@),
{
    a.eq(b)
}

/// Whether two lists of names are equal.
fn same_names(a: &Vec<String>, b: &Vec<String>) -> (res: bool)
    ensures
        res == names_eq(a@, b@),
{
    if a.len() != b.len() {
        return false;
    }
    for i in 0..a.len()
        invariant
            a@.len() == b@.len(),
            forall|k: int| 0 <= k < i ==> #[trigger] a@[k]@ == b@[k]@,
    {
        if !same_name(&a[i], &b[i]) {
            return false;
        }
    }
    true
}

/// Whether two lists of sorts are equal, sort by sort.
fn same_sorts(a: &Vec<Sort>, b: &Vec<Sort>) -> (res: bool)
    ensures
        res == (a@.len() == b@.len() && forall|i: int| 0 <= i < a@.len() ==> sort_eq(#[trigger] a@[i], b@[i])),
    decreases a@, 0nat,
{
    if a.len() != b.len() {
        return false;
    }
    for i in 0..a.len()
        invariant
            a@.len() == b@.len(),
            forall|k: int| 0 <= k < i ==> sort_eq(#[trigger] a@[k], b@[k]),
    {
        assert(decreases_to!(a@ => a@[i as int]));
        if !same_sort(&a[i], &b[i]) {
            return false;
        }
    }
    true
}

/// Whether two sorts are equal.
pub fn same_sort(a: &Sort, b: &Sort) -> (res: bool)
    ensures
        res == sort_eq(*a, *b),
    decreases *a, 1nat,
{
    match (a, b) {
        (Sort::Function(x), Sort::Function(y)) => {
            assert(decreases_to!(*a => x@));
            same_sorts(x, y)
        },
        (Sort::Atom(n, x), Sort::Atom(m, y)) => {
            assert(decreases_to!(*a => x@));
            same_name(n, m) && same_sorts(x, y)
        },
        (Sort::Var(n), Sort::Var(m)) => same_name(n, m),
        (Sort::Bool, Sort::Bool) => true,
        (Sort::Int, Sort::Int) => true,
        (Sort::Real, Sort::Real) => true,
        (Sort::String, Sort::String) => true,
        (Sort::RegLan, Sort::RegLan) => true,
        (Sort::Array(x1, y1), Sort::Array(x2, y2)) => same_sort(x1, x2) && same_sort(y1, y2),
        (Sort::BitVec(n), Sort::BitVec(m)) => *n == *m,
        (Sort::ParamBitVec, Sort::ParamBitVec) => true,
        (Sort::Datatype { name: n, args: x }, Sort::Datatype { name: m, args: y }) => {
            assert(decreases_to!(*a => x@));
            same_name(n, m) && same_sorts(x, y)
        },
        (Sort::Par(n, x), Sort::Par(m, y)) => same_names(n, m) && same_sort(x, y),
        (Sort::Type, Sort::Type) => true,
        (Sort::SetOf(x), Sort::SetOf(y)) => same_sort(x, y),
        (Sort::Tuple(x), Sort::Tuple(y)) => {
            assert(decreases_to!(*a => x@));
            same_sorts(x, y)
        },
        _ => false,
    }
}

/// Equality of sorts is symmetric.
pub proof fn lemma_sort_eq_symmetric(a: Sort, b: Sort)
    ensures
        sort_eq(a, b) == sort_eq(b, a),
    decreases a,
{
    match (a, b) {
        (Sort::Function(x), Sort::Function(y)) | (Sort::Tuple(x), Sort::Tuple(y)) => {
            assert forall|i: int| 0 <= i < x.len() && i < y.len() implies sort_eq(#[trigger] x[i], y[i]) == sort_eq(y[i], x[i]) by {
                assert(decreases_to!(a => x[i]));
                lemma_sort_eq_symmetric(x[i], y[i]);
            }
        },
        (Sort::Atom(_, x), Sort::Atom(_, y)) => {
            assert forall|i: int| 0 <= i < x.len() && i < y.len() implies sort_eq(#[trigger] x[i], y[i]) == sort_eq(y[i], x[i]) by {
                assert(decreases_to!(a => x[i]));
                lemma_sort_eq_symmetric(x[i], y[i]);
            }
        },
        (Sort::Datatype { name: _, args: x }, Sort::Datatype { name: _, args: y }) => {
            assert forall|i: int| 0 <= i < x.len() && i < y.len() implies sort_eq(#[trigger] x[i], y[i]) == sort_eq(y[i], x[i]) by {
                assert(decreases_to!(a => x[i]));
                lemma_sort_eq_symmetric(x[i], y[i]);
            }
        },
        (Sort::Array(x1, y1), Sort::Array(x2, y2)) => {
            lemma_sort_eq_symmetric(*x1, *x2);
            lemma_sort_eq_symmetric(*y1, *y2);
        },
        (Sort::Par(n1, x), Sort::Par(n2, y)) => {
            lemma_sort_eq_symmetric(*x, *y);
        },
        (Sort::SetOf(x), Sort::SetOf(y)) => {
            lemma_sort_eq_symmetric(*x, *y);
        },
        _ => {},
    }
}

/// Equality of sorts is transitive.
pub proof fn lemma_sort_eq_trans(a: Sort, b: Sort, c: Sort)
    requires
        sort_eq(a, b),
        sort_eq(b, c),
    ensures
        sort_eq(a, c),
    decreases a,
{
    match (a, b, c) {
        (Sort::Function(x), Sort::Function(y), Sort::Function(z)) => {
            assert forall|i: int| 0 <= i < x.len() implies sort_eq(#[trigger] x[i], z[i]) by {
                assert(decreases_to!(a => x[i]));
                assert(sort_eq(x[i], y[i]) && sort_eq(y[i], z[i]));
                lemma_sort_eq_trans(x[i], y[i], z[i]);
            }
        },
        (Sort::Atom(_, x), Sort::Atom(_, y), Sort::Atom(_, z)) => {
            assert forall|i: int| 0 <= i < x.len() implies sort_eq(#[trigger] x[i], z[i]) by {
                assert(decreases_to!(a => x[i]));
                assert(sort_eq(x[i], y[i]) && sort_eq(y[i], z[i]));
                lemma_sort_eq_trans(x[i], y[i], z[i]);
            }
        },
        (Sort::Datatype { name: _, args: x }, Sort::Datatype { name: _, args: y }, Sort::Datatype { name: _, args: z }) => {
            assert forall|i: int| 0 <= i < x.len() implies sort_eq(#[trigger] x[i], z[i]) by {
                assert(decreases_to!(a => x[i]));
                assert(sort_eq(x[i], y[i]) && sort_eq(y[i], z[i]));
                lemma_sort_eq_trans(x[i], y[i], z[i]);
            }
        },
        (Sort::Tuple(x), Sort::Tuple(y), Sort::Tuple(z)) => {
            assert forall|i: int| 0 <= i < x.len() implies sort_eq(#[trigger] x[i], z[i]) by {
                assert(decreases_to!(a => x[i]));
                assert(sort_eq(x[i], y[i]) && sort_eq(y[i], z[i]));
                lemma_sort_eq_trans(x[i], y[i], z[i]);
            }
        },
        (Sort::Array(x1, y1), Sort::Array(x2, y2), Sort::Array(x3, y3)) => {
            lemma_sort_eq_trans(*x1, *x2, *x3);
            lemma_sort_eq_trans(*y1, *y2, *y3);
        },
        (Sort::Par(n1, x), Sort::Par(n2, y), Sort::Par(n3, z)) => {
            lemma_sort_eq_trans(*x, *y, *z);
            assert forall|i: int| 0 <= i < n1@.len() implies #[trigger] n1@[i]@ == n3@[i]@ by {
                assert(n1@[i]@ == n2@[i]@);
            }
        },
        (Sort::SetOf(x), Sort::SetOf(y), Sort::SetOf(z)) => {
            lemma_sort_eq_trans(*x, *y, *z);
        },
        _ => {},
    }
}

/// Whether a sort can be made equal to another by a substitution of its sort variables, as
/// `Sort::is_compatible` computes it: argument lists must have the same length and be compatible
/// position by position.
pub open spec fn compatible(a: Sort, b: Sort) -> bool
    decreases a, b,
{
    if sort_eq(a, b) {
        true
    } else {
        match (a, b) {
            (Sort::Var(_), _) => true,
            (_, Sort::Var(_)) => true,
            (Sort::Par(_, x), _) => compatible(*x, b),
            (_, Sort::Par(_, y)) => compatible(a, *y),
            (Sort::ParamBitVec, Sort::BitVec(_)) => true,
            (Sort::ParamBitVec, Sort::ParamBitVec) => true,
            (Sort::BitVec(_), Sort::ParamBitVec) => true,
            (Sort::Atom(n, x), Sort::Atom(m, y)) => n@ == m@ && x.len() == y.len() && forall|i: int|
                0 <= i < x.len() && 0 <= i < y.len() ==> compatible(#[trigger] x[i], y[i]),
            (Sort::Function(x), Sort::Function(y)) => x.len() == y.len() && forall|i: int|
                0 <= i < x.len() && 0 <= i < y.len() ==> compatible(#[trigger] x[i], y[i]),
            (Sort::Datatype { name: n, args: x }, Sort::Datatype { name: m, args: y }) => n@ == m@ && x.len() == y.len() && forall|i: int|
                0 <= i < x.len() && 0 <= i < y.len() ==> compatible(#[trigger] x[i], y[i]),
            (Sort::Array(x1, y1), Sort::Array(x2, y2)) => compatible(*x1, *x2) && compatible(*y1, *y2),
            (Sort::SetOf(x), Sort::SetOf(y)) => compatible(*x, *y),
            (Sort::Tuple(x), Sort::Tuple(y)) => x.len() == y.len() && forall|i: int|
                0 <= i < x.len() && 0 <= i < y.len() ==> compatible(#[trigger] x[i], y[i]),
            _ => false,
        }
    }
}

/// Whether the sorts of two lists are compatible pairwise, up to the shorter list.
fn all_compatible(xs: &Vec<Sort>, ys: &Vec<Sort>) -> (res: bool)
    ensures
        res == (xs@.len() == ys@.len()
            && forall|i: int| 0 <= i < xs@.len() && 0 <= i < ys@.len() ==> compatible(#[trigger] xs@[i], ys@[i])),
    decreases xs@, ys@, 0nat,
{
    if xs.len() != ys.len() {
        return false;
    }
    let n = xs.len();
    for i in 0..n
        invariant
            n <= xs@.len(),
            n <= ys@.len(),
            forall|k: int| 0 <= k < i ==> compatible(#[trigger] xs@[k], ys@[k]),
    {
        assert(decreases_to!(xs@ => xs@[i as int]));
        assert(decreases_to!(ys@ => ys@[i as int]));
        if !xs[i].is_compatible(&ys[i]) {
            return false;
        }
    }
    true
}

/// A copy of a list of sorts.
fn copy_sorts(a: &Vec<Sort>) -> (res: Vec<Sort>)
    ensures
        res@.len() == a@.len(),
        forall|i: int| 0 <= i < a@.len() ==> sort_eq(#[trigger] res@[i], a@[i]),
    decreases a@, 0nat,
{
    let mut res: Vec<Sort> = Vec::new();
    for i in 0..a.len()
        invariant
            res@.len() == i,
            forall|k: int| 0 <= k < i ==> sort_eq(#[trigger] res@[k], a@[k]),
    {
        assert(decreases_to!(a@ => a@[i as int]));
        res.push(a[i].copy());
    }
    res
}

/// A copy of a list of names.
fn copy_names(a: &Vec<String>) -> (res: Vec<String>)
    ensures
        names_eq(res@, a@),
{
    let mut res: Vec<String> = Vec::new();
    for i in 0..a.len()
        invariant
            res@.len() == i,
            forall|k: int| 0 <= k < i ==> #[trigger] res@[k]@ == a@[k]@,
    {
        res.push(a[i].clone());
    }
    res
}

impl Sort {
    /// A copy of this sort.
    pub fn copy(&self) -> (s: Sort)
        ensures
            sort_eq(s, *self),
        decreases *self, 1nat,
    {
        match self {
            Sort::Function(x) => {
                assert(decreases_to!(*self => x@));
                Sort::Function(copy_sorts(x))
            },
            Sort::Atom(n, x) => {
                assert(decreases_to!(*self => x@));
                Sort::Atom(n.clone(), copy_sorts(x))
            },
            Sort::Var(n) => Sort::Var(n.clone()),
            Sort::Bool => Sort::Bool,
            Sort::Int => Sort::Int,
            Sort::Real => Sort::Real,
            Sort::String => Sort::String,
            Sort::RegLan => Sort::RegLan,
            Sort::Array(x, y) => Sort::Array(Box::new(x.copy()), Box::new(y.copy())),
            Sort::BitVec(n) => Sort::BitVec(*n),
            Sort::ParamBitVec => Sort::ParamBitVec,
            Sort::Datatype { name, args } => {
                assert(decreases_to!(*self => args@));
                Sort::Datatype { name: name.clone(), args: copy_sorts(args) }
            },
            Sort::Par(n, x) => Sort::Par(copy_names(n), Box::new(x.copy())),
            Sort::Type => Sort::Type,
            Sort::SetOf(x) => Sort::SetOf(Box::new(x.copy())),
            Sort::Tuple(x) => {
                assert(decreases_to!(*self => x@));
                Sort::Tuple(copy_sorts(x))
            },
        }
    }

    /// Returns `true` if the sort is a bitvector sort of any width.
    pub fn is_bitvec(&self) -> (res: bool)
        ensures
            res == (*self is BitVec || *self is ParamBitVec),
    {
        matches!(self, Sort::BitVec(_) | Sort::ParamBitVec)
    }

    /// Returns `true` if the sort is a parametric sort.
    pub fn is_par(&self) -> (res: bool)
        ensures
            res == *self is Par,
    {
        matches!(self, Sort::Par(_, _))
    }

    /// Whether this sort is equal to another, modulo bitvector sorts with width parameters that
    /// are not statically known.
    pub fn param_eq(&self, other: &Self) -> (res: bool)
        ensures
            res == (sort_eq(*self, *other)
                || (*self is ParamBitVec && (*other is BitVec || *other is ParamBitVec))
                || (*other is ParamBitVec && (*self is BitVec || *self is ParamBitVec))),
    {
        same_sort(self, other)
            || (matches!(self, Sort::ParamBitVec) && other.is_bitvec())
            || (matches!(other, Sort::ParamBitVec) && self.is_bitvec())
    }

    /// Computes whether this sort is compatible with another: whether a substitution of the sort
    /// variables of `self` can make it equal to `other`.
    pub fn is_compatible(&self, other: &Self) -> (res: bool)
        ensures
            res == compatible(*self, *other),
        decreases *self, *other, 1nat,
    {
        if same_sort(self, other) {
            return true;
        }
        match (self, other) {
            (Sort::Var(_), _) => true,
            (_, Sort::Var(_)) => true,
            (Sort::Par(_, x), _) => x.is_compatible(other),
            (_, Sort::Par(_, y)) => self.is_compatible(y),
            (Sort::ParamBitVec, Sort::BitVec(_)) => true,
            (Sort::ParamBitVec, Sort::ParamBitVec) => true,
            (Sort::BitVec(_), Sort::ParamBitVec) => true,
            (Sort::Atom(n, x), Sort::Atom(m, y)) => {
                assert(decreases_to!(*self => x@));
                assert(decreases_to!(*other => y@));
                same_name(n, m) && all_compatible(x, y)
            },
            (Sort::Function(x), Sort::Function(y)) => {
                assert(decreases_to!(*self => x@));
                assert(decreases_to!(*other => y@));
                all_compatible(x, y)
            },
            (Sort::Datatype { name: n, args: x }, Sort::Datatype { name: m, args: y }) => {
                assert(decreases_to!(*self => x@));
                assert(decreases_to!(*other => y@));
                same_name(n, m) && all_compatible(x, y)
            },
            (Sort::Array(x1, y1), Sort::Array(x2, y2)) => x1.is_compatible(x2) && y1.is_compatible(y2),
            (Sort::SetOf(x), Sort::SetOf(y)) => x.is_compatible(y),
            (Sort::Tuple(x), Sort::Tuple(y)) => {
                assert(decreases_to!(*self => x@));
                assert(decreases_to!(*other => y@));
                all_compatible(x, y)
            },
            _ => false,
        }
    }
}

/// The sort bound to the sort variable named `x` in the bindings `m`: the first binding of `x`.
pub open spec fn bound_sort(m: Seq<(String, Sort)>, x: Seq<char>) -> Option<Sort>
    decreases m.len(),
{
    if m.len() == 0 {
        None
    } else if m[0].0@ == x {
        Some(m[0].1)
    } else {
        bound_sort(m.drop_first(), x)
    }
}

/// The bindings held by references, as values.
pub open spec fn bindings<'a>(m: Seq<(&'a String, &'a Sort)>) -> Seq<(String, Sort)> {
    m.map_values(|e: (&'a String, &'a Sort)| (*e.0, *e.1))
}

/// Matching the sort `a` against the sort `b`, extending the bindings `m` of sort variables of
/// `a`, as `Sort::is_compatible_with_map` computes it: whether they match, and the bindings
/// after the attempt. Equal sorts match; a sort variable matches a sort it is bound to, or any
/// sort if it is unbound, which it is then bound to; parametric sorts match by their bodies;
/// sorts with arguments match when their names agree and their arguments match from left to
/// right, up to the shorter list, stopping at the first that does not; otherwise the sorts must
/// be equal up to bitvector widths that are not statically known.
pub open spec fn match_sort(a: Sort, b: Sort, m: Seq<(String, Sort)>) -> (bool, Seq<(String, Sort)>)
    decreases a, b, 1nat, 0int,
{
    if sort_eq(a, b) {
        (true, m)
    } else {
        match (a, b) {
            (Sort::Var(x), _) => match bound_sort(m, x@) {
                Some(s) => (sort_eq(s, b), m),
                None => (true, m.push((x, b))),
            },
            (Sort::Par(_, x), _) => match_sort(*x, b, m),
            (_, Sort::Par(_, y)) => match_sort(a, *y, m),
            (Sort::Atom(n, xs), Sort::Atom(k, ys)) => if n@ == k@ {
                match_list(xs@, ys@, m, 0)
            } else {
                (false, m)
            },
            (Sort::Function(xs), Sort::Function(ys)) => match_list(xs@, ys@, m, 0),
            (Sort::Datatype { name: n, args: xs }, Sort::Datatype { name: k, args: ys }) => if n@ == k@ {
                match_list(xs@, ys@, m, 0)
            } else {
                (false, m)
            },
            (Sort::Array(x1, y1), Sort::Array(x2, y2)) => {
                let (r, m1) = match_sort(*x1, *x2, m);
                if r {
                    match_sort(*y1, *y2, m1)
                } else {
                    (false, m1)
                }
            },
            (Sort::SetOf(x), Sort::SetOf(y)) => match_sort(*x, *y, m),
            (Sort::Tuple(xs), Sort::Tuple(ys)) => match_list(xs@, ys@, m, 0),
            _ => (sort_eq(a, b) || (a is ParamBitVec && (b is BitVec || b is ParamBitVec))
                || (b is ParamBitVec && (a is BitVec || a is ParamBitVec)), m),
        }
    }
}

/// Matching the sorts of `xs` against those of `ys` from position `i` on, stopping at the first
/// pair that does not match (see `match_sort`); lists of different lengths do not match.
pub open spec fn match_list(xs: Seq<Sort>, ys: Seq<Sort>, m: Seq<(String, Sort)>, i: int) -> (bool, Seq<(String, Sort)>)
    decreases xs, ys, 0nat, xs.len() - i,
{
    if xs.len() != ys.len() {
        (false, m)
    } else if i < 0 || i >= xs.len() || i >= ys.len() {
        (true, m)
    } else {
        let (r, m1) = match_sort(xs[i], ys[i], m);
        if r {
            match_list(xs, ys, m1, i + 1)
        } else {
            (false, m1)
        }
    }
}

/// The sort bound to the sort variable named `x`, if any.
fn find_binding<'a>(map: &Vec<(&'a String, &'a Sort)>, x: &String) -> (r: Option<&'a Sort>)
    ensures
        match bound_sort(bindings(map@), x@) {
            Some(s) => (r matches Some(t) && *t == s),
            None => r is None,
        },
{
    let mut k: usize = 0;
    assert(bindings(map@).skip(0) =~= bindings(map@));
    while k < map.len()
        invariant
            k <= map@.len(),
            bound_sort(bindings(map@), x@) == bound_sort(bindings(map@).skip(k as int), x@),
        decreases map@.len() - k,
    {
        let ghost rest = bindings(map@).skip(k as int);
        assert(rest.drop_first() =~= bindings(map@).skip(k + 1));
        assert(rest[0] == (*map@[k as int].0, *map@[k as int].1));
        if *map[k].0 == *x {
            return Some(map[k].1);
        }
        k += 1;
    }
    None
}

/// Matches the sorts of `xs` against those of `ys`, from left to right, stopping at the first
/// pair that does not match; lists of different lengths do not match.
fn all_compatible_with_map<'a>(xs: &'a Vec<Sort>, ys: &'a Vec<Sort>, map: &mut Vec<(&'a String, &'a Sort)>) -> (res: bool)
    ensures
        res == match_list(xs@, ys@, bindings(old(map)@), 0).0,
        bindings(final(map)@) == match_list(xs@, ys@, bindings(old(map)@), 0).1,
    decreases xs@, ys@, 0nat, 0int,
{
    if xs.len() != ys.len() {
        return false;
    }
    let n = xs.len();
    let mut i: usize = 0;
    while i < n
        invariant
            n == xs@.len(),
            n == ys@.len(),
            i <= n,
            match_list(xs@, ys@, bindings(old(map)@), 0) == match_list(xs@, ys@, bindings(map@), i as int),
        decreases n - i,
    {
        assert(decreases_to!(xs@ => xs@[i as int]));
        assert(decreases_to!(ys@ => ys@[i as int]));
        if !xs[i].is_compatible_with_map(&ys[i], map) {
            return false;
        }
        i += 1;
    }
    true
}

impl Sort {
    /// Computes whether this sort is compatible with `target` while building the substitution
    /// that makes it so: matches this sort against `target` (see `match_sort`), adding a binding
    /// to `map` for each sort variable of this sort that gets bound.
    pub fn is_compatible_with_map<'a>(&'a self, target: &'a Sort, map: &mut Vec<(&'a String, &'a Sort)>) -> (res: bool)
        ensures
            res == match_sort(*self, *target, bindings(old(map)@)).0,
            bindings(final(map)@) == match_sort(*self, *target, bindings(old(map)@)).1,
        decreases *self, *target, 1nat, 0int,
    {
        if same_sort(self, target) {
            return true;
        }
        match (self, target) {
            (Sort::Var(x), _) => match find_binding(map, x) {
                Some(s) => same_sort(s, target),
                None => {
                    let ghost before = map@;
                    map.push((x, target));
                    assert(bindings(map@) =~= bindings(before).push((*x, *target)));
                    true
                },
            },
            (Sort::Par(_, x), _) => x.is_compatible_with_map(target, map),
            (_, Sort::Par(_, y)) => self.is_compatible_with_map(y, map),
            (Sort::Atom(n, xs), Sort::Atom(k, ys)) => {
                assert(decreases_to!(*self => xs@));
                assert(decreases_to!(*target => ys@));
                same_name(n, k) && all_compatible_with_map(xs, ys, map)
            },
            (Sort::Function(xs), Sort::Function(ys)) => {
                assert(decreases_to!(*self => xs@));
                assert(decreases_to!(*target => ys@));
                all_compatible_with_map(xs, ys, map)
            },
            (Sort::Datatype { name: n, args: xs }, Sort::Datatype { name: k, args: ys }) => {
                assert(decreases_to!(*self => xs@));
                assert(decreases_to!(*target => ys@));
                same_name(n, k) && all_compatible_with_map(xs, ys, map)
            },
            (Sort::Array(x1, y1), Sort::Array(x2, y2)) => x1.is_compatible_with_map(x2, map) && y1.is_compatible_with_map(y2, map),
            (Sort::SetOf(x), Sort::SetOf(y)) => x.is_compatible_with_map(y, map),
            (Sort::Tuple(xs), Sort::Tuple(ys)) => {
                assert(decreases_to!(*self => xs@));
                assert(decreases_to!(*target => ys@));
                all_compatible_with_map(xs, ys, map)
            },
            _ => self.param_eq(target),
        }
    }
}


/// `Sort::param_eq` is symmetric: what it computes does not depend on the order of the sorts.
pub proof fn lemma_param_eq_symmetric(a: Sort, b: Sort)
    ensures
        (sort_eq(a, b) || (a is ParamBitVec && (b is BitVec || b is ParamBitVec))
            || (b is ParamBitVec && (a is BitVec || a is ParamBitVec)))
        == (sort_eq(b, a) || (b is ParamBitVec && (a is BitVec || a is ParamBitVec))
            || (a is ParamBitVec && (b is BitVec || b is ParamBitVec))),
{
    lemma_sort_eq_symmetric(a, b);
}

} // verus!
