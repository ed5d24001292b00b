//! Small utilities: symbol characters, ranges of counts, values with a cached hash, and a stack
//! of hash maps used as a symbol table.

use std::borrow::Borrow;
use std::collections::HashMap;
use std::hash::Hash;
use vstd::prelude::*;
use vstd::std_specs::cmp::PartialEqSpec;
use vstd::laws_eq::obeys_concrete_eq;
use vstd::std_specs::hash::{contains_borrowed_key, maps_borrowed_key_to_value, obeys_key_model};

use crate::ast::{Sort, Term};

verus! {

/// Whether `c` is an ASCII letter or digit.
pub open spec fn ascii_alphanumeric(c: char) -> bool {
    ('0' <= c <= '9') || ('a' <= c <= 'z') || ('A' <= c <= 'Z')
}

/// The characters other than letters and digits that symbols may contain.
pub open spec fn symbol_punctuation(c: char) -> bool {
    c == '+' || c == '-' || c == '/' || c == '*' || c == '=' || c == '%' || c == '?' || c == '!'
        || c == '.' || c == '$' || c == '_' || c == '~' || c == '&' || c == '^' || c == '<'
        || c == '>' || c == '@'
}

/// Returns `true` if the character is a valid symbol character in the SMT-LIB and Alethe
/// formats.
///
/// While `'` is not a valid symbol character according to the SMT-LIB and Alethe specs, it is
/// used to tell apart variables renamed by capture-avoiding substitutions, so it is accepted too.
pub fn is_symbol_character(ch: char) -> (res: bool)
    ensures
        res == (ascii_alphanumeric(ch) || symbol_punctuation(ch) || ch == '\''),
{
    if ('0' <= ch && ch <= '9') || ('a' <= ch && ch <= 'z') || ('A' <= ch && ch <= 'Z') {
        return true;
    }
    match ch {
        '+' | '-' | '/' | '*' | '=' | '%' | '?' | '!' | '.' | '$' | '_' | '~' | '&' | '^' | '<' | '>' | '@' => true,
        '\'' => true,
        _ => false,
    }
}

/// A range of counts, used in error messages: an optional lower bound and an optional upper
/// bound, both inclusive.
#[derive(Debug, Clone, Copy, PartialEq, Eq, Structural)]
pub struct Range(pub Option<usize>, pub Option<usize>);

impl Range {
    /// Returns `true` if `n` is contained in the range.
    pub fn contains(&self, n: usize) -> (res: bool)
        ensures
            res == ((self.0 matches Some(lo) ==> n >= lo) && (self.1 matches Some(hi) ==> n <= hi)),
    {
        let above = match self.0 {
            Some(lo) => n >= lo,
            None => true,
        };
        let below = match self.1 {
            Some(hi) => n <= hi,
            None => true,
        };
        above && below
    }

    /// The range of exactly `n`.
    pub fn exactly(n: usize) -> (r: Range)
        ensures
            r == Range(Some(n), Some(n)),
    {
        Range(Some(n), Some(n))
    }
}

/// The result of comparing two multisets: no difference, or the first element that occurs fewer
/// (`Missing`) or more (`Extra`) times in the first one than in the second.
pub enum MultiSetDifference<'a, T> {
    /// The two multisets contain the same elements with the same multiplicities.
    NoDifference,
    /// The element occurs fewer times in the first multiset than in the other one.
    Missing(&'a T),
    /// The element occurs more times in the first multiset than in the other one.
    Extra(&'a T),
}

/// `std::hash::Hash::hash` of `value`, written into `state`. Nothing is stated of what it writes:
/// the documentation leaves it to each type.
#[verifier::external_body]
fn hash_into<T: std::hash::Hash>(value: &T, state: &mut std::collections::hash_map::DefaultHasher) {
    value.hash(state);
}

/// The hash of a value, computed with the standard library's default hasher: a fresh hasher
/// into which the value is hashed, then finished.
fn default_hash<T: std::hash::Hash>(value: &T) -> u64 {
    let mut hasher = std::collections::hash_map::DefaultHasher::new();
    hash_into(value, &mut hasher);
    std::hash::Hasher::finish(&hasher)
}

/// A value together with its hash, computed once, so that it only needs to be hashed once.
pub struct HashCache<T> {
    hash: u64,
    value: T,
}

impl<T: std::hash::Hash> HashCache<T> {
    /// The wrapped value.
    pub closed spec fn value(&self) -> T {
        self.value
    }

    /// Creates a new `HashCache`, computing and storing the hash of `value`.
    pub fn new(value: T) -> (h: Self)
        ensures
            h.value() == value,
    {
        let hash = default_hash(&value);
        HashCache { hash, value }
    }

    /// Consumes the `HashCache`, returning the wrapped value.
    pub fn unwrap(self) -> (v: T)
        ensures
            v == self.value(),
    {
        self.value
    }

    /// The wrapped value.
    pub fn as_ref(&self) -> (v: &T)
        ensures
            *v == self.value(),
    {
        &self.value
    }
}


/// Two caches are equal when their values are: the cached hashes then agree as well.
impl<T: PartialEq + std::hash::Hash> PartialEq for HashCache<T> {
    fn eq(&self, other: &Self) -> (r: bool) {
        self.value == other.value
    }
}

impl<T: PartialEq + std::hash::Hash> vstd::std_specs::cmp::PartialEqSpecImpl for HashCache<T> {
    open spec fn obeys_eq_spec() -> bool {
        T::obeys_eq_spec()
    }

    open spec fn eq_spec(&self, other: &Self) -> bool {
        self.value().eq_spec(&other.value())
    }
}

impl<T: Eq + std::hash::Hash> Eq for HashCache<T> {}

impl<T: std::hash::Hash> std::hash::Hash for HashCache<T> {
    /// `std::hash::Hasher::write_u64` with the cached hash: hashing a cache writes only the hash
    /// computed when it was made.
    #[verifier::external_body]
    fn hash<H: std::hash::Hasher>(&self, state: &mut H) {
        state.write_u64(self.hash);
    }
}

/// Provides a displayable name for a type.
pub trait TypeName {
    /// The type's displayable name.
    const NAME: &'static str;
}

impl TypeName for Term {
    const NAME: &'static str = "term";
}

impl TypeName for Sort {
    const NAME: &'static str = "sort";
}

/// Whether the scope at `j` binds `key` to `v`, and no scope above it binds `key`.
pub open spec fn topmost_binding<K, V, Q: ?Sized>(scopes: Seq<Map<K, V>>, key: &Q, j: int, v: V) -> bool {
    &&& 0 <= j < scopes.len()
    &&& maps_borrowed_key_to_value(scopes[j], key, v)
    &&& forall|i: int| j < i < scopes.len() ==> !contains_borrowed_key(#[trigger] scopes[i], key)
}

/// A stack of hash maps, used as a symbol table.
///
/// Values are inserted into the topmost scope, and lookups search scopes from the top down,
/// returning the first value found. What a lookup finds is stated for keys whose `Hash` and `Eq`
/// agree with their equality as values (`obeys_key_model`).
pub struct HashMapStack<K, V> {
    scopes: Vec<HashMap<K, V>>,
}

impl<K, V> HashMapStack<K, V> {
    /// The scopes, from the bottom up, each a map from keys to values.
    pub closed spec fn scopes(&self) -> Seq<Map<K, V>> {
        self.scopes@.map_values(|m: HashMap<K, V>| m@)
    }

    /// A stack with a single empty scope.
    pub fn new() -> (s: Self)
        ensures
            s.scopes() == seq![Map::<K, V>::empty()],
    {
        let s = HashMapStack { scopes: vec![HashMap::new()] };
        assert(s.scopes() =~= seq![Map::<K, V>::empty()]);
        s
    }

    /// The number of scopes in the stack.
    pub fn height(&self) -> (n: usize)
        ensures
            n == self.scopes().len(),
    {
        self.scopes.len()
    }

    /// Whether every scope in the stack is empty.
    pub fn is_empty(&self) -> (res: bool)
        ensures
            res == forall|i: int| 0 <= i < self.scopes().len() ==> (#[trigger] self.scopes()[i]).is_empty(),
    {
        let mut i: usize = 0;
        while i < self.scopes.len()
            invariant
                i <= self.scopes@.len(),
                forall|j: int| 0 <= j < i ==> (#[trigger] self.scopes()[j]).is_empty(),
            decreases self.scopes@.len() - i,
        {
            if !self.scopes[i].is_empty() {
                assert(!self.scopes()[i as int].is_empty());
                return false;
            }
            i += 1;
        }
        true
    }

    /// Removes every entry and every scope but the base one, which is left empty.
    pub fn clear(&mut self)
        ensures
            final(self).scopes() == seq![Map::<K, V>::empty()],
    {
        *self = Self::new();
    }

    /// Pushes a new, empty scope onto the stack.
    pub fn push_scope(&mut self)
        ensures
            final(self).scopes() == old(self).scopes().push(Map::<K, V>::empty()),
    {
        self.scopes.push(HashMap::new());
        assert(self.scopes() =~= old(self).scopes().push(Map::<K, V>::empty()));
    }

    /// Pops the topmost scope from the stack. The base scope cannot be popped.
    pub fn pop_scope(&mut self)
        requires
            old(self).scopes().len() > 1,
        ensures
            final(self).scopes() == old(self).scopes().drop_last(),
    {
        let _ = self.scopes.pop();
        assert(self.scopes() =~= old(self).scopes().drop_last());
    }
}

impl<K: Eq + Hash, V> HashMapStack<K, V> {
    /// The value bound to `key` in the topmost scope that binds it, if any scope does.
    pub fn get<Q: ?Sized + Eq + Hash>(&self, key: &Q) -> (res: Option<&V>)
        where K: Borrow<Q>,
        ensures
            obeys_key_model::<K>() ==> match res {
                Some(v) => exists|j: int| #[trigger] topmost_binding(self.scopes(), key, j, *v),
                None => forall|j: int| 0 <= j < self.scopes().len() ==> !contains_borrowed_key(#[trigger] self.scopes()[j], key),
            },
    {
        match self.get_with_depth(key) {
            Some((d, v)) => {
                let res = Some(v);
                proof {
                    if obeys_key_model::<K>() {
                        assert(topmost_binding(self.scopes(), key, d as int, *v));
                        assert(res is Some);
                        assert(res->0 == v);
                        assert(exists|j: int| #[trigger] topmost_binding(self.scopes(), key, j, *v));
                    }
                }
                res
            },
            None => None,
        }
    }

    /// Like [`get`](HashMapStack::get), but also gives the depth of the scope in which the key
    /// was found, where `0` is the bottommost scope.
    pub fn get_with_depth<Q: ?Sized + Eq + Hash>(&self, key: &Q) -> (res: Option<(usize, &V)>)
        where K: Borrow<Q>,
        ensures
            obeys_key_model::<K>() ==> match res {
                Some((d, v)) => topmost_binding(self.scopes(), key, d as int, *v),
                None => forall|j: int| 0 <= j < self.scopes().len() ==> !contains_borrowed_key(#[trigger] self.scopes()[j], key),
            },
    {
        broadcast use vstd::std_specs::hash::group_hash_axioms;
        let mut i = self.scopes.len();
        while i > 0
            invariant
                i <= self.scopes@.len(),
                obeys_key_model::<K>() ==> forall|j: int| i <= j < self.scopes().len()
                    ==> !contains_borrowed_key(#[trigger] self.scopes()[j], key),
            decreases i,
        {
            i -= 1;
            match self.scopes[i].get(key) {
                Some(v) => {
                    return Some((i, v));
                },
                None => {},
            }
        }
        None
    }

    /// Like [`get`](HashMapStack::get), but only searches the topmost scope.
    pub fn get_top<Q: ?Sized + Eq + Hash>(&self, key: &Q) -> (res: Option<&V>)
        where K: Borrow<Q>,
        requires
            self.scopes().len() > 0,
        ensures
            obeys_key_model::<K>() ==> match res {
                Some(v) => maps_borrowed_key_to_value(self.scopes().last(), key, *v),
                None => !contains_borrowed_key(self.scopes().last(), key),
            },
    {
        broadcast use vstd::std_specs::hash::group_hash_axioms;
        let n = self.scopes.len();
        self.scopes[n - 1].get(key)
    }

    /// Inserts a key-value pair into the topmost scope.
    pub fn insert(&mut self, key: K, value: V)
        requires
            old(self).scopes().len() > 0,
        ensures
            final(self).scopes().len() == old(self).scopes().len(),
            obeys_key_model::<K>() ==> final(self).scopes() == old(self).scopes().update(
                old(self).scopes().len() - 1, old(self).scopes().last().insert(key, value)),
    {
        broadcast use vstd::std_specs::hash::group_hash_axioms;
        let mut top = self.scopes.pop().unwrap();
        let _ = top.insert(key, value);
        self.scopes.push(top);
        proof {
            if obeys_key_model::<K>() {
                assert(self.scopes() =~= old(self).scopes().update(
                    old(self).scopes().len() - 1, old(self).scopes().last().insert(key, value)));
            }
        }
        assert(self.scopes().len() == old(self).scopes().len());
    }
}

impl<K, V> Default for HashMapStack<K, V> {
    fn default() -> (s: Self)
        ensures
            s.scopes() == seq![Map::<K, V>::empty()],
    {
        Self::new()
    }
}

/// A multiset (or bag): a collection that counts how many times each element occurs, keeping its
/// distinct elements in the order in which they were first inserted (an element that leaves is
/// replaced at its position by the last one).
///
/// Elements are compared with their `==`; the operations that compare them ask that it be
/// equality of values (`obeys_concrete_eq`), as it is for integers.
pub struct MultiSet<T> {
    entries: Vec<(T, usize)>,
}

impl<T> MultiSet<T> {
    /// The distinct elements with their counts, in order.
    pub closed spec fn entries(&self) -> Seq<(T, usize)> {
        self.entries@
    }

    /// Each element occurs once among the entries, with a positive count.
    pub closed spec fn wf(&self) -> bool {
        &&& forall|i: int, j: int| 0 <= i < j < self.entries@.len() ==> #[trigger] self.entries@[i].0 != #[trigger] self.entries@[j].0
        &&& forall|i: int| 0 <= i < self.entries@.len() ==> (#[trigger] self.entries@[i]).1 > 0
    }

    /// The number of times `x` occurs.
    pub closed spec fn count(&self, x: T) -> nat {
        if exists|i: int| 0 <= i < self.entries@.len() && #[trigger] self.entries@[i].0 == x {
            self.entries@[choose|i: int| 0 <= i < self.entries@.len() && #[trigger] self.entries@[i].0 == x].1 as nat
        } else {
            0
        }
    }

    /// The count of an element is that of its entry.
    pub proof fn lemma_count_entry(&self, i: int)
        requires
            self.wf(),
            0 <= i < self.entries().len(),
        ensures
            self.count(self.entries()[i].0) == self.entries()[i].1,
    {
        let x = self.entries@[i].0;
        assert(self.entries@[i].0 == x);
        let k = choose|k: int| 0 <= k < self.entries@.len() && #[trigger] self.entries@[k].0 == x;
        if k != i {
            if k < i {
                assert(self.entries@[k].0 != self.entries@[i].0);
            } else {
                assert(self.entries@[i].0 != self.entries@[k].0);
            }
        }
    }

    /// An element without an entry does not occur.
    pub proof fn lemma_count_absent(&self, x: T)
        requires
            forall|i: int| 0 <= i < self.entries().len() ==> #[trigger] self.entries()[i].0 != x,
        ensures
            self.count(x) == 0,
    {
        if exists|i: int| 0 <= i < self.entries@.len() && #[trigger] self.entries@[i].0 == x {
            let i = choose|i: int| 0 <= i < self.entries@.len() && #[trigger] self.entries@[i].0 == x;
            assert(self.entries()[i].0 != x);
        }
    }

    /// A new, empty multiset.
    pub fn new() -> (s: Self)
        ensures
            s.wf(),
            s.entries() == Seq::<(T, usize)>::empty(),
            forall|x: T| s.count(x) == 0,
    {
        MultiSet { entries: Vec::new() }
    }

    /// The number of distinct elements in the multiset.
    pub fn len(&self) -> (n: usize)
        ensures
            n == self.entries().len(),
    {
        self.entries.len()
    }

    /// Whether the multiset is empty.
    pub fn is_empty(&self) -> (res: bool)
        ensures
            res == (self.entries().len() == 0),
    {
        self.len() == 0
    }
}

impl<T: PartialEq> MultiSet<T> {
    /// The position of the entry of `value`, if it has one.
    fn position(&self, value: &T) -> (res: Option<usize>)
        requires
            obeys_concrete_eq::<T>(),
        ensures
            res matches Some(i) ==> i < self.entries().len() && self.entries()[i as int].0 == *value,
            res is None ==> forall|i: int| 0 <= i < self.entries().len() ==> #[trigger] self.entries()[i].0 != *value,
    {
        proof {
            reveal(obeys_concrete_eq);
        }
        let mut i: usize = 0;
        while i < self.entries.len()
            invariant
                obeys_concrete_eq::<T>(),
                T::obeys_eq_spec(),
                forall|x: T, y: T| x.eq_spec(&y) <==> x == y,
                i <= self.entries@.len(),
                forall|j: int| 0 <= j < i ==> #[trigger] self.entries@[j].0 != *value,
            decreases self.entries@.len() - i,
        {
            if self.entries[i].0 == *value {
                return Some(i);
            }
            i += 1;
        }
        None
    }

    /// The number of times `value` occurs in the multiset, or `0` if it is not present.
    pub fn get(&self, value: &T) -> (res: usize)
        requires
            obeys_concrete_eq::<T>(),
            self.wf(),
        ensures
            res == self.count(*value),
    {
        match self.position(value) {
            Some(i) => {
                proof {
                    self.lemma_count_entry(i as int);
                }
                self.entries[i].1
            },
            None => {
                proof {
                    self.lemma_count_absent(*value);
                }
                0
            },
        }
    }

    /// Whether `value` occurs in the multiset.
    pub fn contains(&self, value: &T) -> (res: bool)
        requires
            obeys_concrete_eq::<T>(),
            self.wf(),
        ensures
            res == (self.count(*value) > 0),
    {
        self.get(value) > 0
    }

    /// Inserts `value` into the multiset once, returning the new count for `value`.
    pub fn insert(&mut self, value: T) -> (res: usize)
        requires
            obeys_concrete_eq::<T>(),
            old(self).wf(),
            old(self).count(value) < usize::MAX,
        ensures
            final(self).wf(),
            res == old(self).count(value) + 1,
            final(self).count(value) == res,
            forall|x: T| x != value ==> final(self).count(x) == old(self).count(x),
    {
        self.insert_n(value, 1)
    }

    /// Inserts `n` copies of `value` into the multiset, returning the new count for `value`.
    pub fn insert_n(&mut self, value: T, n: usize) -> (res: usize)
        requires
            obeys_concrete_eq::<T>(),
            old(self).wf(),
            old(self).count(value) + n <= usize::MAX,
        ensures
            final(self).wf(),
            res == old(self).count(value) + n,
            final(self).count(value) == res,
            forall|x: T| x != value ==> final(self).count(x) == old(self).count(x),
            n == 0 ==> *final(self) == *old(self),
            n > 0 && old(self).count(value) == 0 ==> final(self).entries() == old(self).entries().push((value, n)),
            forall|i: int| 0 <= i < old(self).entries().len() && old(self).entries()[i].0 == value
                ==> final(self).entries() == old(self).entries().update(i, (value, res)),
    {
        if n == 0 {
            let c = self.get(&value);
            proof {
                if exists|i: int| 0 <= i < old(self).entries().len() && old(self).entries()[i].0 == value {
                    let i = choose|i: int| 0 <= i < old(self).entries().len() && old(self).entries()[i].0 == value;
                    old(self).lemma_count_entry(i);
                    assert(old(self).entries().update(i, (value, c)) =~= old(self).entries());
                }
            }
            return c;
        }
        match self.position(&value) {
            Some(i) => {
                proof {
                    old(self).lemma_count_entry(i as int);
                }
                let c = self.entries[i].1 + n;
                let ghost before = self.entries@;
                proof {
                    assert forall|k: int| 0 <= k < before.len() && before[k].0 == value implies k == i by {
                        if k < i {
                            assert(before[k].0 != before[i as int].0);
                        } else if k > i {
                            assert(before[i as int].0 != before[k].0);
                        }
                    }
                }
                let (x, _) = self.entries.remove(i);
                self.entries.insert(i, (x, c));
                proof {
                    assert(self.entries@ =~= before.update(i as int, (before[i as int].0, c)));
                    self.lemma_count_entry(i as int);
                    assert forall|y: T| y != value implies self.count(y) == old(self).count(y) by {
                        if exists|k: int| 0 <= k < before.len() && #[trigger] before[k].0 == y {
                            let k = choose|k: int| 0 <= k < before.len() && #[trigger] before[k].0 == y;
                            old(self).lemma_count_entry(k);
                            self.lemma_count_entry(k);
                        } else {
                            assert forall|k: int| 0 <= k < self.entries@.len() implies #[trigger] self.entries@[k].0 != y by {
                                assert(before[k].0 != y);
                            }
                        }
                    }
                }
                c
            },
            None => {
                proof {
                    old(self).lemma_count_absent(value);
                }
                let ghost before = self.entries@;
                self.entries.push((value, n));
                proof {
                    self.lemma_count_entry(before.len() as int);
                    assert forall|y: T| y != value implies self.count(y) == old(self).count(y) by {
                        if exists|k: int| 0 <= k < before.len() && #[trigger] before[k].0 == y {
                            let k = choose|k: int| 0 <= k < before.len() && #[trigger] before[k].0 == y;
                            old(self).lemma_count_entry(k);
                            self.lemma_count_entry(k);
                        } else {
                            assert forall|k: int| 0 <= k < self.entries@.len() implies #[trigger] self.entries@[k].0 != y by {
                                if k < before.len() {
                                    assert(before[k].0 != y);
                                }
                            }
                        }
                    }
                }
                n
            },
        }
    }

    /// Removes `value` from the multiset once, returning the remaining count for `value`.
    pub fn remove(&mut self, value: &T) -> (res: usize)
        requires
            obeys_concrete_eq::<T>(),
            old(self).wf(),
        ensures
            final(self).wf(),
            res == (if old(self).count(*value) <= 1 { 0 } else { old(self).count(*value) - 1 }),
            final(self).count(*value) == res,
            forall|x: T| x != *value ==> final(self).count(x) == old(self).count(x),
    {
        self.remove_n(value, 1)
    }

    /// Removes up to `n` copies of `value` from the multiset, returning the remaining count. An
    /// element whose count drops to zero leaves, and the last element takes its position.
    pub fn remove_n(&mut self, value: &T, n: usize) -> (res: usize)
        requires
            obeys_concrete_eq::<T>(),
            old(self).wf(),
        ensures
            final(self).wf(),
            res == (if old(self).count(*value) <= n { 0 } else { old(self).count(*value) - n }),
            final(self).count(*value) == res,
            forall|x: T| x != *value ==> final(self).count(x) == old(self).count(x),
            forall|i: int| 0 <= i < old(self).entries().len() && old(self).entries()[i].0 == *value ==> {
                if old(self).entries()[i].1 <= n {
                    final(self).entries() == old(self).entries().update(i, old(self).entries().last()).drop_last()
                } else {
                    final(self).entries() == old(self).entries().update(i, (*value, (old(self).entries()[i].1 - n) as usize))
                }
            },
    {
        match self.position(value) {
            None => {
                proof {
                    old(self).lemma_count_absent(*value);
                }
                0
            },
            Some(i) => {
                proof {
                    old(self).lemma_count_entry(i as int);
                    assert forall|k: int| 0 <= k < old(self).entries().len() && old(self).entries()[k].0 == *value implies k == i by {
                        if k < i {
                            assert(old(self).entries@[k].0 != old(self).entries@[i as int].0);
                        } else if k > i {
                            assert(old(self).entries@[i as int].0 != old(self).entries@[k].0);
                        }
                    }
                }
                let ghost before = self.entries@;
                let c = self.entries[i].1;
                if c <= n {
                    let _ = self.entries.swap_remove(i);
                    proof {
                        let last = before.len() - 1;
                        // The entry at `k` of the new list is the old entry at `moved(k)`.
                        assert forall|k: int| 0 <= k < self.entries@.len() implies #[trigger] self.entries@[k]
                            == before[if k == i { last } else { k }] by {}
                        assert forall|a: int, b: int| 0 <= a < b < self.entries@.len()
                            implies #[trigger] self.entries@[a].0 != #[trigger] self.entries@[b].0 by {
                            let fa = if a == i { last } else { a };
                            let fb = if b == i { last } else { b };
                            assert(self.entries@[a] == before[fa]);
                            assert(self.entries@[b] == before[fb]);
                            if fa < fb {
                                assert(before[fa].0 != before[fb].0);
                            } else {
                                assert(before[fb].0 != before[fa].0);
                            }
                        }
                        assert forall|k: int| 0 <= k < self.entries@.len() implies (#[trigger] self.entries@[k]).1 > 0 by {
                            assert(self.entries@[k] == before[if k == i { last } else { k }]);
                        }
                        assert forall|k: int| 0 <= k < self.entries@.len() implies #[trigger] self.entries@[k].0 != *value by {
                            let fk = if k == i { last } else { k };
                            assert(self.entries@[k] == before[fk]);
                            assert(fk != i);
                            if fk < i {
                                assert(before[fk].0 != before[i as int].0);
                            } else {
                                assert(before[i as int].0 != before[fk].0);
                            }
                        }
                        self.lemma_count_absent(*value);
                        assert forall|y: T| y != *value implies self.count(y) == old(self).count(y) by {
                            if exists|k: int| 0 <= k < before.len() && #[trigger] before[k].0 == y {
                                let k = choose|k: int| 0 <= k < before.len() && #[trigger] before[k].0 == y;
                                old(self).lemma_count_entry(k);
                                let nk = if k == last { i as int } else { k };
                                assert(k != i);
                                assert(self.entries@[nk] == before[k]);
                                self.lemma_count_entry(nk);
                            } else {
                                assert forall|k: int| 0 <= k < self.entries@.len() implies #[trigger] self.entries@[k].0 != y by {
                                    assert(self.entries@[k] == before[if k == i { last } else { k }]);
                                }
                                self.lemma_count_absent(y);
                            }
                        }
                    }
                    0
                } else {
                    let r = c - n;
                    let (x, _) = self.entries.remove(i);
                    self.entries.insert(i, (x, r));
                    proof {
                        assert(self.entries@ =~= before.update(i as int, (before[i as int].0, r)));
                        self.lemma_count_entry(i as int);
                        assert forall|y: T| y != *value implies self.count(y) == old(self).count(y) by {
                            if exists|k: int| 0 <= k < before.len() && #[trigger] before[k].0 == y {
                                let k = choose|k: int| 0 <= k < before.len() && #[trigger] before[k].0 == y;
                                old(self).lemma_count_entry(k);
                                self.lemma_count_entry(k);
                            } else {
                                assert forall|k: int| 0 <= k < self.entries@.len() implies #[trigger] self.entries@[k].0 != y by {
                                    assert(before[k].0 != y);
                                }
                                self.lemma_count_absent(y);
                            }
                        }
                    }
                    r
                }
            },
        }
    }


    /// Whether `x` is the first element that tells this multiset from `other`: the first of its
    /// elements, in order, whose count differs in `other`, or, when there is none, the first such
    /// element of `other`.
    pub closed spec fn first_difference(&self, other: &Self, x: T) -> bool {
        let a = self.entries@;
        let b = other.entries@;
        ||| exists|i: int| 0 <= i < a.len() && a[i].0 == x && a[i].1 != other.count(a[i].0)
            && forall|k: int| 0 <= k < i ==> #[trigger] a[k].1 == other.count(a[k].0)
        ||| (forall|k: int| 0 <= k < a.len() ==> #[trigger] a[k].1 == other.count(a[k].0))
            && exists|j: int| 0 <= j < b.len() && b[j].0 == x && b[j].1 != self.count(b[j].0)
            && forall|k: int| 0 <= k < j ==> #[trigger] b[k].1 == self.count(b[k].0)
    }

    /// The first element that distinguishes this multiset from `other`: `Extra` if it occurs more
    /// times here than in `other`, `Missing` if fewer, and `NoDifference` if the two multisets
    /// are identical.
    pub fn symmetric_difference<'a>(&'a self, other: &'a Self) -> (res: MultiSetDifference<'a, T>)
        requires
            obeys_concrete_eq::<T>(),
            self.wf(),
            other.wf(),
        ensures
            res is NoDifference <==> forall|x: T| #[trigger] self.count(x) == other.count(x),
            res matches MultiSetDifference::Extra(x) ==> self.count(*x) > other.count(*x) && self.first_difference(other, *x),
            res matches MultiSetDifference::Missing(x) ==> self.count(*x) < other.count(*x) && self.first_difference(other, *x),
    {
        let mut i: usize = 0;
        while i < self.entries.len()
            invariant
                obeys_concrete_eq::<T>(),
                self.wf(),
                other.wf(),
                i <= self.entries@.len(),
                forall|k: int| 0 <= k < i ==> #[trigger] self.entries@[k].1 == other.count(self.entries@[k].0),
            decreases self.entries@.len() - i,
        {
            let item = &self.entries[i].0;
            let count = self.entries[i].1;
            let other_count = other.get(item);
            proof {
                self.lemma_count_entry(i as int);
            }
            if count > other_count {
                assert(self.first_difference(other, *item));
                return MultiSetDifference::Extra(item);
            } else if count < other_count {
                assert(self.first_difference(other, *item));
                return MultiSetDifference::Missing(item);
            }
            i += 1;
        }
        let mut j: usize = 0;
        while j < other.entries.len()
            invariant
                obeys_concrete_eq::<T>(),
                self.wf(),
                other.wf(),
                j <= other.entries@.len(),
                forall|k: int| 0 <= k < self.entries@.len() ==> #[trigger] self.entries@[k].1 == other.count(self.entries@[k].0),
                forall|k: int| 0 <= k < j ==> #[trigger] other.entries@[k].1 == self.count(other.entries@[k].0),
            decreases other.entries@.len() - j,
        {
            let item = &other.entries[j].0;
            let count = other.entries[j].1;
            let self_count = self.get(item);
            proof {
                other.lemma_count_entry(j as int);
            }
            if self_count > count {
                assert(self.first_difference(other, *item));
                return MultiSetDifference::Extra(item);
            } else if self_count < count {
                assert(self.first_difference(other, *item));
                return MultiSetDifference::Missing(item);
            }
            j += 1;
        }
        proof {
            assert forall|x: T| #[trigger] self.count(x) == other.count(x) by {
                if exists|k: int| 0 <= k < self.entries@.len() && #[trigger] self.entries@[k].0 == x {
                    let k = choose|k: int| 0 <= k < self.entries@.len() && #[trigger] self.entries@[k].0 == x;
                    self.lemma_count_entry(k);
                } else if exists|k: int| 0 <= k < other.entries@.len() && #[trigger] other.entries@[k].0 == x {
                    let k = choose|k: int| 0 <= k < other.entries@.len() && #[trigger] other.entries@[k].0 == x;
                    other.lemma_count_entry(k);
                } else {
                    assert forall|k: int| 0 <= k < self.entries@.len() implies #[trigger] self.entries@[k].0 != x by {}
                    assert forall|k: int| 0 <= k < other.entries@.len() implies #[trigger] other.entries@[k].0 != x by {}
                    self.lemma_count_absent(x);
                    other.lemma_count_absent(x);
                }
            }
        }
        MultiSetDifference::NoDifference
    }

}

} // verus!
