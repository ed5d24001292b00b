//! Helpers of the string rules: building common string terms, and automata for string terms.

use std::sync::Arc;
use vstd::prelude::*;

use crate::ast::pool::{all_below, args_of, extends, is_int, is_op, lemma_extends_trans, PrimitivePool};
use crate::ast::{Operator, Term, TermId};
use crate::automata::from_regex::{denotes, lemma_denotes_extends, lemma_fails_extends, lemma_regex_wf_extends, regex_fails, regex_wf_at};
use crate::automata::Automaton;
use crate::checker::rules::assert_same_term;
use crate::checker::rules::extras::first_mismatch;
use crate::error::{CheckerError, StringError};

verus! {

/// Orientation for string operations that distinguish between prefix and suffix.
#[derive(Debug, Clone, Copy, PartialEq, Eq, Structural)]
pub enum Orientation {
    Prefix,
    Suffix,
}

/// Builders of common terms of the theory of strings: prefixes, suffixes, what remains of a
/// string after a prefix, and the splitting terms of unification.
pub trait StringTermBuilder: Sized {
    /// The builder is in a consistent state.
    spec fn valid(self) -> bool;

    /// The builder holds the term `t`.
    spec fn holds(self, t: TermId) -> bool;

    /// The term `t` is the application of `op` to the argument `a`.
    spec fn app1(self, t: TermId, op: Operator, a: TermId) -> bool;

    /// The term `t` is the application of `op` to the arguments `a` and `b`.
    spec fn app2(self, t: TermId, op: Operator, a: TermId, b: TermId) -> bool;

    /// The term `t` is the application of `op` to the arguments `a`, `b` and `c`.
    spec fn app3(self, t: TermId, op: Operator, a: TermId, b: TermId, c: TermId) -> bool;

    /// The term `t` is the integer constant `i`.
    spec fn integer(self, t: TermId, i: i64) -> bool;

    /// `self` holds, unchanged, every term that `earlier` holds.
    spec fn keeps(self, earlier: Self) -> bool;

    /// `x` is `(str.substr u 0 n)`, the prefix of `u` of length `n`.
    spec fn is_prefix(self, x: TermId, u: TermId, n: TermId) -> bool;

    /// `x` is `(str.substr u n (- (str.len u) n))`, what remains of `u` after its first `n`
    /// characters.
    spec fn is_suffix_rem(self, x: TermId, u: TermId, n: TermId) -> bool;

    /// `x` is `(str.substr u (- (str.len u) n) n)`, the suffix of `u` of length `n`.
    spec fn is_suffix(self, x: TermId, u: TermId, n: TermId) -> bool;

    /// `x` is the Skolem term that splits the unification of `t` and `s`:
    /// `(ite (>= (str.len t) (str.len s)) tb fb)`, where, for `Orientation::Prefix`, `tb` is what
    /// remains of `t` after `(str.len s)` characters and `fb` what remains of `s` after
    /// `(str.len t)` characters, and, for `Orientation::Suffix`, `tb` is the prefix of `t` of
    /// length `(- (str.len t) (str.len s))` and `fb` the prefix of `s` of length
    /// `(- (str.len s) (str.len t))`.
    spec fn is_unify_split(self, x: TermId, t: TermId, s: TermId, orientation: Orientation) -> bool;

    /// Builds `(str.substr u 0 n)`, the prefix of `u` of length `n`.
    fn build_str_prefix(&mut self, u: TermId, n: TermId) -> (x: TermId)
        requires
            old(self).valid(),
            old(self).holds(u),
            old(self).holds(n),
        ensures
            final(self).valid(),
            final(self).keeps(*old(self)),
            final(self).holds(x),
            final(self).is_prefix(x, u, n);

    /// Builds `(str.substr u n (- (str.len u) n))`, what remains of `u` after its first `n`
    /// characters.
    fn build_str_suffix_rem(&mut self, u: TermId, n: TermId) -> (x: TermId)
        requires
            old(self).valid(),
            old(self).holds(u),
            old(self).holds(n),
        ensures
            final(self).valid(),
            final(self).keeps(*old(self)),
            final(self).holds(x),
            final(self).is_suffix_rem(x, u, n);

    /// Builds `(str.substr u (- (str.len u) n) n)`, the suffix of `u` of length `n`.
    fn build_str_suffix(&mut self, u: TermId, n: TermId) -> (x: TermId)
        requires
            old(self).valid(),
            old(self).holds(u),
            old(self).holds(n),
        ensures
            final(self).valid(),
            final(self).keeps(*old(self)),
            final(self).holds(x),
            final(self).is_suffix(x, u, n);

    /// Builds the Skolem term for splitting the unification of `t` and `s` (see
    /// `is_unify_split`).
    fn build_str_unify_split(&mut self, t: TermId, s: TermId, orientation: Orientation) -> (x: TermId)
        requires
            old(self).valid(),
            old(self).holds(t),
            old(self).holds(s),
        ensures
            final(self).valid(),
            final(self).keeps(*old(self)),
            final(self).holds(x),
            final(self).is_unify_split(x, t, s, orientation);

    /// Builds the prefix unification splitting term of `t` and `s`.
    fn build_str_unify_split_prefix(&mut self, t: TermId, s: TermId) -> (x: TermId)
        requires
            old(self).valid(),
            old(self).holds(t),
            old(self).holds(s),
        ensures
            final(self).valid(),
            final(self).keeps(*old(self)),
            final(self).holds(x),
            final(self).is_unify_split(x, t, s, Orientation::Prefix),
    {
        self.build_str_unify_split(t, s, Orientation::Prefix)
    }

    /// Builds the suffix unification splitting term of `t` and `s`.
    fn build_str_unify_split_suffix(&mut self, t: TermId, s: TermId) -> (x: TermId)
        requires
            old(self).valid(),
            old(self).holds(t),
            old(self).holds(s),
        ensures
            final(self).valid(),
            final(self).keeps(*old(self)),
            final(self).holds(x),
            final(self).is_unify_split(x, t, s, Orientation::Suffix),
    {
        self.build_str_unify_split(t, s, Orientation::Suffix)
    }
}

/// Facts about the terms of a pool stay true in a pool that extends it.
proof fn lemma_keeps_applies(p2: PrimitivePool, p1: PrimitivePool, t: TermId, op: Operator, args: Seq<TermId>)
    requires
        extends(p2, p1),
        is_op(p1, t, op, args),
    ensures
        is_op(p2, t, op, args),
{
    crate::ast::pool::lemma_extends_args(p2, p1, t, op);
}

proof fn lemma_keeps_int(p2: PrimitivePool, p1: PrimitivePool, t: TermId, i: i64)
    requires
        extends(p2, p1),
        is_int(p1, t, i),
    ensures
        is_int(p2, t, i),
{
    assert(p2.node(t) == p1.node(t));
}

proof fn lemma_keeps_prefix(p2: PrimitivePool, p1: PrimitivePool, x: TermId, u: TermId, n: TermId)
    requires
        extends(p2, p1),
        p1.is_prefix(x, u, n),
    ensures
        p2.is_prefix(x, u, n),
{
    let z = choose|z: TermId| #[trigger] p1.integer(z, 0) && p1.app3(x, Operator::Substring, u, z, n);
    lemma_keeps_int(p2, p1, z, 0);
    lemma_keeps_applies(p2, p1, x, Operator::Substring, seq![u, z, n]);
    assert(p2.integer(z, 0) && p2.app3(x, Operator::Substring, u, z, n));
}

proof fn lemma_keeps_suffix_rem(p2: PrimitivePool, p1: PrimitivePool, x: TermId, u: TermId, n: TermId)
    requires
        extends(p2, p1),
        p1.is_suffix_rem(x, u, n),
    ensures
        p2.is_suffix_rem(x, u, n),
{
    let (l, m) = choose|l: TermId, m: TermId| #[trigger] p1.app1(l, Operator::StrLen, u)
        && #[trigger] p1.app2(m, Operator::Sub, l, n) && p1.app3(x, Operator::Substring, u, n, m);
    lemma_keeps_applies(p2, p1, l, Operator::StrLen, seq![u]);
    lemma_keeps_applies(p2, p1, m, Operator::Sub, seq![l, n]);
    lemma_keeps_applies(p2, p1, x, Operator::Substring, seq![u, n, m]);
    assert(p2.app1(l, Operator::StrLen, u) && p2.app2(m, Operator::Sub, l, n) && p2.app3(x, Operator::Substring, u, n, m));
}

impl StringTermBuilder for PrimitivePool {
    open spec fn valid(self) -> bool {
        self.wf()
    }

    open spec fn holds(self, t: TermId) -> bool {
        t < self.size()
    }

    open spec fn app1(self, t: TermId, op: Operator, a: TermId) -> bool {
        is_op(self, t, op, seq![a])
    }

    open spec fn app2(self, t: TermId, op: Operator, a: TermId, b: TermId) -> bool {
        is_op(self, t, op, seq![a, b])
    }

    open spec fn app3(self, t: TermId, op: Operator, a: TermId, b: TermId, c: TermId) -> bool {
        is_op(self, t, op, seq![a, b, c])
    }

    open spec fn integer(self, t: TermId, i: i64) -> bool {
        is_int(self, t, i)
    }

    open spec fn keeps(self, earlier: Self) -> bool {
        extends(self, earlier)
    }

    open spec fn is_prefix(self, x: TermId, u: TermId, n: TermId) -> bool {
        exists|z: TermId| #[trigger] self.integer(z, 0) && self.app3(x, Operator::Substring, u, z, n)
    }

    open spec fn is_suffix_rem(self, x: TermId, u: TermId, n: TermId) -> bool {
        exists|l: TermId, m: TermId| #[trigger] self.app1(l, Operator::StrLen, u)
            && #[trigger] self.app2(m, Operator::Sub, l, n) && self.app3(x, Operator::Substring, u, n, m)
    }

    open spec fn is_suffix(self, x: TermId, u: TermId, n: TermId) -> bool {
        exists|l: TermId, st: TermId| #[trigger] self.app1(l, Operator::StrLen, u)
            && #[trigger] self.app2(st, Operator::Sub, l, n) && self.app3(x, Operator::Substring, u, st, n)
    }

    open spec fn is_unify_split(self, x: TermId, t: TermId, s: TermId, orientation: Orientation) -> bool {
        exists|tl: TermId, sl: TermId, cond: TermId, tb: TermId, fb: TermId| {
            &&& #[trigger] self.app1(tl, Operator::StrLen, t)
            &&& #[trigger] self.app1(sl, Operator::StrLen, s)
            &&& self.app2(cond, Operator::GreaterEq, tl, sl)
            &&& #[trigger] self.app3(x, Operator::Ite, cond, tb, fb)
            &&& match orientation {
                Orientation::Prefix => self.is_suffix_rem(tb, t, sl) && self.is_suffix_rem(fb, s, tl),
                Orientation::Suffix => exists|nt: TermId, ns: TermId| {
                    &&& #[trigger] self.app2(nt, Operator::Sub, tl, sl)
                    &&& #[trigger] self.app2(ns, Operator::Sub, sl, tl)
                    &&& self.is_prefix(tb, t, nt)
                    &&& self.is_prefix(fb, s, ns)
                },
            }
        }
    }

    fn build_str_prefix(&mut self, u: TermId, n: TermId) -> (x: TermId) {
        let ghost p0 = *self;
        let z = self.add_int(0);
        let ghost p1 = *self;
        let x = self.add_op3(Operator::Substring, u, z, n);
        proof {
            lemma_extends_trans(*self, p1, p0);
            lemma_keeps_int(*self, p1, z, 0);
            assert(self.integer(z, 0));
        }
        x
    }

    fn build_str_suffix_rem(&mut self, u: TermId, n: TermId) -> (x: TermId) {
        let ghost p0 = *self;
        let l = self.add_op1(Operator::StrLen, u);
        let ghost p1 = *self;
        let m = self.add_op2(Operator::Sub, l, n);
        let ghost p2 = *self;
        let x = self.add_op3(Operator::Substring, u, n, m);
        proof {
            lemma_extends_trans(*self, p2, p1);
            lemma_extends_trans(*self, p1, p0);
            lemma_keeps_applies(*self, p1, l, Operator::StrLen, seq![u]);
            lemma_keeps_applies(*self, p2, m, Operator::Sub, seq![l, n]);
            assert(self.app1(l, Operator::StrLen, u) && self.app2(m, Operator::Sub, l, n));
        }
        x
    }

    fn build_str_suffix(&mut self, u: TermId, n: TermId) -> (x: TermId) {
        let ghost p0 = *self;
        let l = self.add_op1(Operator::StrLen, u);
        let ghost p1 = *self;
        let st = self.add_op2(Operator::Sub, l, n);
        let ghost p2 = *self;
        let x = self.add_op3(Operator::Substring, u, st, n);
        proof {
            lemma_extends_trans(*self, p2, p1);
            lemma_extends_trans(*self, p1, p0);
            lemma_keeps_applies(*self, p1, l, Operator::StrLen, seq![u]);
            lemma_keeps_applies(*self, p2, st, Operator::Sub, seq![l, n]);
            assert(self.app1(l, Operator::StrLen, u) && self.app2(st, Operator::Sub, l, n));
        }
        x
    }

    fn build_str_unify_split(&mut self, t: TermId, s: TermId, orientation: Orientation) -> (x: TermId) {
        let ghost p0 = *self;
        let t_len = self.add_op1(Operator::StrLen, t);
        let ghost p1 = *self;
        let s_len = self.add_op1(Operator::StrLen, s);
        let ghost p2 = *self;
        proof {
            lemma_keeps_applies(p2, p1, t_len, Operator::StrLen, seq![t]);
            lemma_extends_trans(p2, p1, p0);
        }
        let ghost mut nt_w: TermId = 0;
        let ghost mut ns_w: TermId = 0;
        let (true_branch, false_branch) = match orientation {
            Orientation::Prefix => {
                let tb = self.build_str_suffix_rem(t, s_len);
                let ghost p3 = *self;
                let fb = self.build_str_suffix_rem(s, t_len);
                proof {
                    lemma_keeps_suffix_rem(*self, p3, tb, t, s_len);
                    lemma_extends_trans(*self, p3, p2);
                }
                (tb, fb)
            },
            Orientation::Suffix => {
                let n_t = self.add_op2(Operator::Sub, t_len, s_len);
                let ghost p3 = *self;
                let n_s = self.add_op2(Operator::Sub, s_len, t_len);
                let ghost p4 = *self;
                let tb = self.build_str_prefix(t, n_t);
                let ghost p5 = *self;
                let fb = self.build_str_prefix(s, n_s);
                proof {
                    let pn = *self;
                    lemma_extends_trans(pn, p5, p4);
                    lemma_extends_trans(pn, p4, p3);
                    lemma_extends_trans(pn, p3, p2);
                    lemma_keeps_applies(pn, p3, n_t, Operator::Sub, seq![t_len, s_len]);
                    lemma_keeps_applies(pn, p4, n_s, Operator::Sub, seq![s_len, t_len]);
                    lemma_keeps_prefix(pn, p5, tb, t, n_t);
                    nt_w = n_t;
                    ns_w = n_s;
                }
                (tb, fb)
            },
        };
        let ghost p6 = *self;
        let cond = self.add_op2(Operator::GreaterEq, t_len, s_len);
        let ghost p7 = *self;
        let x = self.add_op3(Operator::Ite, cond, true_branch, false_branch);
        proof {
            let pf = *self;
            lemma_extends_trans(pf, p7, p6);
            lemma_extends_trans(pf, p6, p2);
            lemma_extends_trans(pf, p2, p0);
            lemma_keeps_applies(pf, p2, t_len, Operator::StrLen, seq![t]);
            lemma_keeps_applies(pf, p2, s_len, Operator::StrLen, seq![s]);
            lemma_keeps_applies(pf, p7, cond, Operator::GreaterEq, seq![t_len, s_len]);
            match orientation {
                Orientation::Prefix => {
                    lemma_keeps_suffix_rem(pf, p6, true_branch, t, s_len);
                    lemma_keeps_suffix_rem(pf, p6, false_branch, s, t_len);
                },
                Orientation::Suffix => {
                    lemma_keeps_prefix(pf, p6, true_branch, t, nt_w);
                    lemma_keeps_prefix(pf, p6, false_branch, s, ns_w);
                    lemma_keeps_applies(pf, p6, nt_w, Operator::Sub, seq![t_len, s_len]);
                    lemma_keeps_applies(pf, p6, ns_w, Operator::Sub, seq![s_len, t_len]);
                    assert(pf.app2(nt_w, Operator::Sub, t_len, s_len) && pf.app2(ns_w, Operator::Sub, s_len, t_len));
                },
            }
            assert(pf.app1(t_len, Operator::StrLen, t) && pf.app1(s_len, Operator::StrLen, s)
                && pf.app3(x, Operator::Ite, cond, true_branch, false_branch));
        }
        x
    }
}

/// The strings of the premises.
pub open spec fn premise_strings(premises: Seq<(TermId, TermId)>) -> Seq<TermId> {
    premises.map_values(|p: (TermId, TermId)| p.0)
}

/// The regular expressions of the premises.
pub open spec fn premise_regexes(premises: Seq<(TermId, TermId)>) -> Seq<TermId> {
    premises.map_values(|p: (TermId, TermId)| p.1)
}

/// What `make_automaton_from_string` gives for the term `t` and the premises `premises`, each a
/// string and the regular expression it matches, before the automaton is built: the
/// regular expressions, in order, when `t` concatenates exactly the strings of the premises, or
/// the first error.
pub open spec fn string_components(pool: PrimitivePool, t: TermId, premises: Seq<(TermId, TermId)>) -> Result<Seq<TermId>, CheckerError> {
    match args_of(pool, t, Operator::StrConcat) {
        None => Err(CheckerError::Str(StringError::NotBackwardableOperator(t))),
        Some(ss) => if ss.len() != premises.len() {
            Err(CheckerError::Str(StringError::ConcatTermsNumberDiffersFromPremiseTermsNumber(ss.len() as usize, premises.len() as usize)))
        } else {
            let strings = premise_strings(premises);
            match first_mismatch(ss, strings, ss.len() as int) {
                Some(k) => Err(CheckerError::TermEquality(ss[k], strings[k])),
                None => Ok(premise_regexes(premises)),
            }
        },
    }
}

/// The term `r` of the pool is the concatenation of the regular expressions `regexes`, and
/// `res` is what `Automaton::create_from_regex_operators` may give for it: an automaton of it
/// (see `denotes`), or an error where it may fail (see `regex_fails`).
pub open spec fn automaton_of_concat(pool: PrimitivePool, regexes: Seq<TermId>, r: TermId, res: Result<Automaton, CheckerError>) -> bool {
    &&& is_op(pool, r, Operator::ReConcat, regexes)
    &&& res matches Ok(a) ==> a.wf() && denotes(pool, r, a)
    &&& res is Err ==> regex_fails(pool, r)
}

#[verifier::external_type_specification]
#[verifier::external_body]
#[verifier::reject_recursive_types(K)]
#[verifier::reject_recursive_types(V)]
#[verifier::reject_recursive_types(S)]
pub struct ExIndexMap<K, V, S>(indexmap::IndexMap<K, V, S>);

/// The automata that a cache of automata holds, by the regular expression they were built for.
pub uninterp spec fn cache_contents(m: indexmap::IndexMap<TermId, Arc<Automaton>>) -> Map<TermId, Automaton>;

/// `indexmap::IndexMap::get`, with the automaton it finds shared: the automaton that the cache
/// holds for `regex`, or `None` when it holds none.
#[verifier::external_body]
fn cache_get(cache: &indexmap::IndexMap<TermId, Arc<Automaton>>, regex: TermId) -> (r: Option<Arc<Automaton>>)
    ensures
        r matches Some(a) ==> cache_contents(*cache).contains_key(regex) && *a == cache_contents(*cache)[regex],
        r is None ==> !cache_contents(*cache).contains_key(regex),
{
    cache.get(&regex).cloned()
}

/// `indexmap::IndexMap::insert`: the cache then holds `a` for `regex`, and keeps what it held for
/// the other regular expressions.
#[verifier::external_body]
fn cache_insert(cache: &mut indexmap::IndexMap<TermId, Arc<Automaton>>, regex: TermId, a: Arc<Automaton>)
    ensures
        cache_contents(*final(cache)) == cache_contents(*old(cache)).insert(regex, *a),
{
    cache.insert(regex, a);
}

/// Builds the automaton of the regular expression `regex`, or takes the one that `cache` holds
/// for it; a newly built automaton is added to the cache.
pub fn cached_automaton(
    pool: &mut PrimitivePool,
    cache: &mut indexmap::IndexMap<TermId, Arc<Automaton>>,
    regex: TermId,
) -> (res: Result<Arc<Automaton>, CheckerError>)
    requires
        old(pool).wf(),
        regex_wf_at(*old(pool), regex),
    ensures
        final(pool).wf(),
        extends(*final(pool), *old(pool)),
        cache_contents(*old(cache)).contains_key(regex) ==> (res matches Ok(a)
            && *a == cache_contents(*old(cache))[regex]
            && cache_contents(*final(cache)) == cache_contents(*old(cache))),
        !cache_contents(*old(cache)).contains_key(regex) ==> {
            &&& res matches Ok(a) ==> a.wf() && denotes(*old(pool), regex, *a)
                && cache_contents(*final(cache)) == cache_contents(*old(cache)).insert(regex, *a)
            &&& res is Err ==> regex_fails(*old(pool), regex) && cache_contents(*final(cache)) == cache_contents(*old(cache))
        },
{
    if let Some(a) = cache_get(cache, regex) {
        return Ok(a);
    }
    let a = match Automaton::create_from_regex_operators(pool, regex) {
        Ok(a) => Arc::new(a),
        Err(e) => {
            return Err(e);
        },
    };
    cache_insert(cache, regex, a.clone());
    Ok(a)
}

/// Builds the automaton of the string term `t` from the premises `(str.in_re s_i A_i)`, given as
/// the pairs `(s_i, A_i)`: `t` must be the concatenation `(str.++ s_0 ... s_n)`, and the result is
/// the automaton of `(re.++ A_0 ... A_n)`, which is added to the pool.
#[verifier::loop_isolation(false)]
#[verifier::spinoff_prover]
pub fn make_automaton_from_string(
    pool: &mut PrimitivePool,
    t: TermId,
    premise_automatas: Vec<(TermId, TermId)>,
) -> (res: Result<Automaton, CheckerError>)
    requires
        old(pool).wf(),
        t < old(pool).size(),
        forall|k: int| 0 <= k < premise_automatas@.len() ==> (#[trigger] premise_automatas@[k]).0 < old(pool).size()
            && regex_wf_at(*old(pool), premise_automatas@[k].1),
    ensures
        final(pool).wf(),
        extends(*final(pool), *old(pool)),
        res matches Ok(a) ==> a.wf(),
        string_components(*old(pool), t, premise_automatas@) matches Err(e) ==> res == Err::<Automaton, CheckerError>(e),
        string_components(*old(pool), t, premise_automatas@) is Ok ==> exists|r: TermId|
            #[trigger] automaton_of_concat(*final(pool), premise_regexes(premise_automatas@), r, res),
{
    let ss = match pool.op_args(t, Operator::StrConcat) {
        Some(ss) => ss,
        None => {
            return Err(CheckerError::Str(StringError::NotBackwardableOperator(t)));
        },
    };
    if ss.len() != premise_automatas.len() {
        return Err(CheckerError::Str(StringError::ConcatTermsNumberDiffersFromPremiseTermsNumber(ss.len(), premise_automatas.len())));
    }
    let ghost strings = premise_strings(premise_automatas@);
    let ghost regexes = premise_regexes(premise_automatas@);
    let mut components: Vec<TermId> = Vec::new();
    let mut index: usize = 0;
    while index < ss.len()
        invariant
            ss@.len() == premise_automatas@.len(),
            index <= ss@.len(),
            strings == premise_strings(premise_automatas@),
            first_mismatch(ss@, strings, index as int) is None,
            components@ == regexes.take(index as int),
            regexes == premise_regexes(premise_automatas@),
        decreases ss@.len() - index,
    {
        let w = ss[index];
        let premise_a = premise_automatas[index];
        assert(strings[index as int] == premise_a.0);
        if w != premise_a.0 {
            proof {
                lemma_mismatch_found(ss@, strings, index as int, ss@.len() as int);
            }
        }
        assert_same_term(w, premise_a.0)?;
        components.push(premise_a.1);
        assert(regexes.take(index + 1) =~= regexes.take(index as int).push(premise_a.1));
        index += 1;
    }
    assert(regexes.take(ss@.len() as int) =~= regexes);
    let ghost before = *pool;
    assert(before == *old(pool));
    assert forall|k: int| 0 <= k < components@.len() implies #[trigger] components@[k] < pool.size() by {
        assert(components@[k] == premise_automatas@[k].1);
    }
    let regex_a = pool.add_op(Operator::ReConcat, components);
    let ghost mid = *pool;
    proof {
        assert(is_op(mid, regex_a, Operator::ReConcat, regexes));
        mid.lemma_children_below(regex_a);
        assert(crate::ast::pool::children(mid.node(regex_a)) == regexes);
        assert forall|k: int| 0 <= k < regexes.len() implies #[trigger] regexes[k] < regex_a && regex_wf_at(mid, regexes[k]) by {
            assert(regexes[k] == premise_automatas@[k].1);
            assert(crate::ast::pool::children(mid.node(regex_a))[k] == regexes[k]);
            lemma_regex_wf_extends(mid, before, regexes[k]);
        }
        assert(regex_wf_at(mid, regex_a));
    }
    let res = Automaton::create_from_regex_operators(pool, regex_a);
    proof {
        lemma_extends_trans(*pool, mid, before);
        lemma_denotes_extends(*pool, mid, regex_a);
        lemma_fails_extends(*pool, mid, regex_a);
        assert(pool.node(regex_a) == mid.node(regex_a));
        assert(strings.len() == ss@.len());
        assert(string_components(before, t, premise_automatas@) == Ok::<Seq<TermId>, CheckerError>(regexes));
        assert(automaton_of_concat(*pool, regexes, regex_a, res));
        assert(regexes == premise_regexes(premise_automatas@));
        assert(exists|r: TermId| #[trigger] automaton_of_concat(*pool, premise_regexes(premise_automatas@), r, res));
    }
    res
}

/// Once a mismatch is found, it is the first one of every longer prefix.
proof fn lemma_mismatch_found(a: Seq<TermId>, b: Seq<TermId>, k: int, n: int)
    requires
        0 <= k < n,
        first_mismatch(a, b, k) is None,
        a[k] != b[k],
    ensures
        first_mismatch(a, b, n) == Some(k),
    decreases n - k,
{
    if n > k + 1 {
        lemma_mismatch_found(a, b, k, n - 1);
    }
}

} // verus!
