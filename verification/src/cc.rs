//! A proof-producing congruence closure: decides whether two terms are equal in every congruence
//! that contains a list of premise equalities, and explains such an equality by a proof whose
//! leaves are the premises.

use std::sync::Arc;
use vstd::prelude::*;

use crate::ast::pool::{children, same_ids, PrimitivePool};
use crate::ast::{Term, TermId};

verus! {

/// A shared proof of an equality. Sub-proofs are shared, so an explanation is a DAG, not a tree.
pub type EqProofRc = Arc<EqProof>;

/// A proof that `conclusion.0` and `conclusion.1` are equal, entailed by a set of premise
/// equalities.
pub struct EqProof {
    pub conclusion: (TermId, TermId),
    pub rule: EqProofRule,
}

/// The rule concluding an [`EqProof`], mirroring the Alethe rules `symm`, `refl`, `trans` and
/// `cong`, with premise equalities as leaves.
pub enum EqProofRule {
    /// The `index`-th premise equality, exactly as it was given.
    Premise(usize),
    /// Symmetry: the sub-proof concludes the flipped conclusion.
    Symm(EqProofRc),
    /// Reflexivity: the two terms in the conclusion are syntactically equal.
    Refl,
    /// Transitivity chain: each sub-proof concludes one link, and the links connect the two terms
    /// in the conclusion.
    Trans(Vec<EqProofRc>),
    /// Congruence: the conclusion terms are applications of the same head symbol, and each
    /// sub-proof concludes the equality of the corresponding pair of arguments. `None` means the
    /// pair is syntactically equal and needs no justification.
    Cong(Vec<Option<EqProofRc>>),
}

/// Whether a term is an application: of a function, or of an operator (possibly with parameters)
/// to at least one argument. Every other term is a leaf, equal only to itself.
pub open spec fn is_app(t: Term) -> bool {
    match t {
        Term::App(_, _) => true,
        Term::Op(_, x) => x@.len() > 0,
        Term::ParamOp { op: _, op_args: _, args: x } => x@.len() > 0,
        _ => false,
    }
}

/// The arguments of an application.
pub open spec fn app_args(t: Term) -> Seq<TermId> {
    match t {
        Term::App(_, x) => x@,
        Term::Op(_, x) => x@,
        Term::ParamOp { op: _, op_args: _, args: x } => x@,
        _ => Seq::empty(),
    }
}

/// Whether two applications have the same head symbol: the same function, the same operator, or
/// the same operator with the same parameters.
pub open spec fn same_head(s: Term, t: Term) -> bool {
    match (s, t) {
        (Term::App(f, _), Term::App(g, _)) => f == g,
        (Term::Op(o, _), Term::Op(p, _)) => o == p,
        (Term::ParamOp { op: o, op_args: oa, args: _ }, Term::ParamOp { op: p, op_args: pa, args: _ }) =>
            o == p && oa@ == pa@,
        _ => false,
    }
}

/// Whether the terms at `x` and `y` are applications of the same head symbol to the same number
/// of arguments.
pub open spec fn same_shape(pool: PrimitivePool, x: TermId, y: TermId) -> bool {
    &&& x < pool.size()
    &&& y < pool.size()
    &&& is_app(pool.node(x))
    &&& is_app(pool.node(y))
    &&& same_head(pool.node(x), pool.node(y))
    &&& app_args(pool.node(x)).len() == app_args(pool.node(y)).len()
}

/// Whether the relation `r` on terms of the pool is a congruence that contains the equalities
/// `eqs`: an equivalence, holding of each equality, and holding of two applications of the same
/// head symbol whose arguments it relates pairwise.
pub open spec fn is_congruence(
    pool: PrimitivePool,
    eqs: Seq<(TermId, TermId)>,
    r: spec_fn(TermId, TermId) -> bool,
) -> bool {
    &&& forall|x: TermId| #[trigger] r(x, x)
    &&& forall|x: TermId, y: TermId| #[trigger] r(x, y) ==> r(y, x)
    &&& forall|x: TermId, y: TermId, z: TermId| #[trigger] r(x, y) && #[trigger] r(y, z) ==> r(x, z)
    &&& forall|k: int| 0 <= k < eqs.len() ==> r(#[trigger] eqs[k].0, eqs[k].1)
    &&& forall|x: TermId, y: TermId|
        same_shape(pool, x, y) && (forall|k: int| 0 <= k < app_args(pool.node(x)).len()
            ==> r(#[trigger] app_args(pool.node(x))[k], app_args(pool.node(y))[k]))
        ==> #[trigger] r(x, y)
}

/// Whether `x` and `y` are equal in every congruence that contains the equalities `eqs`: in the
/// least such congruence.
pub open spec fn congruent(pool: PrimitivePool, eqs: Seq<(TermId, TermId)>, x: TermId, y: TermId) -> bool {
    forall|r: spec_fn(TermId, TermId) -> bool| is_congruence(pool, eqs, r) ==> #[trigger] r(x, y)
}

/// Whether `p` is a well-formed proof of its conclusion whose leaves are premises: the `k`-th
/// premise is the equality `eqs[k]`, given with the index `indices[k]`.
pub open spec fn proves(pool: PrimitivePool, eqs: Seq<(TermId, TermId)>, indices: Seq<usize>, p: EqProof) -> bool
    decreases p,
{
    let (c0, c1) = p.conclusion;
    match p.rule {
        EqProofRule::Premise(i) => exists|k: int| 0 <= k < eqs.len() && eqs[k] == p.conclusion && indices[k] == i,
        EqProofRule::Symm(q) => q.conclusion == (c1, c0) && proves(pool, eqs, indices, *q),
        EqProofRule::Refl => c0 == c1,
        EqProofRule::Trans(links) => {
            &&& links@.len() >= 2
            &&& links@[0].conclusion.0 == c0
            &&& links@[links@.len() - 1].conclusion.1 == c1
            &&& forall|j: int| 0 <= j < links@.len() - 1 ==> (#[trigger] links@[j]).conclusion.1 == links@[j + 1].conclusion.0
            &&& forall|j: int| 0 <= j < links@.len() ==> proves(pool, eqs, indices, *#[trigger] links@[j])
        },
        EqProofRule::Cong(args) => {
            &&& same_shape(pool, c0, c1)
            &&& args@.len() == app_args(pool.node(c0)).len()
            &&& forall|j: int| 0 <= j < args@.len() ==> match #[trigger] args@[j] {
                None => app_args(pool.node(c0))[j] == app_args(pool.node(c1))[j],
                Some(q) => q.conclusion == (app_args(pool.node(c0))[j], app_args(pool.node(c1))[j])
                    && proves(pool, eqs, indices, *q),
            }
        },
    }
}

/// The proof behind a shared proof.
pub open spec fn deref(q: EqProofRc) -> EqProof {
    *q
}

/// A chain of pairs in a transitive relation, each ending where the next starts, relates the
/// start of the first to the end of the last.
proof fn lemma_chain(r: spec_fn(TermId, TermId) -> bool, s: Seq<(TermId, TermId)>)
    requires
        s.len() >= 1,
        forall|x: TermId, y: TermId, z: TermId| #[trigger] r(x, y) && #[trigger] r(y, z) ==> r(x, z),
        forall|j: int| 0 <= j < s.len() ==> r(#[trigger] s[j].0, s[j].1),
        forall|j: int| 0 <= j < s.len() - 1 ==> (#[trigger] s[j]).1 == s[j + 1].0,
    ensures
        r(s[0].0, s[s.len() - 1].1),
    decreases s.len(),
{
    if s.len() > 1 {
        let t = s.drop_last();
        assert forall|j: int| 0 <= j < t.len() - 1 implies (#[trigger] t[j]).1 == t[j + 1].0 by {
            assert(s[j].1 == s[j + 1].0);
        }
        assert forall|j: int| 0 <= j < t.len() implies r(#[trigger] t[j].0, t[j].1) by {
            assert(r(s[j].0, s[j].1));
        }
        lemma_chain(r, t);
        assert(r(s[s.len() - 2].0, s[s.len() - 2].1));
        assert(r(s[s.len() - 1].0, s[s.len() - 1].1));
    }
}

/// What a proof proves holds in every congruence that contains the premises.
proof fn lemma_proves_in(
    pool: PrimitivePool,
    eqs: Seq<(TermId, TermId)>,
    indices: Seq<usize>,
    p: EqProof,
    r: spec_fn(TermId, TermId) -> bool,
)
    requires
        is_congruence(pool, eqs, r),
        proves(pool, eqs, indices, p),
    ensures
        r(p.conclusion.0, p.conclusion.1),
    decreases p,
{
    let (c0, c1) = p.conclusion;
    match p.rule {
        EqProofRule::Premise(i) => {
            let k = choose|k: int| 0 <= k < eqs.len() && eqs[k] == p.conclusion && indices[k] == i;
            assert(r(eqs[k].0, eqs[k].1));
        },
        EqProofRule::Symm(q) => {
            lemma_proves_in(pool, eqs, indices, deref(q), r);
            assert(r(c1, c0));
        },
        EqProofRule::Refl => {
            assert(r(c0, c0));
        },
        EqProofRule::Trans(links) => {
            let s = links@.map_values(|q: EqProofRc| q.conclusion);
            assert forall|j: int| 0 <= j < s.len() implies r(#[trigger] s[j].0, s[j].1) by {
                let q = links@[j];
                assert(proves(pool, eqs, indices, *q));
                lemma_proves_in(pool, eqs, indices, deref(q), r);
            }
            assert forall|j: int| 0 <= j < s.len() - 1 implies (#[trigger] s[j]).1 == s[j + 1].0 by {
                assert(links@[j].conclusion.1 == links@[j + 1].conclusion.0);
            }
            lemma_chain(r, s);
        },
        EqProofRule::Cong(args) => {
            let xs = app_args(pool.node(c0));
            let ys = app_args(pool.node(c1));
            assert forall|k: int| 0 <= k < xs.len() implies r(#[trigger] xs[k], ys[k]) by {
                match args@[k] {
                    None => {
                        assert(r(xs[k], xs[k]));
                    },
                    Some(q) => {
                        lemma_proves_in(pool, eqs, indices, deref(q), r);
                    },
                }
            }
            assert(r(c0, c1));
        },
    }
}

/// Soundness of explanations: what a proof whose leaves are premises proves holds in the least
/// congruence that contains the premises.
pub proof fn lemma_proves_congruent(
    pool: PrimitivePool,
    eqs: Seq<(TermId, TermId)>,
    indices: Seq<usize>,
    p: EqProof,
)
    requires
        proves(pool, eqs, indices, p),
    ensures
        congruent(pool, eqs, p.conclusion.0, p.conclusion.1),
{
    assert forall|r: spec_fn(TermId, TermId) -> bool| is_congruence(pool, eqs, r) implies #[trigger] r(p.conclusion.0, p.conclusion.1) by {
        lemma_proves_in(pool, eqs, indices, p, r);
    }
}

/// The arguments of an application are below it in a well-formed pool.
proof fn lemma_app_args_below(pool: PrimitivePool, x: TermId)
    requires
        pool.wf(),
        x < pool.size(),
    ensures
        forall|k: int| 0 <= k < app_args(pool.node(x)).len() ==> #[trigger] app_args(pool.node(x))[k] < x,
{
    pool.lemma_children_below(x);
    let t = pool.node(x);
    assert forall|k: int| 0 <= k < app_args(t).len() implies #[trigger] app_args(t)[k] < x by {
        match t {
            Term::App(f, a) => {
                assert(children(t)[k + 1] == a@[k]);
            },
            Term::Op(_, a) => {
                assert(children(t)[k] == a@[k]);
            },
            Term::ParamOp { op: _, op_args: oa, args: a } => {
                assert(children(t)[oa@.len() + k] == a@[k]);
            },
            _ => {},
        }
    }
}

/// The arguments of a term, if it is an application.
fn app_view(t: &Term) -> (r: Option<&Vec<TermId>>)
    ensures
        r is Some <==> is_app(*t),
        r matches Some(v) ==> v@ == app_args(*t),
{
    match t {
        Term::App(_, x) => Some(x),
        Term::Op(_, x) => if x.len() > 0 { Some(x) } else { None },
        Term::ParamOp { op: _, op_args: _, args: x } => if x.len() > 0 { Some(x) } else { None },
        _ => None,
    }
}

/// Whether two terms have the same head symbol.
fn heads_match(s: &Term, t: &Term) -> (res: bool)
    ensures
        res == same_head(*s, *t),
{
    match (s, t) {
        (Term::App(f, _), Term::App(g, _)) => *f == *g,
        (Term::Op(o, _), Term::Op(p, _)) => *o == *p,
        (Term::ParamOp { op: o, op_args: oa, args: _ }, Term::ParamOp { op: p, op_args: pa, args: _ }) =>
            *o == *p && same_ids(oa, pa),
        _ => false,
    }
}

/// The proof of the flipped conclusion by symmetry.
fn symm(p: EqProofRc) -> (s: EqProofRc)
    ensures
        s.conclusion == (p.conclusion.1, p.conclusion.0),
        s.rule == EqProofRule::Symm(p),
{
    let conclusion = (p.conclusion.1, p.conclusion.0);
    Arc::new(EqProof { conclusion, rule: EqProofRule::Symm(p) })
}

/// The number of labels that are their own index, among the first `m`.
spec fn num_roots(labels: Seq<usize>, m: int) -> nat
    decreases m,
{
    if m <= 0 {
        0
    } else {
        num_roots(labels, m - 1) + (if labels[m - 1] == m - 1 { 1nat } else { 0nat })
    }
}

proof fn lemma_num_roots_same(s: Seq<usize>, t: Seq<usize>, m: int)
    requires
        0 <= m <= s.len(),
        m <= t.len(),
        forall|i: int| 0 <= i < m ==> (s[i] == i <==> t[i] == i),
    ensures
        num_roots(t, m) == num_roots(s, m),
    decreases m,
{
    if m > 0 {
        lemma_num_roots_same(s, t, m - 1);
    }
}

proof fn lemma_num_roots_drop(s: Seq<usize>, t: Seq<usize>, j: int, m: int)
    requires
        0 <= j < m <= s.len(),
        m <= t.len(),
        s[j] == j,
        t[j] != j,
        forall|i: int| 0 <= i < m && i != j ==> (s[i] == i <==> t[i] == i),
    ensures
        num_roots(t, m) < num_roots(s, m),
    decreases m,
{
    if m - 1 == j {
        lemma_num_roots_same(s, t, m - 1);
    } else {
        lemma_num_roots_drop(s, t, j, m - 1);
    }
}

/// The state of the closure over the terms of the pool: each term has a label, the term that
/// stands for its class, which is its own label, and a proof that it equals its label.
spec fn classes_ok(
    pool: PrimitivePool,
    eqs: Seq<(TermId, TermId)>,
    indices: Seq<usize>,
    labels: Seq<usize>,
    proofs: Seq<EqProofRc>,
) -> bool {
    &&& labels.len() == pool.size()
    &&& proofs.len() == pool.size()
    &&& forall|i: int| 0 <= i < labels.len() ==> {
        &&& (#[trigger] labels[i]) < labels.len()
        &&& labels[labels[i] as int] == labels[i]
        &&& proofs[i].conclusion == (i as TermId, labels[i])
        &&& proves(pool, eqs, indices, *proofs[i])
    }
}

/// Merges the class of `r` into that of `l`, given a proof `q` of `l = r`.
fn merge(
    labels: &mut Vec<usize>,
    proofs: &mut Vec<EqProofRc>,
    l: usize,
    r: usize,
    q: EqProofRc,
    Ghost(pool): Ghost<PrimitivePool>,
    Ghost(eqs): Ghost<Seq<(TermId, TermId)>>,
    Ghost(indices): Ghost<Seq<usize>>,
)
    requires
        classes_ok(pool, eqs, indices, old(labels)@, old(proofs)@),
        l < old(labels)@.len(),
        r < old(labels)@.len(),
        q.conclusion == (l, r),
        proves(pool, eqs, indices, *q),
    ensures
        classes_ok(pool, eqs, indices, final(labels)@, final(proofs)@),
        forall|i: int| 0 <= i < old(labels)@.len() ==> #[trigger] final(labels)@[i] == (
            if old(labels)@[i] == old(labels)@[r as int] { old(labels)@[l as int] } else { old(labels)@[i] }),
{
    let ll = labels[l];
    let lr = labels[r];
    if ll == lr {
        return;
    }
    let ghost old_labels = labels@;
    let pl = proofs[l].clone();
    let pr = proofs[r].clone();
    assert(proves(pool, eqs, indices, *proofs@[r as int]));
    assert(proves(pool, eqs, indices, *proofs@[l as int]));
    let s1 = symm(pr);
    let s2 = symm(q);
    let back = Arc::new(EqProof { conclusion: (lr, ll), rule: EqProofRule::Trans(vec![s1, s2, pl]) });
    assert(proves(pool, eqs, indices, *back)) by {
        let links = back.rule->Trans_0@;
        assert(links =~= seq![s1, s2, pl]);
        assert(proves(pool, eqs, indices, *s1));
        assert(proves(pool, eqs, indices, *s2));
    }
    let n = labels.len();
    let mut i: usize = 0;
    while i < n
        invariant
            n == labels@.len() == proofs@.len() == old_labels.len() == pool.size(),
            ll < n,
            lr < n,
            ll != lr,
            old_labels[ll as int] == ll,
            old_labels[lr as int] == lr,
            back.conclusion == (lr, ll),
            proves(pool, eqs, indices, *back),
            forall|k: int| 0 <= k < n ==> (#[trigger] old_labels[k]) < n && old_labels[old_labels[k] as int] == old_labels[k],
            forall|k: int| 0 <= k < i ==> #[trigger] labels@[k] == (if old_labels[k] == lr { ll } else { old_labels[k] }),
            forall|k: int| i <= k < n ==> #[trigger] labels@[k] == old_labels[k],
            forall|k: int| 0 <= k < n ==> (#[trigger] proofs@[k]).conclusion == (k as TermId, labels@[k])
                && proves(pool, eqs, indices, *proofs@[k]),
        decreases n - i,
    {
        if labels[i] == lr {
            let pi = proofs[i].clone();
            let np = Arc::new(EqProof { conclusion: (i, ll), rule: EqProofRule::Trans(vec![pi, back.clone()]) });
            proofs.set(i, np);
            labels.set(i, ll);
        }
        i += 1;
    }
    assert forall|k: int| 0 <= k < n implies {
        &&& (#[trigger] labels@[k]) < n
        &&& labels@[labels@[k] as int] == labels@[k]
    } by {
        let c = old_labels[k];
        if c == lr {
            assert(labels@[ll as int] == ll);
        } else {
            assert(old_labels[c as int] == c);
            assert(labels@[c as int] == c);
        }
    }
}

/// The pairs of terms of a list of equalities given with their indices.
pub open spec fn eq_pairs(e: Seq<(TermId, TermId, usize)>) -> Seq<(TermId, TermId)> {
    e.map_values(|t: (TermId, TermId, usize)| (t.0, t.1))
}

/// The indices of a list of equalities given with their indices.
pub open spec fn eq_indices(e: Seq<(TermId, TermId, usize)>) -> Seq<usize> {
    e.map_values(|t: (TermId, TermId, usize)| t.2)
}

/// Whether `x` and `y` are applications of the same head symbol whose arguments have pairwise
/// the same labels, while they have different labels themselves.
spec fn violating(pool: PrimitivePool, labels: Seq<usize>, x: TermId, y: TermId) -> bool {
    &&& same_shape(pool, x, y)
    &&& labels[x as int] != labels[y as int]
    &&& forall|k: int| 0 <= k < app_args(pool.node(x)).len()
        ==> labels[#[trigger] app_args(pool.node(x))[k] as int] == labels[app_args(pool.node(y))[k] as int]
}

/// Whether the terms at `x` and `y` form a pair that [`violating`] describes.
fn check_violation(pool: &PrimitivePool, labels: &Vec<usize>, x: TermId, y: TermId) -> (res: bool)
    requires
        pool.wf(),
        labels@.len() == pool.size(),
        x < pool.size(),
        y < pool.size(),
    ensures
        res == violating(*pool, labels@, x, y),
{
    let s = pool.get(x);
    let t = pool.get(y);
    match (app_view(s), app_view(t)) {
        (Some(xs), Some(ys)) => {
            if !heads_match(s, t) || xs.len() != ys.len() || labels[x] == labels[y] {
                return false;
            }
            proof {
                lemma_app_args_below(*pool, x);
                lemma_app_args_below(*pool, y);
            }
            for k in 0..xs.len()
                invariant
                    xs@ == app_args(pool.node(x)),
                    ys@ == app_args(pool.node(y)),
                    xs@.len() == ys@.len(),
                    labels@.len() == pool.size(),
                    x < pool.size(),
                    y < pool.size(),
                    forall|j: int| 0 <= j < xs@.len() ==> #[trigger] xs@[j] < x && ys@[j] < y,
                    forall|j: int| 0 <= j < k ==> labels@[#[trigger] xs@[j] as int] == labels@[ys@[j] as int],
            {
                if labels[xs[k]] != labels[ys[k]] {
                    return false;
                }
            }
            true
        },
        _ => false,
    }
}

/// A proof of `x = y` by congruence, for applications of the same head symbol whose arguments
/// have pairwise the same labels.
fn cong_proof(
    pool: &PrimitivePool,
    labels: &Vec<usize>,
    proofs: &Vec<EqProofRc>,
    x: TermId,
    y: TermId,
    Ghost(eqs): Ghost<Seq<(TermId, TermId)>>,
    Ghost(indices): Ghost<Seq<usize>>,
) -> (q: EqProofRc)
    requires
        pool.wf(),
        classes_ok(*pool, eqs, indices, labels@, proofs@),
        violating(*pool, labels@, x, y),
    ensures
        q.conclusion == (x, y),
        proves(*pool, eqs, indices, *q),
{
    let xs = app_view(pool.get(x)).unwrap();
    let ys = app_view(pool.get(y)).unwrap();
    proof {
        lemma_app_args_below(*pool, x);
        lemma_app_args_below(*pool, y);
    }
    let mut args: Vec<Option<EqProofRc>> = Vec::new();
    for k in 0..xs.len()
        invariant
            xs@ == app_args(pool.node(x)),
            ys@ == app_args(pool.node(y)),
            xs@.len() == ys@.len(),
            classes_ok(*pool, eqs, indices, labels@, proofs@),
            x < pool.size(),
            y < pool.size(),
            forall|j: int| 0 <= j < xs@.len() ==> #[trigger] xs@[j] < x && ys@[j] < y,
            forall|j: int| 0 <= j < xs@.len() ==> labels@[#[trigger] xs@[j] as int] == labels@[ys@[j] as int],
            args@.len() == k,
            forall|j: int| 0 <= j < k ==> match #[trigger] args@[j] {
                None => xs@[j] == ys@[j],
                Some(q) => q.conclusion == (xs@[j], ys@[j]) && proves(*pool, eqs, indices, *q),
            },
    {
        let a = xs[k];
        let b = ys[k];
        if a == b {
            args.push(None);
        } else {
            assert(labels@[a as int] == labels@[b as int]);
            assert(proves(*pool, eqs, indices, *proofs@[a as int]));
            assert(proves(*pool, eqs, indices, *proofs@[b as int]));
            let pa = proofs[a].clone();
            let pb = symm(proofs[b].clone());
            let link = Arc::new(EqProof { conclusion: (a, b), rule: EqProofRule::Trans(vec![pa, pb]) });
            assert(proves(*pool, eqs, indices, *link)) by {
                assert(link.rule->Trans_0@ =~= seq![pa, pb]);
                assert(proves(*pool, eqs, indices, *pb));
            }
            args.push(Some(link));
        }
    }
    Arc::new(EqProof { conclusion: (x, y), rule: EqProofRule::Cong(args) })
}

/// A merge of two different classes leaves one class fewer.
proof fn lemma_merge_drops_root(before: Seq<usize>, after: Seq<usize>, l: int, r: int)
    requires
        before.len() == after.len(),
        0 <= l < before.len(),
        0 <= r < before.len(),
        before[l] != before[r],
        forall|i: int| 0 <= i < before.len() ==> (#[trigger] before[i]) < before.len() && before[before[i] as int] == before[i],
        forall|i: int| 0 <= i < before.len() ==> #[trigger] after[i] == (if before[i] == before[r] { before[l] } else { before[i] }),
    ensures
        num_roots(after, before.len() as int) < num_roots(before, before.len() as int),
{
    let lr = before[r] as int;
    let ll = before[l] as int;
    assert(before[lr] == lr);
    assert(before[ll] == ll);
    assert(after[lr] == ll);
    assert forall|i: int| 0 <= i < before.len() && i != lr implies (before[i] == i <==> after[i] == i) by {
        if before[i] == lr {
            assert(after[i] == ll);
        }
    }
    lemma_num_roots_drop(before, after, lr, before.len() as int);
}

/// The closure of the equalities over the terms of the pool: the label and the proof of each
/// term, once every equality is merged and no pair of terms calls for a merge by congruence.
fn closure(pool: &PrimitivePool, eqs: &Vec<(TermId, TermId, usize)>) -> (res: (Vec<usize>, Vec<EqProofRc>))
    requires
        pool.wf(),
        forall|k: int| 0 <= k < eqs@.len() ==> (#[trigger] eqs@[k]).0 < pool.size() && eqs@[k].1 < pool.size(),
    ensures
        classes_ok(*pool, eq_pairs(eqs@), eq_indices(eqs@), res.0@, res.1@),
        forall|k: int| 0 <= k < eqs@.len() ==> res.0@[(#[trigger] eqs@[k]).0 as int] == res.0@[eqs@[k].1 as int],
        forall|x: TermId, y: TermId| x < pool.size() && y < pool.size() ==> !#[trigger] violating(*pool, res.0@, x, y),
{
    let ghost ps = eq_pairs(eqs@);
    let ghost ix = eq_indices(eqs@);
    let n = pool.len();
    let mut labels: Vec<usize> = Vec::new();
    let mut proofs: Vec<EqProofRc> = Vec::new();
    let mut i: usize = 0;
    while i < n
        invariant
            n == pool.size(),
            i <= n,
            labels@.len() == i,
            proofs@.len() == i,
            forall|k: int| 0 <= k < i ==> #[trigger] labels@[k] == k && proofs@[k].conclusion == (k as TermId, k as TermId)
                && proofs@[k].rule == EqProofRule::Refl,
        decreases n - i,
    {
        let p = Arc::new(EqProof { conclusion: (i, i), rule: EqProofRule::Refl });
        labels.push(i);
        proofs.push(p);
        assert(proofs@[i as int] == p);
        i += 1;
    }
    assert(classes_ok(*pool, ps, ix, labels@, proofs@)) by {
        assert forall|i: int| 0 <= i < labels@.len() implies proves(*pool, ps, ix, *proofs@[i]) by {
            assert(labels@[i] == i);
        }
    }
    for k in 0..eqs.len()
        invariant
            pool.wf(),
            classes_ok(*pool, ps, ix, labels@, proofs@),
            ps == eq_pairs(eqs@),
            ix == eq_indices(eqs@),
            forall|j: int| 0 <= j < eqs@.len() ==> (#[trigger] eqs@[j]).0 < pool.size() && eqs@[j].1 < pool.size(),
            forall|j: int| 0 <= j < k ==> labels@[(#[trigger] eqs@[j]).0 as int] == labels@[eqs@[j].1 as int],
    {
        let (l, r, index) = eqs[k];
        let q = Arc::new(EqProof { conclusion: (l, r), rule: EqProofRule::Premise(index) });
        assert(ps[k as int] == (l, r) && ix[k as int] == index);
        let ghost before = labels@;
        merge(&mut labels, &mut proofs, l, r, q, Ghost(*pool), Ghost(ps), Ghost(ix));
        assert forall|j: int| 0 <= j < k + 1 implies labels@[(#[trigger] eqs@[j]).0 as int] == labels@[eqs@[j].1 as int] by {
            assert(labels@[eqs@[j].0 as int] == (if before[eqs@[j].0 as int] == before[r as int] { before[l as int] } else { before[eqs@[j].0 as int] }));
            assert(labels@[eqs@[j].1 as int] == (if before[eqs@[j].1 as int] == before[r as int] { before[l as int] } else { before[eqs@[j].1 as int] }));
        }
    }
    let mut changed = true;
    while changed
        invariant
            pool.wf(),
            n == pool.size(),
            classes_ok(*pool, ps, ix, labels@, proofs@),
            ps == eq_pairs(eqs@),
            ix == eq_indices(eqs@),
            forall|j: int| 0 <= j < eqs@.len() ==> (#[trigger] eqs@[j]).0 < pool.size() && eqs@[j].1 < pool.size(),
            forall|j: int| 0 <= j < eqs@.len() ==> labels@[(#[trigger] eqs@[j]).0 as int] == labels@[eqs@[j].1 as int],
            !changed ==> forall|x: TermId, y: TermId| x < n && y < n ==> !#[trigger] violating(*pool, labels@, x, y),
        decreases num_roots(labels@, n as int) + (if changed { 1int } else { 0int }),
    {
        changed = false;
        let ghost start = labels@;
        let mut x: usize = 0;
        while x < n
            invariant
                pool.wf(),
                n == pool.size(),
                x <= n,
                classes_ok(*pool, ps, ix, labels@, proofs@),
                ps == eq_pairs(eqs@),
                ix == eq_indices(eqs@),
                forall|j: int| 0 <= j < eqs@.len() ==> (#[trigger] eqs@[j]).0 < pool.size() && eqs@[j].1 < pool.size(),
                forall|j: int| 0 <= j < eqs@.len() ==> labels@[(#[trigger] eqs@[j]).0 as int] == labels@[eqs@[j].1 as int],
                changed ==> num_roots(labels@, n as int) < num_roots(start, n as int),
                !changed ==> labels@ == start,
                !changed ==> forall|x2: TermId, y: TermId| x2 < x && y < n ==> !#[trigger] violating(*pool, labels@, x2, y),
            decreases n - x,
        {
            let mut y: usize = 0;
            while y < n
                invariant
                    pool.wf(),
                    n == pool.size(),
                    x < n,
                    y <= n,
                    classes_ok(*pool, ps, ix, labels@, proofs@),
                    ps == eq_pairs(eqs@),
                    ix == eq_indices(eqs@),
                    forall|j: int| 0 <= j < eqs@.len() ==> (#[trigger] eqs@[j]).0 < pool.size() && eqs@[j].1 < pool.size(),
                    forall|j: int| 0 <= j < eqs@.len() ==> labels@[(#[trigger] eqs@[j]).0 as int] == labels@[eqs@[j].1 as int],
                    changed ==> num_roots(labels@, n as int) < num_roots(start, n as int),
                    !changed ==> labels@ == start,
                    !changed ==> forall|x2: TermId, y2: TermId| x2 < x && y2 < n ==> !#[trigger] violating(*pool, labels@, x2, y2),
                    !changed ==> forall|y2: TermId| y2 < y ==> !#[trigger] violating(*pool, labels@, x, y2),
                decreases n - y,
            {
                if check_violation(pool, &labels, x, y) {
                    let q = cong_proof(pool, &labels, &proofs, x, y, Ghost(ps), Ghost(ix));
                    let ghost before = labels@;
                    merge(&mut labels, &mut proofs, x, y, q, Ghost(*pool), Ghost(ps), Ghost(ix));
                    proof {
                        lemma_merge_drops_root(before, labels@, x as int, y as int);
                        assert forall|j: int| 0 <= j < eqs@.len() implies labels@[(#[trigger] eqs@[j]).0 as int] == labels@[eqs@[j].1 as int] by {
                            assert(labels@[eqs@[j].0 as int] == (if before[eqs@[j].0 as int] == before[y as int] { before[x as int] } else { before[eqs@[j].0 as int] }));
                            assert(labels@[eqs@[j].1 as int] == (if before[eqs@[j].1 as int] == before[y as int] { before[x as int] } else { before[eqs@[j].1 as int] }));
                        }
                    }
                    changed = true;
                }
                y += 1;
            }
            x += 1;
        }
    }
    (labels, proofs)
}

/// Two terms congruent to a third are congruent.
proof fn lemma_congruent_join(pool: PrimitivePool, eqs: Seq<(TermId, TermId)>, a: TermId, b: TermId, c: TermId)
    requires
        congruent(pool, eqs, a, c),
        congruent(pool, eqs, b, c),
    ensures
        congruent(pool, eqs, a, b),
{
    assert forall|r: spec_fn(TermId, TermId) -> bool| is_congruence(pool, eqs, r) implies #[trigger] r(a, b) by {
        assert(r(a, c));
        assert(r(b, c));
        assert(r(c, b));
    }
}

/// Once every equality is merged and no pair calls for a merge by congruence, two terms that are
/// congruent have the same label: having the same label is itself a congruence.
proof fn lemma_complete(pool: PrimitivePool, eqs: Seq<(TermId, TermId)>, labels: Seq<usize>, a: TermId, b: TermId)
    requires
        pool.wf(),
        labels.len() == pool.size(),
        forall|k: int| 0 <= k < eqs.len() ==> (#[trigger] eqs[k]).0 < pool.size() && eqs[k].1 < pool.size()
            && labels[eqs[k].0 as int] == labels[eqs[k].1 as int],
        forall|x: TermId, y: TermId| x < pool.size() && y < pool.size() ==> !#[trigger] violating(pool, labels, x, y),
        congruent(pool, eqs, a, b),
        a < pool.size(),
        b < pool.size(),
    ensures
        labels[a as int] == labels[b as int],
{
    let n = pool.size();
    let r = |x: TermId, y: TermId| x == y || (x < n && y < n && labels[x as int] == labels[y as int]);
    assert forall|k: int| 0 <= k < eqs.len() implies r(#[trigger] eqs[k].0, eqs[k].1) by {
        assert(eqs[k].0 < n && eqs[k].1 < n && labels[eqs[k].0 as int] == labels[eqs[k].1 as int]);
    }
    assert forall|x: TermId, y: TermId|
        same_shape(pool, x, y) && (forall|k: int| 0 <= k < app_args(pool.node(x)).len()
            ==> r(#[trigger] app_args(pool.node(x))[k], app_args(pool.node(y))[k]))
        implies #[trigger] r(x, y) by {
        lemma_app_args_below(pool, x);
        lemma_app_args_below(pool, y);
        let xs = app_args(pool.node(x));
        let ys = app_args(pool.node(y));
        assert forall|k: int| 0 <= k < xs.len() implies labels[#[trigger] xs[k] as int] == labels[ys[k] as int] by {
            assert(r(xs[k], ys[k]));
        }
        assert(!violating(pool, labels, x, y));
    }
    assert(is_congruence(pool, eqs, r));
    assert(r(a, b));
}

/// The relation [`congruent`] is itself a congruence that contains the equalities: with the
/// definition, it is the least one.
pub proof fn lemma_congruent_is_congruence(pool: PrimitivePool, eqs: Seq<(TermId, TermId)>)
    ensures
        is_congruence(pool, eqs, |x: TermId, y: TermId| congruent(pool, eqs, x, y)),
{
    let c = |x: TermId, y: TermId| congruent(pool, eqs, x, y);
    assert forall|x: TermId| #[trigger] c(x, x) by {
        assert forall|r: spec_fn(TermId, TermId) -> bool| is_congruence(pool, eqs, r) implies #[trigger] r(x, x) by {}
    }
    assert forall|x: TermId, y: TermId| #[trigger] c(x, y) implies c(y, x) by {
        assert forall|r: spec_fn(TermId, TermId) -> bool| is_congruence(pool, eqs, r) implies #[trigger] r(y, x) by {
            assert(r(x, y));
        }
    }
    assert forall|x: TermId, y: TermId, z: TermId| #[trigger] c(x, y) && #[trigger] c(y, z) implies c(x, z) by {
        assert forall|r: spec_fn(TermId, TermId) -> bool| is_congruence(pool, eqs, r) implies #[trigger] r(x, z) by {
            assert(r(x, y));
            assert(r(y, z));
        }
    }
    assert forall|k: int| 0 <= k < eqs.len() implies c(#[trigger] eqs[k].0, eqs[k].1) by {
        assert forall|r: spec_fn(TermId, TermId) -> bool| is_congruence(pool, eqs, r) implies #[trigger] r(eqs[k].0, eqs[k].1) by {}
    }
    assert forall|x: TermId, y: TermId|
        same_shape(pool, x, y) && (forall|k: int| 0 <= k < app_args(pool.node(x)).len()
            ==> c(#[trigger] app_args(pool.node(x))[k], app_args(pool.node(y))[k]))
        implies #[trigger] c(x, y) by {
        assert forall|r: spec_fn(TermId, TermId) -> bool| is_congruence(pool, eqs, r) implies #[trigger] r(x, y) by {
            assert forall|k: int| 0 <= k < app_args(pool.node(x)).len()
                implies r(#[trigger] app_args(pool.node(x))[k], app_args(pool.node(y))[k]) by {
                assert(c(app_args(pool.node(x))[k], app_args(pool.node(y))[k]));
            }
        }
    }
}

/// A congruence closure over the premise equalities added so far.
pub struct CongruenceClosure {
    /// The premise equalities, each with the index it was given.
    equalities: Vec<(TermId, TermId, usize)>,
}

impl CongruenceClosure {
    /// The premise equalities added since the last reset, in order.
    pub closed spec fn premises(&self) -> Seq<(TermId, TermId)> {
        eq_pairs(self.equalities@)
    }

    /// The index given with each premise equality.
    pub closed spec fn indices(&self) -> Seq<usize> {
        eq_indices(self.equalities@)
    }

    /// A congruence closure with no premise.
    pub fn new() -> (cc: Self)
        ensures
            cc.premises() == Seq::<(TermId, TermId)>::empty(),
            cc.indices() == Seq::<usize>::empty(),
    {
        let cc = CongruenceClosure { equalities: Vec::new() };
        assert(cc.premises() =~= Seq::<(TermId, TermId)>::empty());
        assert(cc.indices() =~= Seq::<usize>::empty());
        cc
    }

    /// Removes every premise equality.
    pub fn reset(&mut self)
        ensures
            final(self).premises() == Seq::<(TermId, TermId)>::empty(),
            final(self).indices() == Seq::<usize>::empty(),
    {
        self.equalities.clear();
        assert(self.premises() =~= Seq::<(TermId, TermId)>::empty());
        assert(self.indices() =~= Seq::<usize>::empty());
    }

    /// Adds the `index`-th premise equality, `lhs = rhs`, between two terms of the pool.
    pub fn add_equality(&mut self, pool: &PrimitivePool, lhs: TermId, rhs: TermId, index: usize)
        requires
            lhs < pool.size(),
            rhs < pool.size(),
        ensures
            final(self).premises() == old(self).premises().push((lhs, rhs)),
            final(self).indices() == old(self).indices().push(index),
    {
        self.equalities.push((lhs, rhs, index));
        assert(self.premises() =~= old(self).premises().push((lhs, rhs)));
        assert(self.indices() =~= old(self).indices().push(index));
    }

    /// Whether the two terms are equal in every congruence that contains the premises.
    pub fn are_congruent(&mut self, pool: &PrimitivePool, a: TermId, b: TermId) -> (res: bool)
        requires
            pool.wf(),
            a < pool.size(),
            b < pool.size(),
            forall|k: int| 0 <= k < old(self).premises().len()
                ==> (#[trigger] old(self).premises()[k]).0 < pool.size() && old(self).premises()[k].1 < pool.size(),
        ensures
            *final(self) == *old(self),
            res == congruent(*pool, old(self).premises(), a, b),
    {
        proof {
            assert forall|k: int| 0 <= k < self.equalities@.len() implies (#[trigger] self.equalities@[k]).0 < pool.size()
                && self.equalities@[k].1 < pool.size() by {
                assert(self.premises()[k] == (self.equalities@[k].0, self.equalities@[k].1));
            }
        }
        let (labels, proofs) = closure(pool, &self.equalities);
        let res = labels[a] == labels[b];
        proof {
            let eqs = self.premises();
            let ix = self.indices();
            if res {
                lemma_proves_congruent(*pool, eqs, ix, deref(proofs@[a as int]));
                lemma_proves_congruent(*pool, eqs, ix, deref(proofs@[b as int]));
                lemma_congruent_join(*pool, eqs, a, b, labels@[a as int]);
            }
            if congruent(*pool, eqs, a, b) {
                assert forall|k: int| 0 <= k < eqs.len() implies (#[trigger] eqs[k]).0 < pool.size() && eqs[k].1 < pool.size()
                    && labels@[eqs[k].0 as int] == labels@[eqs[k].1 as int] by {
                    assert(eqs[k] == (self.equalities@[k].0, self.equalities@[k].1));
                }
                lemma_complete(*pool, eqs, labels@, a, b);
            }
        }
        res
    }

    /// A proof that the two terms are equal, whose leaves are the premises, or `None` if they
    /// are not congruent.
    pub fn explain(&mut self, pool: &PrimitivePool, a: TermId, b: TermId) -> (r: Option<EqProofRc>)
        requires
            pool.wf(),
            a < pool.size(),
            b < pool.size(),
            forall|k: int| 0 <= k < old(self).premises().len()
                ==> (#[trigger] old(self).premises()[k]).0 < pool.size() && old(self).premises()[k].1 < pool.size(),
        ensures
            *final(self) == *old(self),
            r is Some <==> congruent(*pool, old(self).premises(), a, b),
            r matches Some(p) ==> p.conclusion == (a, b) && proves(*pool, old(self).premises(), old(self).indices(), *p),
    {
        if !self.are_congruent(pool, a, b) {
            return None;
        }
        if a == b {
            return Some(Arc::new(EqProof { conclusion: (a, b), rule: EqProofRule::Refl }));
        }
        proof {
            assert forall|k: int| 0 <= k < self.equalities@.len() implies (#[trigger] self.equalities@[k]).0 < pool.size()
                && self.equalities@[k].1 < pool.size() by {
                assert(self.premises()[k] == (self.equalities@[k].0, self.equalities@[k].1));
            }
        }
        let (labels, proofs) = closure(pool, &self.equalities);
        let ghost eqs = self.premises();
        let ghost ix = self.indices();
        proof {
            assert forall|k: int| 0 <= k < eqs.len() implies (#[trigger] eqs[k]).0 < pool.size() && eqs[k].1 < pool.size()
                && labels@[eqs[k].0 as int] == labels@[eqs[k].1 as int] by {
                assert(eqs[k] == (self.equalities@[k].0, self.equalities@[k].1));
            }
            lemma_complete(*pool, eqs, labels@, a, b);
            assert(proves(*pool, eqs, ix, *proofs@[a as int]));
            assert(proves(*pool, eqs, ix, *proofs@[b as int]));
        }
        let pa = proofs[a].clone();
        let pb = symm(proofs[b].clone());
        let p = Arc::new(EqProof { conclusion: (a, b), rule: EqProofRule::Trans(vec![pa, pb]) });
        assert(proves(*pool, eqs, ix, *p)) by {
            assert(p.rule->Trans_0@ =~= seq![pa, pb]);
            assert(proves(*pool, eqs, ix, *pb));
        }
        Some(p)
    }
}

} // verus!
