//! The languages of the automata built for regular-expression operators, from those of the
//! automata they are built from.

use vstd::prelude::*;

use crate::automata::from_regex::{eps, is_concat_of, is_kleene_of, is_shifted, is_union_of, lemma_offset_mono, lemma_offset_positive, offset, shift};
use crate::automata::language::{accepts_word, moves_on, run, step};
use crate::automata::{eps_closure, eps_edge, eps_reaches, is_eps_path, lemma_eps_path_extend, Automaton};

verus! {

/// The states of `a`, with their targets moved `o` states further, are the states of `res` from
/// `o` on.
pub open spec fn embeds(res: Automaton, a: Automaton, o: int) -> bool {
    &&& 0 <= o
    &&& o + a.all_states.len() <= res.all_states.len()
    &&& forall|k: int| #![trigger a.all_states[k]] 0 <= k < a.all_states.len()
        ==> is_shifted(a.all_states[k], res.all_states[o + k], o)
}

/// An epsilon transition of `a` is one of `res`, moved `o` states further.
proof fn lemma_embed_eps_edge(res: Automaton, a: Automaton, o: int, s: usize, t: usize)
    requires
        embeds(res, a, o),
        a.wf(),
        eps_edge(a, s, t),
    ensures
        eps_edge(res, (s + o) as usize, (t + o) as usize),
{
    let ts = a.all_states[s as int].transitions@;
    assert(is_shifted(a.all_states[s as int], res.all_states[o + s], o));
    let j = choose|j: int| 0 <= j < ts.len() && ts[j] == eps(t);
    assert(a.all_states[s as int].transitions[j].to < a.all_states.len());
    let rts = res.all_states[o + s].transitions@;
    assert(rts[j] == shift(ts[j], o));
    assert(rts[j] == eps((t + o) as usize));
    assert(rts.contains(eps((t + o) as usize)));
}

/// An epsilon transition of `res` from a state moved from `a` is one of `a`, moved `o` states
/// further.
proof fn lemma_embed_eps_edge_back(res: Automaton, a: Automaton, o: int, s: usize, t: usize)
    requires
        embeds(res, a, o),
        a.wf(),
        s < a.all_states.len(),
        eps_edge(res, (s + o) as usize, t),
    ensures
        o <= t,
        t - o < a.all_states.len(),
        eps_edge(a, s, (t - o) as usize),
{
    let ts = a.all_states[s as int].transitions@;
    assert(is_shifted(a.all_states[s as int], res.all_states[o + s], o));
    let rts = res.all_states[o + s].transitions@;
    let j = choose|j: int| 0 <= j < rts.len() && rts[j] == eps(t);
    assert(rts[j] == shift(ts[j], o));
    assert(a.all_states[s as int].transitions[j].to < a.all_states.len());
    assert(ts[j] == eps((t - o) as usize));
    assert(ts.contains(eps((t - o) as usize)));
}

/// A transition of `res` from a state moved from `a` consumes a symbol exactly when the
/// transition of `a` it comes from does, and leads to its target moved `o` states further.
proof fn lemma_embed_moves(res: Automaton, a: Automaton, o: int, s: usize, j: int, c: int, t: usize)
    requires
        embeds(res, a, o),
        a.wf(),
        s < a.all_states.len(),
    ensures
        moves_on(res, (s + o) as usize, j, c, t) <==> (o <= t && moves_on(a, s, j, c, (t - o) as usize)),
        moves_on(res, (s + o) as usize, j, c, t) ==> t - o < a.all_states.len(),
{
    let ts = a.all_states[s as int].transitions@;
    assert(is_shifted(a.all_states[s as int], res.all_states[o + s], o));
    let rts = res.all_states[o + s].transitions@;
    if 0 <= j < ts.len() {
        assert(rts[j] == shift(ts[j], o));
        assert(a.all_states[s as int].transitions[j].to < a.all_states.len());
    }
}

/// A path of epsilon transitions of `a` is one of `res`, moved `o` states further.
proof fn lemma_embed_path(res: Automaton, a: Automaton, o: int, q: Seq<usize>)
    requires
        embeds(res, a, o),
        a.wf(),
        is_eps_path(a, q),
    ensures
        is_eps_path(res, q.map_values(|x: usize| (x + o) as usize)),
{
    let r = q.map_values(|x: usize| (x + o) as usize);
    assert forall|i: int| 0 <= i < r.len() - 1 implies #[trigger] eps_edge(res, r[i], r[i + 1]) by {
        assert(eps_edge(a, q[i], q[i + 1]));
        lemma_embed_eps_edge(res, a, o, q[i], q[i + 1]);
    }
}

/// What a state moved from `a` reaches in `res` by epsilon transitions is a state moved from `a`
/// that it reaches in `a`.
proof fn lemma_embed_path_back(res: Automaton, a: Automaton, o: int, p: Seq<usize>, s: usize)
    requires
        embeds(res, a, o),
        a.wf(),
        is_eps_path(res, p),
        s < a.all_states.len(),
        p[0] == s + o,
    ensures
        o <= p.last(),
        p.last() - o < a.all_states.len(),
        eps_reaches(a, s, (p.last() - o) as usize),
    decreases p.len(),
{
    if p.len() == 1 {
        let r = seq![s];
        assert(is_eps_path(a, r));
        assert(eps_reaches(a, s, s));
    } else {
        let q = p.drop_last();
        assert forall|i: int| 0 <= i < q.len() - 1 implies #[trigger] eps_edge(res, q[i], q[i + 1]) by {
            assert(eps_edge(res, p[i], p[i + 1]));
        }
        lemma_embed_path_back(res, a, o, q, s);
        let x = (q.last() - o) as usize;
        let r = choose|r: Seq<usize>| #[trigger] is_eps_path(a, r) && r[0] == s && r.last() == x;
        let i = p.len() - 2;
        assert(eps_edge(res, p[i], p[i + 1]));
        assert(q.last() == p[i]);
        lemma_embed_eps_edge_back(res, a, o, x, p.last());
        lemma_eps_path_extend(a, r, (p.last() - o) as usize);
        assert(eps_reaches(a, s, (p.last() - o) as usize));
    }
}

/// The automata `v` are well formed and start at their first state, and `res` is their union.
pub open spec fn union_of_initial(res: Automaton, v: Seq<Automaton>) -> bool {
    &&& is_union_of(res, v)
    &&& forall|m: int| 0 <= m < v.len() ==> (#[trigger] v[m]).wf() && v[m].initial_state == 0
}

/// The `m`-th component of a union is embedded in it at its offset.
proof fn lemma_union_embeds(res: Automaton, v: Seq<Automaton>, m: int)
    requires
        union_of_initial(res, v),
        0 <= m < v.len(),
    ensures
        embeds(res, v[m], offset(v, m)),
        1 <= offset(v, m),
{
    lemma_offset_positive(v, m);
    lemma_offset_mono(v, m + 1, v.len() as int);
    assert forall|k: int| #![trigger v[m].all_states[k]] 0 <= k < v[m].all_states.len()
        implies is_shifted(v[m].all_states[k], res.all_states[offset(v, m) + k], offset(v, m)) by {
    }
}

/// The first state of a union leads by epsilon transitions to the first states of the
/// components, and consumes no symbol.
proof fn lemma_union_init(res: Automaton, v: Seq<Automaton>)
    requires
        union_of_initial(res, v),
    ensures
        forall|t: usize| #[trigger] eps_edge(res, 0, t) ==> exists|m: int| 0 <= m < v.len() && t == offset(v, m),
        forall|m: int| 0 <= m < v.len() ==> #[trigger] eps_edge(res, 0, offset(v, m) as usize),
        forall|j: int, c: int, t: usize| !#[trigger] moves_on(res, 0, j, c, t),
{
    let ts = res.all_states[0].transitions@;
    assert(res.all_states.len() >= 1) by {
        lemma_offset_positive(v, v.len() as int);
    }
    assert forall|t: usize| #[trigger] eps_edge(res, 0, t) implies exists|m: int| 0 <= m < v.len() && t == offset(v, m) by {
        let j = choose|j: int| 0 <= j < ts.len() && ts[j] == eps(t);
        assert(ts[j] == eps(offset(v, j) as usize));
        lemma_offset_positive(v, j);
        lemma_offset_mono(v, j, v.len() as int);
    }
    assert forall|m: int| 0 <= m < v.len() implies #[trigger] eps_edge(res, 0, offset(v, m) as usize) by {
        assert(ts[m] == eps(offset(v, m) as usize));
        assert(ts.contains(eps(offset(v, m) as usize)));
    }
    assert forall|j: int, c: int, t: usize| !#[trigger] moves_on(res, 0, j, c, t) by {
        if 0 <= j < ts.len() {
            assert(ts[j] == eps(offset(v, j) as usize));
        }
    }
}

/// A state that a component of a union can be in after reading a word, moved to its offset, is
/// one that the union can be in.
proof fn lemma_union_run_forward(res: Automaton, v: Seq<Automaton>, m: int, w: Seq<int>, s: usize)
    requires
        union_of_initial(res, v),
        0 <= m < v.len(),
        run(v[m], w).contains(s),
    ensures
        run(res, w).contains((s + offset(v, m)) as usize),
    decreases w.len(),
{
    let a = v[m];
    let o = offset(v, m);
    lemma_union_embeds(res, v, m);
    lemma_union_init(res, v);
    if w.len() == 0 {
        let q = choose|q: Seq<usize>| #[trigger] is_eps_path(a, q) && q[0] == 0 && q.last() == s;
        lemma_embed_path(res, a, o, q);
        let r = q.map_values(|x: usize| (x + o) as usize);
        let p = seq![0usize] + r;
        assert(eps_edge(res, 0, o as usize));
        assert forall|i: int| 0 <= i < p.len() - 1 implies #[trigger] eps_edge(res, p[i], p[i + 1]) by {
            if i > 0 {
                let k = i - 1;
                assert(eps_edge(res, r[k], r[k + 1]));
                assert(p[i] == r[k] && p[i + 1] == r[k + 1]);
            }
        }
        assert(is_eps_path(res, p));
        assert(p.last() == r.last());
        assert(eps_reaches(res, 0, (s + o) as usize));
        assert(set![res.initial_state].contains(0usize));
    } else {
        let w0 = w.drop_last();
        let c = w.last();
        let s1 = choose|s1: usize| step(a, run(a, w0), c).contains(s1) && #[trigger] eps_reaches(a, s1, s);
        let (s0, j) = choose|s0: usize, j: int| run(a, w0).contains(s0) && s0 < a.all_states.len() && #[trigger] moves_on(a, s0, j, c, s1);
        lemma_union_run_forward(res, v, m, w0, s0);
        lemma_embed_moves(res, a, o, s0, j, c, (s1 + o) as usize);
        assert(moves_on(res, (s0 + o) as usize, j, c, (s1 + o) as usize));
        assert((s0 + o) < res.all_states.len());
        assert(step(res, run(res, w0), c).contains((s1 + o) as usize));
        let q = choose|q: Seq<usize>| #[trigger] is_eps_path(a, q) && q[0] == s1 && q.last() == s;
        lemma_embed_path(res, a, o, q);
        let r = q.map_values(|x: usize| (x + o) as usize);
        assert(eps_reaches(res, (s1 + o) as usize, (s + o) as usize));
    }
}

/// A state that a union can be in after reading a word is its first state, before any symbol, or
/// a state that one of its components can be in after reading the word, moved to its offset.
proof fn lemma_union_run_back(res: Automaton, v: Seq<Automaton>, w: Seq<int>, t: usize)
    requires
        union_of_initial(res, v),
        run(res, w).contains(t),
    ensures
        (w.len() == 0 && t == 0) || exists|m: int, s: usize| 0 <= m < v.len() && s < v[m].all_states.len()
            && #[trigger] run(v[m], w).contains(s) && t == s + offset(v, m),
    decreases w.len(),
{
    lemma_union_init(res, v);
    if w.len() == 0 {
        let p = choose|p: Seq<usize>| #[trigger] is_eps_path(res, p) && p[0] == 0 && p.last() == t;
        if p.len() > 1 {
            let z: int = 0;
            assert(eps_edge(res, p[z], p[z + 1]));
            let m = choose|m: int| 0 <= m < v.len() && p[1] == offset(v, m);
            lemma_union_embeds(res, v, m);
            let a = v[m];
            let o = offset(v, m);
            let q = p.subrange(1, p.len() as int);
            assert forall|i: int| 0 <= i < q.len() - 1 implies #[trigger] eps_edge(res, q[i], q[i + 1]) by {
                let k = i + 1;
                assert(eps_edge(res, p[k], p[k + 1]));
            }
            assert(a.initial_state < a.all_states.len());
            lemma_embed_path_back(res, a, o, q, 0);
            assert(q.last() == t);
            let s = (t - o) as usize;
            assert(set![a.initial_state].contains(0usize));
            assert(run(a, w).contains(s));
        }
    } else {
        let w0 = w.drop_last();
        let c = w.last();
        let t1 = choose|t1: usize| step(res, run(res, w0), c).contains(t1) && #[trigger] eps_reaches(res, t1, t);
        let (t0, j) = choose|t0: usize, j: int| run(res, w0).contains(t0) && t0 < res.all_states.len()
            && #[trigger] moves_on(res, t0, j, c, t1);
        lemma_union_run_back(res, v, w0, t0);
        if t0 == 0 {
            assert(!moves_on(res, 0, j, c, t1));
        } else {
            let (m, s0) = choose|m: int, s0: usize| 0 <= m < v.len() && s0 < v[m].all_states.len()
                && #[trigger] run(v[m], w0).contains(s0) && t0 == s0 + offset(v, m);
            lemma_union_embeds(res, v, m);
            let a = v[m];
            let o = offset(v, m);
            lemma_embed_moves(res, a, o, s0, j, c, t1);
            let s1 = (t1 - o) as usize;
            assert(moves_on(a, s0, j, c, s1));
            assert(step(a, run(a, w0), c).contains(s1));
            let p = choose|p: Seq<usize>| #[trigger] is_eps_path(res, p) && p[0] == t1 && p.last() == t;
            lemma_embed_path_back(res, a, o, p, s1);
            let s = (t - o) as usize;
            assert(eps_reaches(a, s1, s));
            assert(run(a, w).contains(s));
        }
    }
}

/// A word is accepted by the union of automata that start at their first state exactly when one
/// of them accepts it.
pub proof fn lemma_union_language(res: Automaton, v: Seq<Automaton>, w: Seq<int>)
    requires
        is_union_of(res, v),
        forall|m: int| 0 <= m < v.len() ==> (#[trigger] v[m]).wf() && v[m].initial_state == 0,
    ensures
        accepts_word(res, w) <==> exists|m: int| 0 <= m < v.len() && #[trigger] accepts_word(v[m], w),
{
    assert(union_of_initial(res, v));
    if accepts_word(res, w) {
        let t = choose|t: usize| #[trigger] run(res, w).contains(t) && t < res.all_states.len() && res.all_states[t as int].accept;
        lemma_union_run_back(res, v, w, t);
        assert(t != 0);
        let (m, s) = choose|m: int, s: usize| 0 <= m < v.len() && s < v[m].all_states.len()
            && #[trigger] run(v[m], w).contains(s) && t == s + offset(v, m);
        lemma_union_embeds(res, v, m);
        assert(is_shifted(v[m].all_states[s as int], res.all_states[offset(v, m) + s], offset(v, m)));
        assert(accepts_word(v[m], w));
    }
    if exists|m: int| 0 <= m < v.len() && #[trigger] accepts_word(v[m], w) {
        let m = choose|m: int| 0 <= m < v.len() && #[trigger] accepts_word(v[m], w);
        let s = choose|s: usize| #[trigger] run(v[m], w).contains(s) && s < v[m].all_states.len() && v[m].all_states[s as int].accept;
        lemma_union_run_forward(res, v, m, w, s);
        lemma_union_embeds(res, v, m);
        assert(is_shifted(v[m].all_states[s as int], res.all_states[offset(v, m) + s], offset(v, m)));
        let t = (s + offset(v, m)) as usize;
        assert(run(res, w).contains(t));
        assert(accepts_word(res, w));
    }
}

/// `res` is the concatenation of the well-formed automata `a1` and `a2`.
pub open spec fn concat_wf(res: Automaton, a1: Automaton, a2: Automaton) -> bool {
    &&& is_concat_of(res, a1, a2)
    &&& a1.wf()
    &&& a2.wf()
}

/// The second automaton of a concatenation is embedded in it after the states of the first.
proof fn lemma_concat_embeds(res: Automaton, a1: Automaton, a2: Automaton)
    requires
        concat_wf(res, a1, a2),
    ensures
        embeds(res, a2, a1.all_states.len() as int),
{
    let n1 = a1.all_states.len() as int;
    assert forall|k: int| #![trigger a2.all_states[k]] 0 <= k < a2.all_states.len()
        implies is_shifted(a2.all_states[k], res.all_states[n1 + k], n1) by {
        assert(is_shifted(a2.all_states[k], res.all_states[n1 + k], n1));
    }
}

/// From a state of the first automaton, a concatenation has the epsilon transitions of that
/// automaton, and one to the initial state of the second automaton if the state accepts.
proof fn lemma_concat_edge(res: Automaton, a1: Automaton, a2: Automaton, s: usize, t: usize)
    requires
        concat_wf(res, a1, a2),
        s < a1.all_states.len(),
    ensures
        eps_edge(res, s, t) <==> (eps_edge(a1, s, t)
            || (a1.all_states[s as int].accept && t == a2.initial_state + a1.all_states.len())),
{
    let n1 = a1.all_states.len();
    assert(res.all_states[s as int].transitions@.contains(eps(t)) <==> (a1.all_states[s as int].transitions@.contains(eps(t))
        || (a1.all_states[s as int].accept && eps(t) == eps((a2.initial_state + n1) as usize))));
}

/// From a state of the first automaton, a concatenation consumes a symbol towards a state exactly
/// when that automaton does.
proof fn lemma_concat_moves(res: Automaton, a1: Automaton, a2: Automaton, s: usize, c: int, t: usize)
    requires
        concat_wf(res, a1, a2),
        s < a1.all_states.len(),
    ensures
        (exists|j: int| #[trigger] moves_on(res, s, j, c, t)) <==> (exists|j: int| #[trigger] moves_on(a1, s, j, c, t)),
        (exists|j: int| #[trigger] moves_on(res, s, j, c, t)) ==> t < a1.all_states.len(),
{
    let n1 = a1.all_states.len();
    let rts = res.all_states[s as int].transitions@;
    let ts = a1.all_states[s as int].transitions@;
    if exists|j: int| #[trigger] moves_on(res, s, j, c, t) {
        let j = choose|j: int| #[trigger] moves_on(res, s, j, c, t);
        let u = rts[j];
        assert(rts.contains(u));
        assert(ts.contains(u) || (a1.all_states[s as int].accept && u == eps((a2.initial_state + n1) as usize)));
        let k = choose|k: int| 0 <= k < ts.len() && ts[k] == u;
        assert(moves_on(a1, s, k, c, t));
        assert(a1.all_states[s as int].transitions[k].to < n1);
    }
    if exists|j: int| #[trigger] moves_on(a1, s, j, c, t) {
        let j = choose|j: int| #[trigger] moves_on(a1, s, j, c, t);
        let u = ts[j];
        assert(ts.contains(u));
        assert(rts.contains(u));
        let k = choose|k: int| 0 <= k < rts.len() && rts[k] == u;
        assert(moves_on(res, s, k, c, t));
    }
}

/// A path of epsilon transitions of the first automaton is one of the concatenation.
proof fn lemma_concat_path_first(res: Automaton, a1: Automaton, a2: Automaton, q: Seq<usize>)
    requires
        concat_wf(res, a1, a2),
        is_eps_path(a1, q),
    ensures
        is_eps_path(res, q),
{
    assert forall|i: int| 0 <= i < q.len() - 1 implies #[trigger] eps_edge(res, q[i], q[i + 1]) by {
        assert(eps_edge(a1, q[i], q[i + 1]));
        lemma_concat_edge(res, a1, a2, q[i], q[i + 1]);
    }
}

/// From a state of the first automaton, a concatenation reaches by epsilon transitions what the
/// first automaton reaches, and, through an accepting state of it, what the second one reaches
/// from its initial state, moved after the first.
proof fn lemma_concat_path_back(res: Automaton, a1: Automaton, a2: Automaton, p: Seq<usize>)
    requires
        concat_wf(res, a1, a2),
        is_eps_path(res, p),
        p[0] < a1.all_states.len(),
    ensures
        p.last() < a1.all_states.len() ==> eps_reaches(a1, p[0], p.last()),
        p.last() >= a1.all_states.len() ==> p.last() < a1.all_states.len() + a2.all_states.len()
            && eps_reaches(a2, a2.initial_state, (p.last() - a1.all_states.len()) as usize)
            && exists|y: usize| y < a1.all_states.len() && a1.all_states[y as int].accept && #[trigger] eps_reaches(a1, p[0], y),
    decreases p.len(),
{
    let n1 = a1.all_states.len();
    lemma_concat_embeds(res, a1, a2);
    if p.len() == 1 {
        assert(is_eps_path(a1, seq![p[0]]));
        assert(eps_reaches(a1, p[0], p[0]));
    } else {
        let q = p.drop_last();
        assert forall|i: int| 0 <= i < q.len() - 1 implies #[trigger] eps_edge(res, q[i], q[i + 1]) by {
            assert(eps_edge(res, p[i], p[i + 1]));
        }
        lemma_concat_path_back(res, a1, a2, q);
        let i = p.len() - 2;
        assert(eps_edge(res, p[i], p[i + 1]));
        assert(q.last() == p[i]);
        let x = q.last();
        let t = p.last();
        if x < n1 {
            let r = choose|r: Seq<usize>| #[trigger] is_eps_path(a1, r) && r[0] == p[0] && r.last() == x;
            lemma_concat_edge(res, a1, a2, x, t);
            if eps_edge(a1, x, t) {
                lemma_eps_path_extend(a1, r, t);
                assert(eps_reaches(a1, p[0], t));
                let ts = a1.all_states[x as int].transitions@;
                let k = choose|k: int| 0 <= k < ts.len() && ts[k] == eps(t);
                assert(a1.all_states[x as int].transitions[k].to < n1);
            } else {
                assert(eps_reaches(a1, p[0], x));
                assert(a2.initial_state < a2.all_states.len());
                assert(is_eps_path(a2, seq![a2.initial_state]));
                assert(eps_reaches(a2, a2.initial_state, a2.initial_state));
            }
        } else {
            let x2 = (x - n1) as usize;
            let r = choose|r: Seq<usize>| #[trigger] is_eps_path(a2, r) && r[0] == a2.initial_state && r.last() == x2;
            lemma_embed_eps_edge_back(res, a2, n1 as int, x2, t);
            lemma_eps_path_extend(a2, r, (t - n1) as usize);
            assert(eps_reaches(a2, a2.initial_state, (t - n1) as usize));
        }
    }
}

/// From a state of the first automaton that reaches an accepting state of it, a concatenation
/// reaches by epsilon transitions what the second automaton reaches from its initial state, moved
/// after the first.
proof fn lemma_concat_path_join(res: Automaton, a1: Automaton, a2: Automaton, x: usize, y: usize, s: usize)
    requires
        concat_wf(res, a1, a2),
        y < a1.all_states.len(),
        a1.all_states[y as int].accept,
        eps_reaches(a1, x, y),
        eps_reaches(a2, a2.initial_state, s),
    ensures
        eps_reaches(res, x, (s + a1.all_states.len()) as usize),
{
    let n1 = a1.all_states.len() as int;
    lemma_concat_embeds(res, a1, a2);
    let q1 = choose|q1: Seq<usize>| #[trigger] is_eps_path(a1, q1) && q1[0] == x && q1.last() == y;
    let q2 = choose|q2: Seq<usize>| #[trigger] is_eps_path(a2, q2) && q2[0] == a2.initial_state && q2.last() == s;
    lemma_concat_path_first(res, a1, a2, q1);
    lemma_embed_path(res, a2, n1, q2);
    let r = q2.map_values(|z: usize| (z + n1) as usize);
    lemma_concat_edge(res, a1, a2, y, r[0]);
    let p = q1 + r;
    assert forall|i: int| 0 <= i < p.len() - 1 implies #[trigger] eps_edge(res, p[i], p[i + 1]) by {
        if i < q1.len() - 1 {
            assert(p[i] == q1[i] && p[i + 1] == q1[i + 1]);
        } else if i == q1.len() - 1 {
            assert(p[i] == y && p[i + 1] == r[0]);
        } else {
            let k = i - q1.len();
            assert(eps_edge(res, r[k], r[k + 1]));
            assert(p[i] == r[k] && p[i + 1] == r[k + 1]);
        }
    }
    assert(is_eps_path(res, p));
    assert(p.last() == r.last());
}

/// A state of the first automaton of a concatenation is one that the concatenation can be in
/// after reading a word exactly when the first automaton can.
proof fn lemma_concat_run_first(res: Automaton, a1: Automaton, a2: Automaton, w: Seq<int>, s: usize)
    requires
        concat_wf(res, a1, a2),
        s < a1.all_states.len(),
    ensures
        run(res, w).contains(s) <==> run(a1, w).contains(s),
    decreases w.len(),
{
    let n1 = a1.all_states.len();
    if w.len() == 0 {
        if run(res, w).contains(s) {
            let p = choose|p: Seq<usize>| #[trigger] is_eps_path(res, p) && p[0] == res.initial_state && p.last() == s;
            lemma_concat_path_back(res, a1, a2, p);
            assert(set![a1.initial_state].contains(a1.initial_state));
        }
        if run(a1, w).contains(s) {
            let q = choose|q: Seq<usize>| #[trigger] is_eps_path(a1, q) && q[0] == a1.initial_state && q.last() == s;
            lemma_concat_path_first(res, a1, a2, q);
            assert(eps_reaches(res, res.initial_state, s));
            assert(set![res.initial_state].contains(res.initial_state));
        }
    } else {
        let w0 = w.drop_last();
        let c = w.last();
        if run(res, w).contains(s) {
            let t1 = choose|t1: usize| step(res, run(res, w0), c).contains(t1) && #[trigger] eps_reaches(res, t1, s);
            let (t0, j) = choose|t0: usize, j: int| run(res, w0).contains(t0) && t0 < res.all_states.len()
                && #[trigger] moves_on(res, t0, j, c, t1);
            let p = choose|p: Seq<usize>| #[trigger] is_eps_path(res, p) && p[0] == t1 && p.last() == s;
            if t0 >= n1 {
                lemma_concat_embeds(res, a1, a2);
                lemma_embed_moves(res, a2, n1 as int, (t0 - n1) as usize, j, c, t1);
                lemma_embed_path_back(res, a2, n1 as int, p, (t1 - n1) as usize);
            } else {
                lemma_concat_run_first(res, a1, a2, w0, t0);
                lemma_concat_moves(res, a1, a2, t0, c, t1);
                let k = choose|k: int| #[trigger] moves_on(a1, t0, k, c, t1);
                assert(step(a1, run(a1, w0), c).contains(t1));
                lemma_concat_path_back(res, a1, a2, p);
            }
        }
        if run(a1, w).contains(s) {
            let x1 = choose|x1: usize| step(a1, run(a1, w0), c).contains(x1) && #[trigger] eps_reaches(a1, x1, s);
            let (x0, j) = choose|x0: usize, j: int| run(a1, w0).contains(x0) && x0 < a1.all_states.len()
                && #[trigger] moves_on(a1, x0, j, c, x1);
            lemma_concat_run_first(res, a1, a2, w0, x0);
            lemma_concat_moves(res, a1, a2, x0, c, x1);
            let k = choose|k: int| #[trigger] moves_on(res, x0, k, c, x1);
            assert(x0 < res.all_states.len());
            assert(step(res, run(res, w0), c).contains(x1));
            let q = choose|q: Seq<usize>| #[trigger] is_eps_path(a1, q) && q[0] == x1 && q.last() == s;
            lemma_concat_path_first(res, a1, a2, q);
            assert(eps_reaches(res, x1, s));
        }
    }
}

/// A state of the second automaton of a concatenation, moved after the first, that the
/// concatenation can be in after reading a word is one that the second automaton can be in after
/// reading a suffix of the word whose prefix the first automaton accepts.
proof fn lemma_concat_run_second_back(res: Automaton, a1: Automaton, a2: Automaton, w: Seq<int>, s: usize)
    requires
        concat_wf(res, a1, a2),
        s < a2.all_states.len(),
        run(res, w).contains((s + a1.all_states.len()) as usize),
    ensures
        exists|i: int| 0 <= i <= w.len() && #[trigger] accepts_word(a1, w.take(i)) && run(a2, w.skip(i)).contains(s),
    decreases w.len(),
{
    let n1 = a1.all_states.len();
    let t = (s + n1) as usize;
    lemma_concat_embeds(res, a1, a2);
    if w.len() == 0 {
        let p = choose|p: Seq<usize>| #[trigger] is_eps_path(res, p) && p[0] == res.initial_state && p.last() == t;
        lemma_concat_path_back(res, a1, a2, p);
        let y = choose|y: usize| y < n1 && a1.all_states[y as int].accept && #[trigger] eps_reaches(a1, p[0], y);
        assert(w.take(0) =~= w && w.skip(0) =~= w);
        assert(set![a1.initial_state].contains(a1.initial_state));
        assert(run(a1, w).contains(y));
        assert(accepts_word(a1, w.take(0)));
        assert(set![a2.initial_state].contains(a2.initial_state));
        assert(run(a2, w.skip(0)).contains(s));
    } else {
        let w0 = w.drop_last();
        let c = w.last();
        let t1 = choose|t1: usize| step(res, run(res, w0), c).contains(t1) && #[trigger] eps_reaches(res, t1, t);
        let (t0, j) = choose|t0: usize, j: int| run(res, w0).contains(t0) && t0 < res.all_states.len()
            && #[trigger] moves_on(res, t0, j, c, t1);
        let p = choose|p: Seq<usize>| #[trigger] is_eps_path(res, p) && p[0] == t1 && p.last() == t;
        if t0 < n1 {
            lemma_concat_run_first(res, a1, a2, w0, t0);
            lemma_concat_moves(res, a1, a2, t0, c, t1);
            let k = choose|k: int| #[trigger] moves_on(a1, t0, k, c, t1);
            assert(step(a1, run(a1, w0), c).contains(t1));
            lemma_concat_path_back(res, a1, a2, p);
            let y = choose|y: usize| y < n1 && a1.all_states[y as int].accept && #[trigger] eps_reaches(a1, p[0], y);
            assert(run(a1, w).contains(y));
            let n = w.len() as int;
            assert(w.take(n) =~= w);
            assert(accepts_word(a1, w.take(n)));
            assert(w.skip(n).len() == 0);
            assert(set![a2.initial_state].contains(a2.initial_state));
            assert(run(a2, w.skip(n)).contains(s));
        } else {
            let s0 = (t0 - n1) as usize;
            lemma_concat_run_second_back(res, a1, a2, w0, s0);
            let i = choose|i: int| 0 <= i <= w0.len() && #[trigger] accepts_word(a1, w0.take(i)) && run(a2, w0.skip(i)).contains(s0);
            lemma_embed_moves(res, a2, n1 as int, s0, j, c, t1);
            let s1 = (t1 - n1) as usize;
            lemma_embed_path_back(res, a2, n1 as int, p, s1);
            assert(step(a2, run(a2, w0.skip(i)), c).contains(s1));
            let u = w.skip(i);
            assert(u.drop_last() =~= w0.skip(i));
            assert(u.last() == c);
            assert(run(a2, u).contains(s));
            assert(w.take(i) =~= w0.take(i));
            assert(accepts_word(a1, w.take(i)));
        }
    }
}

/// A state that the second automaton of a concatenation can be in after reading a suffix of a
/// word, whose prefix the first automaton accepts, is, moved after the first, one that the
/// concatenation can be in after reading the word.
proof fn lemma_concat_run_second_forward(res: Automaton, a1: Automaton, a2: Automaton, w: Seq<int>, i: int, s: usize)
    requires
        concat_wf(res, a1, a2),
        0 <= i <= w.len(),
        accepts_word(a1, w.take(i)),
        run(a2, w.skip(i)).contains(s),
        s < a2.all_states.len(),
    ensures
        run(res, w).contains((s + a1.all_states.len()) as usize),
    decreases w.len(),
{
    let n1 = a1.all_states.len();
    let t = (s + n1) as usize;
    lemma_concat_embeds(res, a1, a2);
    if w.len() == 0 {
        assert(w.take(0) =~= w && w.skip(0) =~= w);
        let y = choose|y: usize| #[trigger] run(a1, w.take(i)).contains(y) && y < n1 && a1.all_states[y as int].accept;
        lemma_concat_path_join(res, a1, a2, a1.initial_state, y, s);
        assert(set![res.initial_state].contains(res.initial_state));
    } else if i == w.len() {
        let w0 = w.drop_last();
        let c = w.last();
        assert(w.take(i) =~= w);
        let y = choose|y: usize| #[trigger] run(a1, w).contains(y) && y < n1 && a1.all_states[y as int].accept;
        let x1 = choose|x1: usize| step(a1, run(a1, w0), c).contains(x1) && #[trigger] eps_reaches(a1, x1, y);
        let (x0, j) = choose|x0: usize, j: int| run(a1, w0).contains(x0) && x0 < n1 && #[trigger] moves_on(a1, x0, j, c, x1);
        lemma_concat_run_first(res, a1, a2, w0, x0);
        lemma_concat_moves(res, a1, a2, x0, c, x1);
        let k = choose|k: int| #[trigger] moves_on(res, x0, k, c, x1);
        assert(x0 < res.all_states.len());
        assert(step(res, run(res, w0), c).contains(x1));
        assert(w.skip(i).len() == 0);
        lemma_concat_path_join(res, a1, a2, x1, y, s);
    } else {
        let w0 = w.drop_last();
        let c = w.last();
        let u = w.skip(i);
        assert(u.drop_last() =~= w0.skip(i));
        assert(u.last() == c);
        let s1 = choose|s1: usize| step(a2, run(a2, w0.skip(i)), c).contains(s1) && #[trigger] eps_reaches(a2, s1, s);
        let (s0, j) = choose|s0: usize, j: int| run(a2, w0.skip(i)).contains(s0) && s0 < a2.all_states.len()
            && #[trigger] moves_on(a2, s0, j, c, s1);
        assert(w.take(i) =~= w0.take(i));
        lemma_concat_run_second_forward(res, a1, a2, w0, i, s0);
        let t0 = (s0 + n1) as usize;
        lemma_embed_moves(res, a2, n1 as int, s0, j, c, (s1 + n1) as usize);
        assert(moves_on(res, t0, j, c, (s1 + n1) as usize));
        assert(t0 < res.all_states.len());
        assert(step(res, run(res, w0), c).contains((s1 + n1) as usize));
        let q = choose|q: Seq<usize>| #[trigger] is_eps_path(a2, q) && q[0] == s1 && q.last() == s;
        lemma_embed_path(res, a2, n1 as int, q);
        let r = q.map_values(|z: usize| (z + n1) as usize);
        assert(eps_reaches(res, (s1 + n1) as usize, t));
    }
}

/// A word is accepted by the concatenation of two automata exactly when it splits into a prefix
/// that the first accepts and a suffix that the second accepts.
pub proof fn lemma_concat_language(res: Automaton, a1: Automaton, a2: Automaton, w: Seq<int>)
    requires
        is_concat_of(res, a1, a2),
        a1.wf(),
        a2.wf(),
    ensures
        accepts_word(res, w) <==> exists|i: int| 0 <= i <= w.len() && #[trigger] accepts_word(a1, w.take(i))
            && accepts_word(a2, w.skip(i)),
{
    assert(concat_wf(res, a1, a2));
    let n1 = a1.all_states.len();
    lemma_concat_embeds(res, a1, a2);
    if accepts_word(res, w) {
        let t = choose|t: usize| #[trigger] run(res, w).contains(t) && t < res.all_states.len() && res.all_states[t as int].accept;
        if t < n1 {
            assert(!res.all_states[t as int].accept);
        } else {
            let s = (t - n1) as usize;
            assert(is_shifted(a2.all_states[s as int], res.all_states[n1 + s], n1 as int));
            lemma_concat_run_second_back(res, a1, a2, w, s);
            let i = choose|i: int| 0 <= i <= w.len() && #[trigger] accepts_word(a1, w.take(i)) && run(a2, w.skip(i)).contains(s);
            assert(accepts_word(a2, w.skip(i)));
        }
    }
    if exists|i: int| 0 <= i <= w.len() && #[trigger] accepts_word(a1, w.take(i)) && accepts_word(a2, w.skip(i)) {
        let i = choose|i: int| 0 <= i <= w.len() && #[trigger] accepts_word(a1, w.take(i)) && accepts_word(a2, w.skip(i));
        let s = choose|s: usize| #[trigger] run(a2, w.skip(i)).contains(s) && s < a2.all_states.len() && a2.all_states[s as int].accept;
        lemma_concat_run_second_forward(res, a1, a2, w, i, s);
        assert(is_shifted(a2.all_states[s as int], res.all_states[n1 + s], n1 as int));
        let t = (s + n1) as usize;
        assert(run(res, w).contains(t));
        assert(accepts_word(res, w));
    }
}

/// The word `w` is a concatenation of words that `a` accepts; the empty word is that of none.
pub open spec fn in_star(a: Automaton, w: Seq<int>) -> bool
    decreases w.len(),
{
    w.len() == 0 || exists|i: int| #![trigger accepts_word(a, w.skip(i))]
        0 <= i < w.len() && in_star(a, w.take(i)) && accepts_word(a, w.skip(i))
}

/// `res` is the Kleene closure of the well-formed automaton `a`.
pub open spec fn kleene_wf(res: Automaton, a: Automaton) -> bool {
    &&& is_kleene_of(res, a)
    &&& a.wf()
}

/// From a state of `a`, its Kleene closure has the epsilon transitions of `a`, and one back to the
/// initial state of `a` if the state accepts; from its own initial state, only one to the initial
/// state of `a`.
proof fn lemma_kleene_edge(res: Automaton, a: Automaton, s: usize, t: usize)
    requires
        kleene_wf(res, a),
        s <= a.all_states.len(),
    ensures
        s < a.all_states.len() ==> (eps_edge(res, s, t) <==> (eps_edge(a, s, t)
            || (a.all_states[s as int].accept && t == a.initial_state))),
        s == a.all_states.len() ==> (eps_edge(res, s, t) <==> t == a.initial_state),
{
    if s < a.all_states.len() {
        assert(res.all_states[s as int].transitions@.contains(eps(t)) <==> (a.all_states[s as int].transitions@.contains(eps(t))
            || (a.all_states[s as int].accept && eps(t) == eps(a.initial_state))));
    } else {
        let ts = res.all_states[s as int].transitions@;
        assert(ts == seq![eps(a.initial_state)]);
        if ts.contains(eps(t)) {
            let j = choose|j: int| 0 <= j < ts.len() && ts[j] == eps(t);
            assert(ts[j] == eps(a.initial_state));
        }
        if t == a.initial_state {
            assert(ts[0] == eps(t));
        }
    }
}

/// From a state of `a`, its Kleene closure consumes a symbol towards a state exactly when `a`
/// does; from its own initial state, it consumes none.
proof fn lemma_kleene_moves(res: Automaton, a: Automaton, s: usize, c: int, t: usize)
    requires
        kleene_wf(res, a),
        s <= a.all_states.len(),
    ensures
        s < a.all_states.len() ==> ((exists|j: int| #[trigger] moves_on(res, s, j, c, t))
            <==> (exists|j: int| #[trigger] moves_on(a, s, j, c, t))),
        (exists|j: int| #[trigger] moves_on(res, s, j, c, t)) ==> s < a.all_states.len() && t < a.all_states.len(),
{
    let n = a.all_states.len();
    let rts = res.all_states[s as int].transitions@;
    if s == n {
        assert(rts == seq![eps(a.initial_state)]);
        assert forall|j: int| !#[trigger] moves_on(res, s, j, c, t) by {
            if 0 <= j < rts.len() {
                assert(rts[j] == eps(a.initial_state));
            }
        }
    } else {
        let ts = a.all_states[s as int].transitions@;
        if exists|j: int| #[trigger] moves_on(res, s, j, c, t) {
            let j = choose|j: int| #[trigger] moves_on(res, s, j, c, t);
            let u = rts[j];
            assert(rts.contains(u));
            assert(ts.contains(u) || (a.all_states[s as int].accept && u == eps(a.initial_state)));
            let k = choose|k: int| 0 <= k < ts.len() && ts[k] == u;
            assert(moves_on(a, s, k, c, t));
            assert(a.all_states[s as int].transitions[k].to < n);
        }
        if exists|j: int| #[trigger] moves_on(a, s, j, c, t) {
            let j = choose|j: int| #[trigger] moves_on(a, s, j, c, t);
            let u = ts[j];
            assert(ts.contains(u));
            assert(rts.contains(u));
            let k = choose|k: int| 0 <= k < rts.len() && rts[k] == u;
            assert(moves_on(res, s, k, c, t));
        }
    }
}

/// A path of epsilon transitions of `a` is one of its Kleene closure.
proof fn lemma_kleene_path_inner(res: Automaton, a: Automaton, q: Seq<usize>)
    requires
        kleene_wf(res, a),
        is_eps_path(a, q),
    ensures
        is_eps_path(res, q),
{
    assert forall|i: int| 0 <= i < q.len() - 1 implies #[trigger] eps_edge(res, q[i], q[i + 1]) by {
        assert(eps_edge(a, q[i], q[i + 1]));
        lemma_kleene_edge(res, a, q[i], q[i + 1]);
    }
}

/// From a state of `a`, its Kleene closure reaches by epsilon transitions what `a` reaches, or,
/// through an accepting state that `a` reaches, what `a` reaches from its initial state.
proof fn lemma_kleene_path_back(res: Automaton, a: Automaton, p: Seq<usize>)
    requires
        kleene_wf(res, a),
        is_eps_path(res, p),
        p[0] < a.all_states.len(),
    ensures
        p.last() < a.all_states.len(),
        eps_reaches(a, p[0], p.last()) || (eps_reaches(a, a.initial_state, p.last())
            && exists|y: usize| y < a.all_states.len() && a.all_states[y as int].accept && #[trigger] eps_reaches(a, p[0], y)),
    decreases p.len(),
{
    let n = a.all_states.len();
    if p.len() == 1 {
        assert(is_eps_path(a, seq![p[0]]));
        assert(eps_reaches(a, p[0], p[0]));
    } else {
        let q = p.drop_last();
        assert forall|i: int| 0 <= i < q.len() - 1 implies #[trigger] eps_edge(res, q[i], q[i + 1]) by {
            assert(eps_edge(res, p[i], p[i + 1]));
        }
        lemma_kleene_path_back(res, a, q);
        let i = p.len() - 2;
        assert(eps_edge(res, p[i], p[i + 1]));
        assert(q.last() == p[i]);
        let x = q.last();
        let t = p.last();
        lemma_kleene_edge(res, a, x, t);
        if eps_edge(a, x, t) {
            let ts = a.all_states[x as int].transitions@;
            let k = choose|k: int| 0 <= k < ts.len() && ts[k] == eps(t);
            assert(a.all_states[x as int].transitions[k].to < n);
            if eps_reaches(a, p[0], x) {
                let r = choose|r: Seq<usize>| #[trigger] is_eps_path(a, r) && r[0] == p[0] && r.last() == x;
                lemma_eps_path_extend(a, r, t);
                assert(eps_reaches(a, p[0], t));
            } else {
                let r = choose|r: Seq<usize>| #[trigger] is_eps_path(a, r) && r[0] == a.initial_state && r.last() == x;
                lemma_eps_path_extend(a, r, t);
                assert(eps_reaches(a, a.initial_state, t));
            }
        } else {
            assert(t == a.initial_state);
            assert(is_eps_path(a, seq![a.initial_state]));
            assert(eps_reaches(a, a.initial_state, a.initial_state));
            if eps_reaches(a, p[0], x) {
                assert(a.all_states[x as int].accept);
            }
        }
    }
}

/// From a state of `a` that reaches an accepting state of `a`, its Kleene closure reaches by
/// epsilon transitions what `a` reaches from its initial state.
proof fn lemma_kleene_path_join(res: Automaton, a: Automaton, x: usize, y: usize, s: usize)
    requires
        kleene_wf(res, a),
        y < a.all_states.len(),
        a.all_states[y as int].accept,
        eps_reaches(a, x, y),
        eps_reaches(a, a.initial_state, s),
    ensures
        eps_reaches(res, x, s),
{
    let q1 = choose|q1: Seq<usize>| #[trigger] is_eps_path(a, q1) && q1[0] == x && q1.last() == y;
    let q2 = choose|q2: Seq<usize>| #[trigger] is_eps_path(a, q2) && q2[0] == a.initial_state && q2.last() == s;
    lemma_kleene_path_inner(res, a, q1);
    lemma_kleene_path_inner(res, a, q2);
    lemma_kleene_edge(res, a, y, a.initial_state);
    let p = q1 + q2;
    assert forall|i: int| 0 <= i < p.len() - 1 implies #[trigger] eps_edge(res, p[i], p[i + 1]) by {
        if i < q1.len() - 1 {
            assert(p[i] == q1[i] && p[i + 1] == q1[i + 1]);
        } else if i == q1.len() - 1 {
            assert(p[i] == y && p[i + 1] == q2[0]);
        } else {
            let k = i - q1.len();
            assert(eps_edge(res, q2[k], q2[k + 1]));
            assert(p[i] == q2[k] && p[i + 1] == q2[k + 1]);
        }
    }
    assert(is_eps_path(res, p));
    assert(p.last() == q2.last());
}

/// The initial state of a Kleene closure is one it can be in after reading a word exactly when
/// the word is empty.
proof fn lemma_kleene_run_init(res: Automaton, a: Automaton, w: Seq<int>)
    requires
        kleene_wf(res, a),
    ensures
        run(res, w).contains(a.all_states.len()) <==> w.len() == 0,
{
    let n = a.all_states.len();
    if w.len() == 0 {
        assert(set![res.initial_state].contains(res.initial_state));
        assert(is_eps_path(res, seq![n]));
        assert(eps_reaches(res, n, n));
    } else if run(res, w).contains(n) {
        let w0 = w.drop_last();
        let c = w.last();
        let t1 = choose|t1: usize| step(res, run(res, w0), c).contains(t1) && #[trigger] eps_reaches(res, t1, n);
        let (t0, j) = choose|t0: usize, j: int| run(res, w0).contains(t0) && t0 < res.all_states.len()
            && #[trigger] moves_on(res, t0, j, c, t1);
        lemma_kleene_moves(res, a, t0, c, t1);
        let p = choose|p: Seq<usize>| #[trigger] is_eps_path(res, p) && p[0] == t1 && p.last() == n;
        lemma_kleene_path_back(res, a, p);
    }
}

/// A state of `a` that its Kleene closure can be in after reading a word is one that `a` can be
/// in after reading a suffix of the word whose prefix is a concatenation of words of `a`.
proof fn lemma_kleene_run_back(res: Automaton, a: Automaton, w: Seq<int>, s: usize)
    requires
        kleene_wf(res, a),
        s < a.all_states.len(),
        run(res, w).contains(s),
    ensures
        exists|i: int| 0 <= i <= w.len() && #[trigger] in_star(a, w.take(i)) && run(a, w.skip(i)).contains(s),
    decreases w.len(),
{
    let n = a.all_states.len();
    if w.len() == 0 {
        let p = choose|p: Seq<usize>| #[trigger] is_eps_path(res, p) && p[0] == res.initial_state && p.last() == s;
        let z: int = 0;
        assert(eps_edge(res, p[z], p[z + 1]));
        lemma_kleene_edge(res, a, n, p[1]);
        let q = p.subrange(1, p.len() as int);
        assert forall|i: int| 0 <= i < q.len() - 1 implies #[trigger] eps_edge(res, q[i], q[i + 1]) by {
            let k = i + 1;
            assert(eps_edge(res, p[k], p[k + 1]));
        }
        lemma_kleene_path_back(res, a, q);
        assert(q.last() == s);
        assert(w.take(0) =~= w && w.skip(0) =~= w);
        assert(in_star(a, w.take(0)));
        assert(set![a.initial_state].contains(a.initial_state));
        assert(run(a, w.skip(0)).contains(s));
    } else {
        let w0 = w.drop_last();
        let c = w.last();
        let t1 = choose|t1: usize| step(res, run(res, w0), c).contains(t1) && #[trigger] eps_reaches(res, t1, s);
        let (t0, j) = choose|t0: usize, j: int| run(res, w0).contains(t0) && t0 < res.all_states.len()
            && #[trigger] moves_on(res, t0, j, c, t1);
        lemma_kleene_moves(res, a, t0, c, t1);
        let k = choose|k: int| #[trigger] moves_on(a, t0, k, c, t1);
        lemma_kleene_run_back(res, a, w0, t0);
        let i0 = choose|i: int| 0 <= i <= w0.len() && #[trigger] in_star(a, w0.take(i)) && run(a, w0.skip(i)).contains(t0);
        let u = w.skip(i0);
        assert(u.drop_last() =~= w0.skip(i0));
        assert(u.last() == c);
        assert(w.take(i0) =~= w0.take(i0));
        assert(step(a, run(a, w0.skip(i0)), c).contains(t1));
        let p = choose|p: Seq<usize>| #[trigger] is_eps_path(res, p) && p[0] == t1 && p.last() == s;
        lemma_kleene_path_back(res, a, p);
        if eps_reaches(a, t1, s) {
            assert(run(a, u).contains(s));
            assert(in_star(a, w.take(i0)));
        } else {
            let y = choose|y: usize| y < n && a.all_states[y as int].accept && #[trigger] eps_reaches(a, p[0], y);
            assert(run(a, u).contains(y));
            assert(accepts_word(a, w.skip(i0)));
            assert(in_star(a, w));
            let m = w.len() as int;
            assert(w.take(m) =~= w);
            assert(in_star(a, w.take(m)));
            assert(w.skip(m).len() == 0);
            assert(set![a.initial_state].contains(a.initial_state));
            assert(run(a, w.skip(m)).contains(s));
        }
    }
}

/// A state that `a` can be in after reading a suffix of a word whose prefix is a concatenation of
/// words of `a` is one that its Kleene closure can be in after reading the word.
proof fn lemma_kleene_run_forward(res: Automaton, a: Automaton, w: Seq<int>, i: int, s: usize)
    requires
        kleene_wf(res, a),
        0 <= i <= w.len(),
        in_star(a, w.take(i)),
        run(a, w.skip(i)).contains(s),
        s < a.all_states.len(),
    ensures
        run(res, w).contains(s),
    decreases w.len(),
{
    let n = a.all_states.len();
    if w.len() == 0 {
        assert(w.skip(0) =~= w);
        let q = choose|q: Seq<usize>| #[trigger] is_eps_path(a, q) && q[0] == a.initial_state && q.last() == s;
        lemma_kleene_path_inner(res, a, q);
        lemma_kleene_edge(res, a, n, a.initial_state);
        let p = seq![n] + q;
        assert forall|k: int| 0 <= k < p.len() - 1 implies #[trigger] eps_edge(res, p[k], p[k + 1]) by {
            if k > 0 {
                let m = k - 1;
                assert(eps_edge(res, q[m], q[m + 1]));
                assert(p[k] == q[m] && p[k + 1] == q[m + 1]);
            }
        }
        assert(is_eps_path(res, p));
        assert(p.last() == q.last());
        assert(eps_reaches(res, n, s));
        assert(set![res.initial_state].contains(res.initial_state));
    } else if i == w.len() {
        let w0 = w.drop_last();
        let c = w.last();
        assert(w.take(i) =~= w);
        let i1 = choose|i1: int| #![trigger accepts_word(a, w.skip(i1))]
            0 <= i1 < w.len() && in_star(a, w.take(i1)) && accepts_word(a, w.skip(i1));
        let y = choose|y: usize| #[trigger] run(a, w.skip(i1)).contains(y) && y < n && a.all_states[y as int].accept;
        let u = w.skip(i1);
        assert(u.drop_last() =~= w0.skip(i1));
        assert(u.last() == c);
        let x1 = choose|x1: usize| step(a, run(a, w0.skip(i1)), c).contains(x1) && #[trigger] eps_reaches(a, x1, y);
        let (x0, j) = choose|x0: usize, j: int| run(a, w0.skip(i1)).contains(x0) && x0 < n && #[trigger] moves_on(a, x0, j, c, x1);
        assert(w.take(i1) =~= w0.take(i1));
        lemma_kleene_run_forward(res, a, w0, i1, x0);
        lemma_kleene_moves(res, a, x0, c, x1);
        let k = choose|k: int| #[trigger] moves_on(res, x0, k, c, x1);
        assert(x0 < res.all_states.len());
        assert(step(res, run(res, w0), c).contains(x1));
        assert(w.skip(i).len() == 0);
        lemma_kleene_path_join(res, a, x1, y, s);
    } else {
        let w0 = w.drop_last();
        let c = w.last();
        let u = w.skip(i);
        assert(u.drop_last() =~= w0.skip(i));
        assert(u.last() == c);
        let s1 = choose|s1: usize| step(a, run(a, w0.skip(i)), c).contains(s1) && #[trigger] eps_reaches(a, s1, s);
        let (s0, j) = choose|s0: usize, j: int| run(a, w0.skip(i)).contains(s0) && s0 < n && #[trigger] moves_on(a, s0, j, c, s1);
        assert(w.take(i) =~= w0.take(i));
        lemma_kleene_run_forward(res, a, w0, i, s0);
        lemma_kleene_moves(res, a, s0, c, s1);
        let k = choose|k: int| #[trigger] moves_on(res, s0, k, c, s1);
        assert(s0 < res.all_states.len());
        assert(step(res, run(res, w0), c).contains(s1));
        let q = choose|q: Seq<usize>| #[trigger] is_eps_path(a, q) && q[0] == s1 && q.last() == s;
        lemma_kleene_path_inner(res, a, q);
        assert(eps_reaches(res, s1, s));
    }
}

/// A word is accepted by the Kleene closure of an automaton exactly when it is a concatenation of
/// words that the automaton accepts.
pub proof fn lemma_kleene_language(res: Automaton, a: Automaton, w: Seq<int>)
    requires
        is_kleene_of(res, a),
        a.wf(),
    ensures
        accepts_word(res, w) <==> in_star(a, w),
{
    assert(kleene_wf(res, a));
    let n = a.all_states.len();
    if accepts_word(res, w) {
        let t = choose|t: usize| #[trigger] run(res, w).contains(t) && t < res.all_states.len() && res.all_states[t as int].accept;
        if t == n {
            lemma_kleene_run_init(res, a, w);
        } else {
            assert(res.all_states[t as int].accept == a.all_states[t as int].accept);
            lemma_kleene_run_back(res, a, w, t);
            let i = choose|i: int| 0 <= i <= w.len() && #[trigger] in_star(a, w.take(i)) && run(a, w.skip(i)).contains(t);
            assert(accepts_word(a, w.skip(i)));
            if i == w.len() {
                assert(w.take(i) =~= w);
            }
        }
    }
    if in_star(a, w) {
        if w.len() == 0 {
            lemma_kleene_run_init(res, a, w);
        } else {
            let i = choose|i: int| #![trigger accepts_word(a, w.skip(i))]
                0 <= i < w.len() && in_star(a, w.take(i)) && accepts_word(a, w.skip(i));
            let s = choose|s: usize| #[trigger] run(a, w.skip(i)).contains(s) && s < n && a.all_states[s as int].accept;
            lemma_kleene_run_forward(res, a, w, i, s);
            assert(res.all_states[s as int].accept == a.all_states[s as int].accept);
            assert(accepts_word(res, w));
        }
    }
}

} // verus!
