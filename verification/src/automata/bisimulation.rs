//! Bisimulations between automata read as labeled transition systems: from a state, each trigger
//! that labels one of its transitions leads to the target of the first such transition.

use vstd::prelude::*;

use crate::automata::dsu::DSU;
use crate::automata::language::{
    accepts_word, deterministic, lemma_closure_without_eps, lemma_det_step, lemma_step_none, moves_on, run, step,
};
use crate::automata::{Automaton, Transition, Trigger};

verus! {

/// The triggers that label some transition of `ts`.
pub open spec fn labels_of(ts: Seq<Transition>) -> Set<Trigger> {
    Set::new(|t: Trigger| exists|j: int| 0 <= j < ts.len() && #[trigger] ts[j].trigger == t)
}

/// The target of the first transition of `ts` from position `k` on that is labeled `t`.
pub open spec fn target_from(ts: Seq<Transition>, t: Trigger, k: int) -> Option<usize>
    decreases ts.len() - k,
{
    if k < 0 || k >= ts.len() {
        None
    } else if ts[k].trigger == t {
        Some(ts[k].to)
    } else {
        target_from(ts, t, k + 1)
    }
}

/// The target of the first transition of `ts` labeled `t`.
pub open spec fn first_target(ts: Seq<Transition>, t: Trigger) -> Option<usize> {
    target_from(ts, t, 0)
}

/// The triggers that label a transition of state `s`.
pub open spec fn labels(a: Automaton, s: int) -> Set<Trigger> {
    labels_of(a.all_states[s].transitions@)
}

/// The state that the trigger `t` leads to from state `s`.
pub open spec fn next(a: Automaton, s: int, t: Trigger) -> int {
    first_target(a.all_states[s].transitions@, t)->Some_0 as int
}

/// `rel` relates states of `a1` to states of `a2` that agree on acceptance and on the triggers
/// that label their transitions, and whose successors by each such trigger are related again.
pub open spec fn is_bisimulation(a1: Automaton, a2: Automaton, rel: spec_fn(int, int) -> bool) -> bool {
    forall|x: int, y: int| #[trigger] rel(x, y) ==> {
        &&& 0 <= x < a1.all_states.len()
        &&& 0 <= y < a2.all_states.len()
        &&& a1.all_states[x].accept == a2.all_states[y].accept
        &&& labels(a1, x) == labels(a2, y)
        &&& forall|t: Trigger| #[trigger] labels(a1, x).contains(t) ==> rel(next(a1, x, t), next(a2, y, t))
    }
}

/// State `x` of `a1` and state `y` of `a2` are related by some bisimulation.
pub open spec fn bisimilar(a1: Automaton, a2: Automaton, x: int, y: int) -> bool {
    exists|rel: spec_fn(int, int) -> bool| #[trigger] is_bisimulation(a1, a2, rel) && rel(x, y)
}

/// The initial states of `a1` and `a2` are bisimilar.
pub open spec fn equivalent(a1: Automaton, a2: Automaton) -> bool {
    bisimilar(a1, a2, a1.initial_state as int, a2.initial_state as int)
}

/// Bisimilar states agree on acceptance and labels, and their successors by each label are
/// bisimilar again.
pub proof fn lemma_bisimilar(a1: Automaton, a2: Automaton, x: int, y: int)
    requires
        bisimilar(a1, a2, x, y),
    ensures
        0 <= x < a1.all_states.len(),
        0 <= y < a2.all_states.len(),
        a1.all_states[x].accept == a2.all_states[y].accept,
        labels(a1, x) == labels(a2, y),
        forall|t: Trigger| #[trigger] labels(a1, x).contains(t) ==> bisimilar(a1, a2, next(a1, x, t), next(a2, y, t)),
{
    let rel = choose|rel: spec_fn(int, int) -> bool| #[trigger] is_bisimulation(a1, a2, rel) && rel(x, y);
    assert(rel(x, y));
    assert forall|t: Trigger| #[trigger] labels(a1, x).contains(t) implies bisimilar(a1, a2, next(a1, x, t), next(a2, y, t)) by {
        assert(rel(next(a1, x, t), next(a2, y, t)));
        assert(is_bisimulation(a1, a2, rel));
    }
}

/// A pair that is `pair_ok` stays so when classes only merge.
pub proof fn lemma_pair_ok_grows(a1: Automaton, a2: Automaton, d0: DSU, d1: DSU, x: int, y: int)
    requires
        a1.wf(),
        a2.wf(),
        0 <= x < a1.all_states.len() + a2.all_states.len(),
        0 <= y < a1.all_states.len() + a2.all_states.len(),
        pair_ok(a1, a2, d0, x, y),
        forall|p: int, q: int| 0 <= p < a1.all_states.len() + a2.all_states.len() && 0 <= q < a1.all_states.len() + a2.all_states.len()
            && #[trigger] d0.same(p, q) ==> d1.same(p, q),
    ensures
        pair_ok(a1, a2, d1, x, y),
{
    assert forall|t: Trigger| #[trigger] joint_labels(a1, a2, x).contains(t) implies d1.same(joint_next(a1, a2, x, t), joint_next(a1, a2, y, t)) by {
        lemma_joint_next(a1, a2, x, t);
        lemma_joint_next(a1, a2, y, t);
        assert(d0.same(joint_next(a1, a2, x, t), joint_next(a1, a2, y, t)));
    }
}

/// Reading `w`, the automata end in the single states `x` and `y`, which are bisimilar.
spec fn runs_to(a1: Automaton, a2: Automaton, w: Seq<int>, x: usize, y: usize) -> bool {
    run(a1, w) == set![x] && run(a2, w) == set![y] && bisimilar(a1, a2, x as int, y as int)
}

/// Reading a word, two deterministic automata with bisimilar initial states either both get
/// stuck or both end in a single state, the two states bisimilar.
proof fn lemma_bisimilar_runs(a1: Automaton, a2: Automaton, w: Seq<int>)
    requires
        a1.wf(),
        a2.wf(),
        deterministic(a1),
        deterministic(a2),
        equivalent(a1, a2),
    ensures
        (run(a1, w) == Set::<usize>::empty() && run(a2, w) == Set::<usize>::empty())
            || exists|x: usize, y: usize| #[trigger] runs_to(a1, a2, w, x, y),
    decreases w.len(),
{
    if w.len() == 0 {
        lemma_closure_without_eps(a1, set![a1.initial_state]);
        lemma_closure_without_eps(a2, set![a2.initial_state]);
        assert(runs_to(a1, a2, w, a1.initial_state, a2.initial_state));
    } else {
        let v = w.drop_last();
        let c = w.last();
        lemma_bisimilar_runs(a1, a2, v);
        if run(a1, v) == Set::<usize>::empty() && run(a2, v) == Set::<usize>::empty() {
            assert(step(a1, run(a1, v), c) =~= Set::<usize>::empty());
            assert(step(a2, run(a2, v), c) =~= Set::<usize>::empty());
            lemma_closure_without_eps(a1, Set::<usize>::empty());
            lemma_closure_without_eps(a2, Set::<usize>::empty());
        } else {
            let (x, y) = choose|x: usize, y: usize| #[trigger] runs_to(a1, a2, v, x, y);
            lemma_bisimilar(a1, a2, x as int, y as int);
            let ts1 = a1.all_states[x as int].transitions@;
            let ts2 = a2.all_states[y as int].transitions@;
            if exists|j: int| 0 <= j < ts1.len() && #[trigger] ts1[j].trigger.spec_covers(c) {
                let j = choose|j: int| 0 <= j < ts1.len() && #[trigger] ts1[j].trigger.spec_covers(c);
                let t = ts1[j].trigger;
                assert(labels(a1, x as int).contains(t));
                lemma_det_step(a1, x, j, c);
                lemma_first_target(ts1, t);
                let n1 = first_target(ts1, t)->Some_0;
                let j1 = choose|j1: int| 0 <= j1 < ts1.len() && ts1[j1] == Transition { to: n1, trigger: t };
                assert(moves_on(a1, x, j1, c, n1));
                assert(step(a1, set![x], c).contains(n1));
                assert(n1 == ts1[j].to);
                assert(labels(a2, y as int).contains(t));
                lemma_first_target(ts2, t);
                let n2 = first_target(ts2, t)->Some_0;
                let j2 = choose|j2: int| 0 <= j2 < ts2.len() && ts2[j2] == Transition { to: n2, trigger: t };
                assert(ts2[j2].trigger.spec_covers(c));
                lemma_det_step(a2, y, j2, c);
                assert(bisimilar(a1, a2, next(a1, x as int, t), next(a2, y as int, t)));
                lemma_closure_without_eps(a1, set![n1]);
                lemma_closure_without_eps(a2, set![n2]);
                assert(run(a1, w) == set![n1]);
                assert(run(a2, w) == set![n2]);
                assert(runs_to(a1, a2, w, n1, n2));
            } else {
                lemma_step_none(a1, x, c);
                assert forall|j2: int| 0 <= j2 < ts2.len() implies !(#[trigger] a2.all_states[y as int].transitions@[j2].trigger.spec_covers(c)) by {
                    if ts2[j2].trigger.spec_covers(c) {
                        let t = ts2[j2].trigger;
                        assert(labels(a2, y as int).contains(t));
                        assert(labels(a1, x as int).contains(t));
                        let j = choose|j: int| 0 <= j < ts1.len() && #[trigger] ts1[j].trigger == t;
                        assert(ts1[j].trigger.spec_covers(c));
                    }
                }
                lemma_step_none(a2, y, c);
                lemma_closure_without_eps(a1, Set::<usize>::empty());
                lemma_closure_without_eps(a2, Set::<usize>::empty());
            }
        }
    }
}

/// Deterministic automata whose initial states are bisimilar accept the same words.
pub proof fn lemma_equivalent_same_language(a1: Automaton, a2: Automaton, w: Seq<int>)
    requires
        a1.wf(),
        a2.wf(),
        deterministic(a1),
        deterministic(a2),
        equivalent(a1, a2),
    ensures
        accepts_word(a1, w) == accepts_word(a2, w),
{
    lemma_bisimilar_runs(a1, a2, w);
    if !(run(a1, w) == Set::<usize>::empty() && run(a2, w) == Set::<usize>::empty()) {
        let (x, y) = choose|x: usize, y: usize| #[trigger] runs_to(a1, a2, w, x, y);
        lemma_bisimilar(a1, a2, x as int, y as int);
        if accepts_word(a1, w) {
            let s = choose|s: usize| #[trigger] run(a1, w).contains(s) && s < a1.all_states.len() && a1.all_states[s as int].accept;
            assert(s == x);
            assert(run(a2, w).contains(y));
        }
        if accepts_word(a2, w) {
            let s = choose|s: usize| #[trigger] run(a2, w).contains(s) && s < a2.all_states.len() && a2.all_states[s as int].accept;
            assert(s == y);
            assert(run(a1, w).contains(x));
        }
    }
}

/// The first labeled target from position `k` on exists exactly when a transition from there on
/// carries the label, and it is the target of one of them.
pub proof fn lemma_target_from(ts: Seq<Transition>, t: Trigger, k: int)
    requires
        0 <= k <= ts.len(),
    ensures
        target_from(ts, t, k) is Some <==> exists|j: int| k <= j < ts.len() && #[trigger] ts[j].trigger == t,
        target_from(ts, t, k) is Some ==> exists|j: int| k <= j < ts.len() && #[trigger] ts[j] == (Transition {
            to: target_from(ts, t, k)->Some_0,
            trigger: t,
        }),
    decreases ts.len() - k,
{
    if k < ts.len() {
        lemma_target_from(ts, t, k + 1);
        if ts[k].trigger != t {
            if exists|j: int| k <= j < ts.len() && #[trigger] ts[j].trigger == t {
                let j = choose|j: int| k <= j < ts.len() && #[trigger] ts[j].trigger == t;
                assert(j != k);
            }
        } else {
            assert(ts[k] == Transition { to: ts[k].to, trigger: t });
        }
    }
}

/// The first labeled target exists exactly for the labels of `ts`, and it is the target of a
/// transition of `ts` with that label.
pub proof fn lemma_first_target(ts: Seq<Transition>, t: Trigger)
    ensures
        first_target(ts, t) is Some <==> labels_of(ts).contains(t),
        first_target(ts, t) is Some ==> ts.contains(Transition { to: first_target(ts, t)->Some_0, trigger: t }),
{
    lemma_target_from(ts, t, 0);
    if first_target(ts, t) is Some {
        let j = choose|j: int| 0 <= j < ts.len() && #[trigger] ts[j] == (Transition {
            to: target_from(ts, t, 0)->Some_0,
            trigger: t,
        });
        assert(ts[j].trigger == t);
    }
}

/// The states of the two automata side by side: those of `a1` first, then those of `a2`.
pub open spec fn joint_accept(a1: Automaton, a2: Automaton, i: int) -> bool {
    if i < a1.all_states.len() {
        a1.all_states[i].accept
    } else {
        a2.all_states[i - a1.all_states.len()].accept
    }
}

/// The labels of a state of the two automata side by side.
pub open spec fn joint_labels(a1: Automaton, a2: Automaton, i: int) -> Set<Trigger> {
    if i < a1.all_states.len() {
        labels(a1, i)
    } else {
        labels(a2, i - a1.all_states.len())
    }
}

/// The successor of a state of the two automata side by side.
pub open spec fn joint_next(a1: Automaton, a2: Automaton, i: int, t: Trigger) -> int {
    if i < a1.all_states.len() {
        next(a1, i, t)
    } else {
        next(a2, i - a1.all_states.len(), t) + a1.all_states.len()
    }
}

/// Side by side, the successors of a state by its labels are states again.
pub proof fn lemma_joint_next(a1: Automaton, a2: Automaton, i: int, t: Trigger)
    requires
        a1.wf(),
        a2.wf(),
        0 <= i < a1.all_states.len() + a2.all_states.len(),
        joint_labels(a1, a2, i).contains(t),
    ensures
        i < a1.all_states.len() ==> 0 <= joint_next(a1, a2, i, t) < a1.all_states.len(),
        i >= a1.all_states.len() ==> a1.all_states.len() <= joint_next(a1, a2, i, t) < a1.all_states.len() + a2.all_states.len(),
{
    let n1 = a1.all_states.len() as int;
    if i < n1 {
        let ts = a1.all_states[i].transitions@;
        lemma_first_target(ts, t);
        let j = choose|j: int| 0 <= j < ts.len() && ts[j] == Transition { to: first_target(ts, t)->Some_0, trigger: t };
        assert(a1.all_states[i].transitions[j].to < a1.all_states.len());
    } else {
        let ts = a2.all_states[i - n1].transitions@;
        lemma_first_target(ts, t);
        let j = choose|j: int| 0 <= j < ts.len() && ts[j] == Transition { to: first_target(ts, t)->Some_0, trigger: t };
        assert(a2.all_states[i - n1].transitions[j].to < a2.all_states.len());
    }
}

/// A pair of states, side by side, that agree on acceptance and labels and whose successors by
/// each label are in one class of `d`.
pub open spec fn pair_ok(a1: Automaton, a2: Automaton, d: DSU, x: int, y: int) -> bool {
    &&& joint_accept(a1, a2, x) == joint_accept(a1, a2, y)
    &&& joint_labels(a1, a2, x) == joint_labels(a1, a2, y)
    &&& forall|t: Trigger| #[trigger] joint_labels(a1, a2, x).contains(t) ==> d.same(joint_next(a1, a2, x, t), joint_next(a1, a2, y, t))
}

/// Whether an edge of `edges` joins `x` and `y`, in either direction.
pub open spec fn linked(edges: Set<(usize, usize)>, x: usize, y: usize) -> bool {
    edges.contains((x, y)) || edges.contains((y, x))
}

/// Whether consecutive elements of `p` are linked by `edges`.
pub open spec fn is_chain(edges: Set<(usize, usize)>, p: Seq<usize>) -> bool {
    &&& p.len() >= 1
    &&& forall|i: int| 0 <= i < p.len() - 1 ==> #[trigger] linked(edges, p[i], p[i + 1])
}

/// Whether a chain of `edges` leads from `x` to `y`.
pub open spec fn connected(edges: Set<(usize, usize)>, x: usize, y: usize) -> bool {
    exists|p: Seq<usize>| #[trigger] is_chain(edges, p) && p[0] == x && p.last() == y
}

/// Every element is connected to itself.
pub proof fn lemma_connected_refl(edges: Set<(usize, usize)>, x: usize)
    ensures
        connected(edges, x, x),
{
    let p = seq![x];
    assert(is_chain(edges, p));
}

/// An edge connects its ends.
pub proof fn lemma_connected_edge(edges: Set<(usize, usize)>, x: usize, y: usize)
    requires
        linked(edges, x, y),
    ensures
        connected(edges, x, y),
{
    let p = seq![x, y];
    assert(linked(edges, p[0], p[1]));
    assert(is_chain(edges, p));
}

/// Chains compose.
pub proof fn lemma_connected_trans(edges: Set<(usize, usize)>, x: usize, y: usize, z: usize)
    requires
        connected(edges, x, y),
        connected(edges, y, z),
    ensures
        connected(edges, x, z),
{
    let p = choose|p: Seq<usize>| #[trigger] is_chain(edges, p) && p[0] == x && p.last() == y;
    let q = choose|q: Seq<usize>| #[trigger] is_chain(edges, q) && q[0] == y && q.last() == z;
    let r = p + q.drop_first();
    assert forall|i: int| 0 <= i < r.len() - 1 implies #[trigger] linked(edges, r[i], r[i + 1]) by {
        if i < p.len() - 1 {
            assert(r[i] == p[i] && r[i + 1] == p[i + 1]);
        } else if i == p.len() - 1 {
            assert(r[i] == q[0]);
            assert(r[i + 1] == q[1]);
            assert(linked(edges, q[0], q[1]));
        } else {
            let k = i - p.len() + 1;
            assert(r[i] == q[k] && r[i + 1] == q[k + 1]);
            assert(linked(edges, q[k], q[k + 1]));
        }
    }
    assert(is_chain(edges, r));
    if q.len() == 1 {
        assert(r =~= p);
    } else {
        assert(r.last() == q.last());
    }
}

/// Chains survive more edges.
pub proof fn lemma_connected_mono(edges: Set<(usize, usize)>, more: Set<(usize, usize)>, x: usize, y: usize)
    requires
        connected(edges, x, y),
        edges.subset_of(more),
    ensures
        connected(more, x, y),
{
    let p = choose|p: Seq<usize>| #[trigger] is_chain(edges, p) && p[0] == x && p.last() == y;
    assert forall|i: int| 0 <= i < p.len() - 1 implies #[trigger] linked(more, p[i], p[i + 1]) by {
        assert(linked(edges, p[i], p[i + 1]));
    }
    assert(is_chain(more, p));
}

/// Along a chain of edges whose pairs are all `pair_ok`, the ends agree on acceptance and
/// labels and have successors in one class.
pub proof fn lemma_chain_ok(a1: Automaton, a2: Automaton, d: DSU, edges: Set<(usize, usize)>, p: Seq<usize>)
    requires
        is_chain(edges, p),
        forall|e: (usize, usize)| #[trigger] edges.contains(e) ==> pair_ok(a1, a2, d, e.0 as int, e.1 as int),
    ensures
        joint_accept(a1, a2, p[0] as int) == joint_accept(a1, a2, p.last() as int),
        joint_labels(a1, a2, p[0] as int) == joint_labels(a1, a2, p.last() as int),
        forall|t: Trigger| #[trigger] joint_labels(a1, a2, p[0] as int).contains(t) ==> d.same(
            joint_next(a1, a2, p[0] as int, t),
            joint_next(a1, a2, p.last() as int, t),
        ),
    decreases p.len(),
{
    if p.len() > 1 {
        let q = p.drop_last();
        assert forall|i: int| 0 <= i < q.len() - 1 implies #[trigger] linked(edges, q[i], q[i + 1]) by {
            assert(linked(edges, p[i], p[i + 1]));
        }
        lemma_chain_ok(a1, a2, d, edges, q);
        let i = p.len() - 2;
        assert(linked(edges, p[i], p[i + 1]));
        let u = q.last() as int;
        let v = p.last() as int;
        assert(u == p[i] && v == p[i + 1]);
        if edges.contains((p[i], p[i + 1])) {
            assert(pair_ok(a1, a2, d, u, v));
        } else {
            assert(edges.contains((p[i + 1], p[i])));
            assert(pair_ok(a1, a2, d, v, u));
        }
        assert forall|t: Trigger| #[trigger] joint_labels(a1, a2, p[0] as int).contains(t) implies d.same(
            joint_next(a1, a2, p[0] as int, t),
            joint_next(a1, a2, v, t),
        ) by {
            assert(d.same(joint_next(a1, a2, p[0] as int, t), joint_next(a1, a2, u, t)));
            assert(joint_labels(a1, a2, u).contains(t));
            if edges.contains((p[i], p[i + 1])) {
                assert(d.same(joint_next(a1, a2, u, t), joint_next(a1, a2, v, t)));
            } else {
                assert(joint_labels(a1, a2, v).contains(t));
                assert(d.same(joint_next(a1, a2, v, t), joint_next(a1, a2, u, t)));
            }
        }
    }
}

/// When every edge is `pair_ok` and elements in one class are connected, the states of `a1` and
/// `a2` connected through the edges form a bisimulation.
pub proof fn lemma_connected_bisimulation(a1: Automaton, a2: Automaton, d: DSU, edges: Set<(usize, usize)>)
    requires
        a1.wf(),
        a2.wf(),
        d.len() == a1.all_states.len() + a2.all_states.len(),
        a1.all_states.len() + a2.all_states.len() <= usize::MAX,
        forall|e: (usize, usize)| #[trigger] edges.contains(e) ==> pair_ok(a1, a2, d, e.0 as int, e.1 as int),
        forall|x: usize, y: usize| x < d.len() && y < d.len() && #[trigger] d.same(x as int, y as int) ==> connected(edges, x, y),
    ensures
        is_bisimulation(a1, a2, |x: int, y: int| 0 <= x < a1.all_states.len() && 0 <= y < a2.all_states.len()
            && connected(edges, x as usize, (y + a1.all_states.len()) as usize)),
{
    let n1 = a1.all_states.len() as int;
    let n2 = a2.all_states.len() as int;
    let rel = |x: int, y: int| 0 <= x < n1 && 0 <= y < n2 && connected(edges, x as usize, (y + n1) as usize);
    assert forall|x: int, y: int| #[trigger] rel(x, y) implies {
        &&& 0 <= x < a1.all_states.len()
        &&& 0 <= y < a2.all_states.len()
        &&& a1.all_states[x].accept == a2.all_states[y].accept
        &&& labels(a1, x) == labels(a2, y)
        &&& forall|t: Trigger| #[trigger] labels(a1, x).contains(t) ==> rel(next(a1, x, t), next(a2, y, t))
    } by {
        let yj = (y + n1) as usize;
        assert(yj as int == y + n1);
        let p = choose|p: Seq<usize>| #[trigger] is_chain(edges, p) && p[0] == x as usize && p.last() == yj;
        lemma_chain_ok(a1, a2, d, edges, p);
        assert(joint_accept(a1, a2, x) == a1.all_states[x].accept);
        assert(joint_accept(a1, a2, yj as int) == a2.all_states[y].accept);
        assert(joint_labels(a1, a2, yj as int) == labels(a2, y));
        assert forall|t: Trigger| #[trigger] labels(a1, x).contains(t) implies rel(next(a1, x, t), next(a2, y, t)) by {
            assert(joint_labels(a1, a2, x).contains(t));
            lemma_joint_next(a1, a2, x, t);
            assert(joint_labels(a1, a2, yj as int).contains(t));
            lemma_joint_next(a1, a2, yj as int, t);
            let u = joint_next(a1, a2, x, t);
            let v = joint_next(a1, a2, yj as int, t);
            assert(d.same(u, v));
            assert(d.same(u as usize as int, v as usize as int));
            assert(connected(edges, u as usize, v as usize));
            assert(v == next(a2, y, t) + n1);
        }
    }
}


/// Every automaton is equivalent to itself.
pub proof fn lemma_equivalent_reflexive(a: Automaton)
    requires
        a.wf(),
    ensures
        equivalent(a, a),
{
    let n = a.all_states.len() as int;
    let rel = |x: int, y: int| x == y && 0 <= x < n;
    assert forall|x: int, y: int| #[trigger] rel(x, y) implies {
        &&& 0 <= x < a.all_states.len()
        &&& 0 <= y < a.all_states.len()
        &&& a.all_states[x].accept == a.all_states[y].accept
        &&& labels(a, x) == labels(a, y)
        &&& forall|t: Trigger| #[trigger] labels(a, x).contains(t) ==> rel(next(a, x, t), next(a, y, t))
    } by {
        assert forall|t: Trigger| #[trigger] labels(a, x).contains(t) implies rel(next(a, x, t), next(a, y, t)) by {
            lemma_joint_next(a, a, x, t);
        }
    }
    assert(is_bisimulation(a, a, rel));
    assert(rel(a.initial_state as int, a.initial_state as int));
}


/// What `is_equivalent` decides, for automata of any size: deterministic automata that it finds
/// equivalent accept the same words, and every automaton is equivalent to itself.
pub proof fn lemma_equivalence_law(a1: Automaton, a2: Automaton)
    requires
        a1.wf(),
        a2.wf(),
        deterministic(a1),
        deterministic(a2),
    ensures
        equivalent(a1, a2) ==> forall|w: Seq<int>| #[trigger] accepts_word(a1, w) == accepts_word(a2, w),
        equivalent(a1, a1),
{
    if equivalent(a1, a2) {
        assert forall|w: Seq<int>| #[trigger] accepts_word(a1, w) == accepts_word(a2, w) by {
            lemma_equivalent_same_language(a1, a2, w);
        }
    }
    lemma_equivalent_reflexive(a1);
}

} // verus!
