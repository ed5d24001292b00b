//! Operations on automata: reachability of accepting states, product, equivalence and
//! complement.

use vstd::prelude::*;

use crate::automata::bisimulation::{
    bisimilar, connected, equivalent, first_target, is_bisimulation, joint_labels, joint_next, labels, labels_of,
    lemma_bisimilar, lemma_connected_bisimulation, lemma_connected_edge, lemma_connected_mono, lemma_connected_refl,
    lemma_connected_trans, lemma_first_target, lemma_joint_next, lemma_pair_ok_grows, next, pair_ok, target_from,
};
use crate::automata::determinize::bits_set;
use crate::automata::dsu::DSU;
use crate::automata::language::{accepts_word, lemma_closure_without_eps, moves_on, no_eps, run, step};
use crate::automata::utils::{all_valid, intersect_ranges, totalize, totalized_transition};
use crate::automata::{insert_transition, Automaton, State, StateId, Transition, Trigger};
use crate::error::CheckerError;
use crate::text::{decimal, intersection_name, pair_text, suffixed};
use vstd::set_lib::{lemma_int_range, lemma_len_subset, set_int_range};

verus! {

/// Whether some transition leads from state `s` to state `t`, whatever it consumes.
pub open spec fn edge(a: Automaton, s: StateId, t: StateId) -> bool {
    &&& s < a.all_states.len()
    &&& exists|j: int| 0 <= j < a.all_states[s as int].transitions.len() && #[trigger] a.all_states[s as int].transitions@[j].to == t
}

/// Whether `p` is a path of transitions.
pub open spec fn is_path(a: Automaton, p: Seq<StateId>) -> bool {
    &&& p.len() >= 1
    &&& forall|i: int| 0 <= i < p.len() - 1 ==> #[trigger] edge(a, p[i], p[i + 1])
}

/// Whether state `t` can be reached from state `s` by following transitions.
pub open spec fn reachable(a: Automaton, s: StateId, t: StateId) -> bool {
    exists|p: Seq<StateId>| #[trigger] is_path(a, p) && p[0] == s && p.last() == t
}

/// Extends a path by one transition.
proof fn lemma_path_extend(a: Automaton, p: Seq<StateId>, t: StateId)
    requires
        is_path(a, p),
        edge(a, p.last(), t),
    ensures
        is_path(a, p.push(t)),
        p.push(t)[0] == p[0],
        p.push(t).last() == t,
{
    let q = p.push(t);
    assert forall|i: int| 0 <= i < q.len() - 1 implies #[trigger] edge(a, q[i], q[i + 1]) by {
        if i < p.len() - 1 {
            assert(q[i] == p[i] && q[i + 1] == p[i + 1]);
        } else {
            assert(q[i] == p.last());
        }
    }
}

/// A set of states closed under transitions contains everything reachable from its members.
proof fn lemma_closed_contains_reachable(a: Automaton, c: Set<StateId>, p: Seq<StateId>)
    requires
        is_path(a, p),
        c.contains(p[0]),
        forall|s: StateId, t: StateId| c.contains(s) && #[trigger] edge(a, s, t) ==> c.contains(t),
    ensures
        c.contains(p.last()),
    decreases p.len(),
{
    if p.len() > 1 {
        let q = p.drop_last();
        assert forall|i: int| 0 <= i < q.len() - 1 implies #[trigger] edge(a, q[i], q[i + 1]) by {
            assert(edge(a, p[i], p[i + 1]));
        }
        lemma_closed_contains_reachable(a, c, q);
        let i = p.len() - 2;
        assert(edge(a, p[i], p[i + 1]));
        assert(q.last() == p[i]);
    }
}

/// Whether some accepting state can be reached from the initial state, following transitions
/// whatever they consume.
pub fn has_reachable_accepting_state(a: Automaton) -> (res: bool)
    requires
        a.wf(),
    ensures
        res == exists|s: StateId| s < a.all_states.len() && a.all_states[s as int].accept
            && #[trigger] reachable(a, a.initial_state, s),
{
    let n = a.all_states.len();
    let mut visited: Vec<bool> = Vec::new();
    for i in 0..n
        invariant
            visited@.len() == i,
            forall|k: int| 0 <= k < i ==> !visited@[k],
    {
        visited.push(false);
    }
    let mut count: usize = 0;
    let mut stack: Vec<StateId> = Vec::new();
    let ghost full = Set::<StateId>::range(0, n);
    proof {
        <usize as vstd::set_lib::FiniteRange>::range_properties(0, n);
        assert(bits_set(visited@) =~= Set::<StateId>::empty());
    }
    let init = a.initial_state;
    visited.set(init, true);
    count = 1;
    stack.push(init);
    proof {
        assert(bits_set(visited@) =~= set![init]);
        let p = seq![init];
        assert(is_path(a, p));
        assert(reachable(a, init, init));
        assert(stack@[0] == init);
    }
    while stack.len() > 0
        invariant
            a.wf(),
            n == a.all_states.len(),
            init == a.initial_state,
            visited@.len() == n,
            full == Set::<StateId>::range(0, n),
            full.finite(),
            full.len() == n,
            bits_set(visited@).subset_of(full),
            bits_set(visited@).finite(),
            count == bits_set(visited@).len(),
            count <= n,
            visited@[init as int],
            forall|t: StateId| #[trigger] bits_set(visited@).contains(t) ==> reachable(a, init, t),
            stack@.no_duplicates(),
            forall|k: int| 0 <= k < stack@.len() ==> #[trigger] stack@[k] < n && visited@[stack@[k] as int],
            forall|s: StateId, t: StateId| bits_set(visited@).contains(s) && !stack@.contains(s) && #[trigger] edge(a, s, t)
                ==> bits_set(visited@).contains(t),
        decreases n - count, stack@.len(),
    {
        let ghost stack_before = stack@;
        let s = stack.pop().unwrap();
        let ghost count0 = count;
        let ghost st0 = stack@;
        proof {
            assert(stack_before == stack@.push(s));
            assert(stack_before[stack@.len() as int] == s);
            assert(!stack@.contains(s)) by {
                if stack@.contains(s) {
                    let k = choose|k: int| 0 <= k < stack@.len() && stack@[k] == s;
                    assert(stack_before[k] == stack_before[stack@.len() as int]);
                }
            }
            assert forall|k: int| 0 <= k < stack@.len() implies #[trigger] stack@[k] < n && visited@[stack@[k] as int] by {
                assert(stack_before[k] == stack@[k]);
            }
            assert forall|s2: StateId, t: StateId| bits_set(visited@).contains(s2) && !stack@.contains(s2) && s2 != s && #[trigger] edge(a, s2, t)
                implies bits_set(visited@).contains(t) by {
                if stack_before.contains(s2) {
                    let k = choose|k: int| 0 <= k < stack_before.len() && stack_before[k] == s2;
                    if k < stack@.len() {
                        assert(stack@[k] == s2);
                    }
                }
            }
            assert(bits_set(visited@).contains(s));
        }
        let ts = &a.all_states[s].transitions;
        for j in 0..ts.len()
            invariant
                a.wf(),
                n == a.all_states.len(),
                s < n,
                init == a.initial_state,
                *ts == a.all_states[s as int].transitions,
                visited@.len() == n,
                full == Set::<StateId>::range(0, n),
                full.finite(),
                full.len() == n,
                bits_set(visited@).subset_of(full),
                bits_set(visited@).finite(),
                count == bits_set(visited@).len(),
                count <= n,
                count0 <= count,
                count == count0 ==> stack@ == st0,
                visited@[init as int],
                visited@[s as int],
                !stack@.contains(s),
                forall|t: StateId| #[trigger] bits_set(visited@).contains(t) ==> reachable(a, init, t),
                stack@.no_duplicates(),
                forall|k: int| 0 <= k < stack@.len() ==> #[trigger] stack@[k] < n && visited@[stack@[k] as int],
                forall|s2: StateId, t: StateId| bits_set(visited@).contains(s2) && !stack@.contains(s2) && s2 != s && #[trigger] edge(a, s2, t)
                    ==> bits_set(visited@).contains(t),
                forall|m: int| 0 <= m < j ==> bits_set(visited@).contains(#[trigger] ts@[m].to),
        {
            let next = ts[j].to;
            assert(next < n);
            if !visited[next] {
                proof {
                    assert(edge(a, s, next)) by {
                        assert(ts@[j as int].to == next);
                    }
                    assert(bits_set(visited@).contains(s));
                    let p = choose|p: Seq<StateId>| #[trigger] is_path(a, p) && p[0] == init && p.last() == s;
                    lemma_path_extend(a, p, next);
                    assert(reachable(a, init, next));
                }
                let ghost old_visited = visited@;
                let ghost old_stack = stack@;
                visited.set(next, true);
                stack.push(next);
                proof {
                    vstd::set_lib::lemma_len_subset(bits_set(visited@), full);
                    assert(bits_set(visited@) =~= bits_set(old_visited).insert(next));
                }
                count = count + 1;
                proof {
                    assert(bits_set(visited@) =~= bits_set(old_visited).insert(next));
                    assert(!bits_set(old_visited).contains(next));
                    assert(bits_set(visited@).len() == bits_set(old_visited).len() + 1);
                    vstd::set_lib::lemma_len_subset(bits_set(visited@), full);
                    assert forall|k: int| 0 <= k < stack@.len() implies #[trigger] stack@[k] < n && visited@[stack@[k] as int] by {
                        if k < old_stack.len() {
                            assert(stack@[k] == old_stack[k]);
                        }
                    }
                    assert(stack@.no_duplicates()) by {
                        assert forall|x: int, y: int| 0 <= x < y < stack@.len() implies stack@[x] != stack@[y] by {
                            if y == old_stack.len() {
                                assert(old_visited[old_stack[x] as int]);
                            } else {
                                assert(stack@[x] == old_stack[x] && stack@[y] == old_stack[y]);
                            }
                        }
                    }
                    assert(!stack@.contains(s)) by {
                        if stack@.contains(s) {
                            let k = choose|k: int| 0 <= k < stack@.len() && stack@[k] == s;
                            if k < old_stack.len() {
                                assert(old_stack[k] == s);
                            }
                        }
                    }
                    assert forall|s2: StateId, t: StateId| bits_set(visited@).contains(s2) && !stack@.contains(s2) && s2 != s && #[trigger] edge(a, s2, t)
                        implies bits_set(visited@).contains(t) by {
                        if s2 != next {
                            assert(bits_set(old_visited).contains(s2));
                            if old_stack.contains(s2) {
                                let k = choose|k: int| 0 <= k < old_stack.len() && old_stack[k] == s2;
                                assert(stack@[k] == s2);
                            }
                        } else {
                            assert(stack@[old_stack.len() as int] == s2);
                        }
                    }
                    vstd::set_lib::lemma_len_subset(bits_set(old_visited), full);
                }
            }
        }
        proof {
            assert forall|s2: StateId, t: StateId| bits_set(visited@).contains(s2) && !stack@.contains(s2) && #[trigger] edge(a, s2, t)
                implies bits_set(visited@).contains(t) by {
                if s2 == s {
                    let m = choose|m: int| 0 <= m < ts@.len() && #[trigger] ts@[m].to == t;
                }
            }
            if count == count0 {
                assert(stack@.len() < stack_before.len());
            }
        }
    }
    let mut found = false;
    for s in 0..n
        invariant
            n == a.all_states.len(),
            visited@.len() == n,
            found == exists|q: StateId| q < s && visited@[q as int] && a.all_states[q as int].accept,
    {
        if visited[s] && a.all_states[s].accept {
            found = true;
        }
    }
    proof {
        assert forall|q: StateId| q < n && reachable(a, init, q) implies #[trigger] visited@[q as int] by {
            let p = choose|p: Seq<StateId>| #[trigger] is_path(a, p) && p[0] == init && p.last() == q;
            lemma_closed_contains_reachable(a, bits_set(visited@), p);
        }
        if found {
            let q = choose|q: StateId| q < n && visited@[q as int] && a.all_states[q as int].accept;
            assert(bits_set(visited@).contains(q));
            assert(reachable(a, init, q));
        }
        if exists|q: StateId| q < a.all_states.len() && a.all_states[q as int].accept && #[trigger] reachable(a, a.initial_state, q) {
            let q = choose|q: StateId| q < a.all_states.len() && a.all_states[q as int].accept && #[trigger] reachable(a, a.initial_state, q);
            assert(visited@[q as int]);
        }
    }
    found
}

/// The range of symbols that both triggers consume, if they are ranges that overlap.
pub open spec fn overlap_range(t1: Trigger, t2: Trigger) -> Option<(u16, u16)> {
    match (t1, t2) {
        (Trigger::Range(a, b), Trigger::Range(c, d)) => {
            let lo = if a >= c { a } else { c };
            let hi = if b <= d { b } else { d };
            if lo <= hi { Some((lo, hi)) } else { None }
        },
        _ => None,
    }
}

/// The `j1`-th transition of the state `p.0` of `a1` and the `j2`-th transition of the state
/// `p.1` of `a2` overlap, and `u` is their product: it consumes the common range, and leads to
/// the state that `pairs` lists for the pair of their targets.
pub open spec fn product_step(
    a1: Automaton,
    a2: Automaton,
    p: (StateId, StateId),
    j1: int,
    j2: int,
    pairs: Seq<(StateId, StateId)>,
    u: Transition,
) -> bool {
    let t1 = a1.all_states[p.0 as int].transitions@[j1];
    let t2 = a2.all_states[p.1 as int].transitions@[j2];
    &&& 0 <= j1 < a1.all_states[p.0 as int].transitions@.len()
    &&& 0 <= j2 < a2.all_states[p.1 as int].transitions@.len()
    &&& overlap_range(t1.trigger, t2.trigger) matches Some((lo, hi)) && u.trigger == Trigger::Range(lo, hi)
    &&& u.to < pairs.len()
    &&& pairs[u.to as int] == (t1.to, t2.to)
}

/// Whether the product of the two automata has the transition `u` from its state `k`.
pub open spec fn product_transition(a1: Automaton, a2: Automaton, pairs: Seq<(StateId, StateId)>, k: int, u: Transition) -> bool {
    exists|j1: int, j2: int| #[trigger] product_step(a1, a2, pairs[k], j1, j2, pairs, u)
}

/// `res` is the product of `a1` and `a2`, whose states stand for the pairs `pairs`: the first
/// pair is that of the initial states; a pair accepts when both of its states do; the
/// transitions of a pair are the products of the overlapping transitions of its states; and the
/// pair of the targets of each two overlapping transitions is listed.
pub open spec fn is_product(res: Automaton, a1: Automaton, a2: Automaton, pairs: Seq<(StateId, StateId)>) -> bool {
    &&& res.initial_state == 0
    &&& res.name@ == "("@ + a1.name@ + " ∩ "@ + a2.name@ + ")"@
    &&& pairs.len() == res.all_states.len()
    &&& pairs.len() >= 1
    &&& pairs[0] == (a1.initial_state, a2.initial_state)
    &&& pairs.no_duplicates()
    &&& forall|k: int| #![trigger res.all_states[k]] 0 <= k < pairs.len() ==> {
        &&& pairs[k].0 < a1.all_states.len()
        &&& pairs[k].1 < a2.all_states.len()
        &&& res.all_states[k].id@ == "("@ + decimal(pairs[k].0 as nat) + ", "@ + decimal(pairs[k].1 as nat) + ")"@
        &&& res.all_states[k].accept == (a1.all_states[pairs[k].0 as int].accept && a2.all_states[pairs[k].1 as int].accept)
        &&& forall|u: Transition| #![trigger res.all_states[k].transitions@.contains(u)]
            res.all_states[k].transitions@.contains(u) <==> product_transition(a1, a2, pairs, k, u)
        &&& forall|j1: int, j2: int| #![trigger product_target(a1, a2, pairs[k], j1, j2)]
            0 <= j1 < a1.all_states[pairs[k].0 as int].transitions@.len()
            && 0 <= j2 < a2.all_states[pairs[k].1 as int].transitions@.len()
            && overlap_range(a1.all_states[pairs[k].0 as int].transitions@[j1].trigger,
                a2.all_states[pairs[k].1 as int].transitions@[j2].trigger) is Some
            ==> pairs.contains(product_target(a1, a2, pairs[k], j1, j2))
    }
}

/// The product has no epsilon transition.
pub(crate) proof fn lemma_product_no_eps(res: Automaton, a1: Automaton, a2: Automaton, pairs: Seq<(StateId, StateId)>)
    requires
        is_product(res, a1, a2, pairs),
    ensures
        no_eps(res),
{
    assert forall|s: int, j: int| 0 <= s < res.all_states.len() && 0 <= j < res.all_states[s].transitions.len()
        implies #[trigger] res.all_states[s].transitions@[j].trigger != Trigger::Epsilon by {
        let u = res.all_states[s].transitions@[j];
        assert(res.all_states[s].transitions@.contains(u));
        let (j1, j2) = choose|j1: int, j2: int| #[trigger] product_step(a1, a2, pairs[s], j1, j2, pairs, u);
    }
}

/// Reading one more symbol, a state of the product reached from a state it could be in stands
/// for a pair of states that the two automata can reach on that symbol.
proof fn lemma_product_step_forward(
    res: Automaton,
    a1: Automaton,
    a2: Automaton,
    pairs: Seq<(StateId, StateId)>,
    from: Set<usize>,
    from1: Set<usize>,
    from2: Set<usize>,
    c: int,
    k: usize,
)
    requires
        is_product(res, a1, a2, pairs),
        forall|s: usize| #[trigger] from.contains(s) ==> s < pairs.len() && from1.contains(pairs[s as int].0) && from2.contains(pairs[s as int].1),
        step(res, from, c).contains(k),
    ensures
        k < pairs.len(),
        step(a1, from1, c).contains(pairs[k as int].0),
        step(a2, from2, c).contains(pairs[k as int].1),
{
    let (s, j) = choose|s: usize, j: int| from.contains(s) && s < res.all_states.len() && #[trigger] moves_on(res, s, j, c, k);
    let u = res.all_states[s as int].transitions@[j];
    assert(res.all_states[s as int].transitions@.contains(u));
    let (j1, j2) = choose|j1: int, j2: int| #[trigger] product_step(a1, a2, pairs[s as int], j1, j2, pairs, u);
    let p = pairs[s as int];
    let t1 = a1.all_states[p.0 as int].transitions@[j1];
    let t2 = a2.all_states[p.1 as int].transitions@[j2];
    assert(moves_on(a1, p.0, j1, c, t1.to));
    assert(moves_on(a2, p.1, j2, c, t2.to));
}

/// Reading one more symbol, each pair of states that the two automata reach from states they
/// could be in is listed, and the product can reach the state that stands for it.
proof fn lemma_product_step_backward(
    res: Automaton,
    a1: Automaton,
    a2: Automaton,
    pairs: Seq<(StateId, StateId)>,
    from: Set<usize>,
    from1: Set<usize>,
    from2: Set<usize>,
    c: int,
    x: usize,
    y: usize,
)
    requires
        a1.wf(),
        a2.wf(),
        is_product(res, a1, a2, pairs),
        forall|s: usize| s < pairs.len() ==> (#[trigger] from.contains(s) <==> from1.contains(pairs[s as int].0) && from2.contains(pairs[s as int].1)),
        forall|p: usize, q: usize| from1.contains(p) && from2.contains(q) ==> #[trigger] pairs.contains((p, q)),
        step(a1, from1, c).contains(x),
        step(a2, from2, c).contains(y),
    ensures
        pairs.contains((x, y)),
        forall|k: int| 0 <= k < pairs.len() && pairs[k] == (x, y) ==> step(res, from, c).contains(k as usize),
{
    let (p, j1) = choose|p: usize, j1: int| from1.contains(p) && p < a1.all_states.len() && #[trigger] moves_on(a1, p, j1, c, x);
    let (q, j2) = choose|q: usize, j2: int| from2.contains(q) && q < a2.all_states.len() && #[trigger] moves_on(a2, q, j2, c, y);
    assert(pairs.contains((p, q)));
    let s = choose|s: int| 0 <= s < pairs.len() && pairs[s] == (p, q);
    assert(from.contains(s as usize));
    let t1 = a1.all_states[p as int].transitions@[j1];
    let t2 = a2.all_states[q as int].transitions@[j2];
    let (lo, hi) = overlap_range(t1.trigger, t2.trigger)->Some_0;
    assert(overlap_range(t1.trigger, t2.trigger) is Some);
    assert(res.all_states[s].accept == (a1.all_states[pairs[s].0 as int].accept && a2.all_states[pairs[s].1 as int].accept));
    assert(pairs.contains(product_target(a1, a2, pairs[s], j1, j2)));
    assert(product_target(a1, a2, pairs[s], j1, j2) == (x, y));
    assert forall|k: int| 0 <= k < pairs.len() && pairs[k] == (x, y) implies step(res, from, c).contains(k as usize) by {
        let u = Transition { to: k as usize, trigger: Trigger::Range(lo, hi) };
        assert(product_step(a1, a2, pairs[s], j1, j2, pairs, u));
        assert(product_transition(a1, a2, pairs, s, u));
        assert(res.all_states[s].transitions@.contains(u));
        let j = choose|j: int| 0 <= j < res.all_states[s].transitions@.len() && res.all_states[s].transitions@[j] == u;
        assert(moves_on(res, s as usize, j, c, k as usize));
    }
}

/// What the product can be in after reading `w`: the states that stand for the pairs of states
/// that the two automata can be in, each such pair being listed.
spec fn product_runs(res: Automaton, a1: Automaton, a2: Automaton, pairs: Seq<(StateId, StateId)>, w: Seq<int>) -> bool {
    &&& forall|s: usize| #[trigger] run(res, w).contains(s) ==> s < pairs.len()
    &&& forall|s: usize| s < pairs.len() ==> (#[trigger] run(res, w).contains(s)
        <==> run(a1, w).contains(pairs[s as int].0) && run(a2, w).contains(pairs[s as int].1))
    &&& forall|p: usize, q: usize| run(a1, w).contains(p) && run(a2, w).contains(q) ==> #[trigger] pairs.contains((p, q))
}

/// Before reading anything, the product is in the state of the pair of initial states.
proof fn lemma_product_run_start(res: Automaton, a1: Automaton, a2: Automaton, pairs: Seq<(StateId, StateId)>)
    requires
        no_eps(a1),
        no_eps(a2),
        is_product(res, a1, a2, pairs),
    ensures
        product_runs(res, a1, a2, pairs, Seq::empty()),
{
    let w = Seq::<int>::empty();
    lemma_product_no_eps(res, a1, a2, pairs);
    lemma_closure_without_eps(res, set![0usize]);
    lemma_closure_without_eps(a1, set![a1.initial_state]);
    lemma_closure_without_eps(a2, set![a2.initial_state]);
    assert(pairs[0] == (a1.initial_state, a2.initial_state));
    assert forall|s: usize| s < pairs.len() implies (#[trigger] run(res, w).contains(s)
        <==> run(a1, w).contains(pairs[s as int].0) && run(a2, w).contains(pairs[s as int].1)) by {
        if run(a1, w).contains(pairs[s as int].0) && run(a2, w).contains(pairs[s as int].1) {
            assert(pairs[s as int] == pairs[0]);
        }
    }
    assert forall|p: usize, q: usize| run(a1, w).contains(p) && run(a2, w).contains(q) implies #[trigger] pairs.contains((p, q)) by {
        assert(pairs[0] == (p, q));
    }
}

/// Reading one more symbol keeps the product in step with the two automata.
#[verifier::rlimit(60)]
#[verifier::spinoff_prover]
proof fn lemma_product_run_step(res: Automaton, a1: Automaton, a2: Automaton, pairs: Seq<(StateId, StateId)>, v: Seq<int>, c: int)
    requires
        a1.wf(),
        a2.wf(),
        no_eps(a1),
        no_eps(a2),
        is_product(res, a1, a2, pairs),
        product_runs(res, a1, a2, pairs, v),
    ensures
        product_runs(res, a1, a2, pairs, v.push(c)),
{
    let w = v.push(c);
    assert(w.drop_last() =~= v);
    lemma_product_no_eps(res, a1, a2, pairs);
    let from = run(res, v);
    let from1 = run(a1, v);
    let from2 = run(a2, v);
    lemma_closure_without_eps(res, step(res, from, c));
    lemma_closure_without_eps(a1, step(a1, from1, c));
    lemma_closure_without_eps(a2, step(a2, from2, c));
    assert(run(res, w) == step(res, from, c));
    assert(run(a1, w) == step(a1, from1, c));
    assert(run(a2, w) == step(a2, from2, c));
    assert forall|s: usize| #[trigger] run(res, w).contains(s) implies s < pairs.len() by {
        lemma_product_step_forward(res, a1, a2, pairs, from, from1, from2, c, s);
    }
    assert forall|s: usize| s < pairs.len() implies (#[trigger] run(res, w).contains(s)
        <==> run(a1, w).contains(pairs[s as int].0) && run(a2, w).contains(pairs[s as int].1)) by {
        if run(res, w).contains(s) {
            lemma_product_step_forward(res, a1, a2, pairs, from, from1, from2, c, s);
        }
        if run(a1, w).contains(pairs[s as int].0) && run(a2, w).contains(pairs[s as int].1) {
            lemma_product_step_backward(res, a1, a2, pairs, from, from1, from2, c, pairs[s as int].0, pairs[s as int].1);
        }
    }
    assert forall|p: usize, q: usize| run(a1, w).contains(p) && run(a2, w).contains(q) implies #[trigger] pairs.contains((p, q)) by {
        lemma_product_step_backward(res, a1, a2, pairs, from, from1, from2, c, p, q);
    }
}

/// Reading a word, the product can be in exactly the states that stand for the pairs of states
/// that the two automata can be in, and each such pair is listed.
proof fn lemma_product_run(res: Automaton, a1: Automaton, a2: Automaton, pairs: Seq<(StateId, StateId)>, w: Seq<int>)
    requires
        a1.wf(),
        a2.wf(),
        no_eps(a1),
        no_eps(a2),
        is_product(res, a1, a2, pairs),
    ensures
        product_runs(res, a1, a2, pairs, w),
    decreases w.len(),
{
    if w.len() == 0 {
        lemma_product_run_start(res, a1, a2, pairs);
        assert(w =~= Seq::<int>::empty());
    } else {
        lemma_product_run(res, a1, a2, pairs, w.drop_last());
        lemma_product_run_step(res, a1, a2, pairs, w.drop_last(), w.last());
        assert(w.drop_last().push(w.last()) =~= w);
    }
}

/// The product of two automata without epsilon transitions accepts exactly the words that both
/// of them accept.
pub proof fn lemma_product_language(res: Automaton, a1: Automaton, a2: Automaton, pairs: Seq<(StateId, StateId)>, w: Seq<int>)
    requires
        a1.wf(),
        a2.wf(),
        no_eps(a1),
        no_eps(a2),
        is_product(res, a1, a2, pairs),
    ensures
        accepts_word(res, w) == (accepts_word(a1, w) && accepts_word(a2, w)),
{
    lemma_product_run(res, a1, a2, pairs, w);
    if accepts_word(res, w) {
        let s = choose|s: usize| #[trigger] run(res, w).contains(s) && s < res.all_states.len() && res.all_states[s as int].accept;
        assert(run(a1, w).contains(pairs[s as int].0));
        assert(run(a2, w).contains(pairs[s as int].1));
    }
    if accepts_word(a1, w) && accepts_word(a2, w) {
        let p = choose|p: usize| #[trigger] run(a1, w).contains(p) && p < a1.all_states.len() && a1.all_states[p as int].accept;
        let q = choose|q: usize| #[trigger] run(a2, w).contains(q) && q < a2.all_states.len() && a2.all_states[q as int].accept;
        assert(pairs.contains((p, q)));
        let s = choose|s: int| 0 <= s < pairs.len() && pairs[s] == (p, q);
        assert(run(res, w).contains(s as usize));
    }
}

/// A list of distinct pairs below `n1` and `n2` has at most `n1 * n2` of them.
pub(crate) proof fn lemma_pairs_bound(pairs: Seq<(StateId, StateId)>, n1: int, n2: int)
    requires
        n1 >= 0,
        n2 >= 0,
        pairs.no_duplicates(),
        forall|k: int| 0 <= k < pairs.len() ==> (#[trigger] pairs[k]).0 < n1 && pairs[k].1 < n2,
    ensures
        pairs.len() <= n1 * n2,
{
    if pairs.len() > 0 {
        let codes = pairs.map_values(|p: (StateId, StateId)| p.0 * n2 + p.1);
        assert forall|a: int, b: int| 0 <= a < codes.len() && 0 <= b < codes.len() && a != b implies codes[a] != codes[b] by {
            let (x0, x1) = (pairs[a].0 as int, pairs[a].1 as int);
            let (y0, y1) = (pairs[b].0 as int, pairs[b].1 as int);
            assert(pairs[a] != pairs[b]);
            if x0 * n2 + x1 == y0 * n2 + y1 {
                assert(x0 == y0 && x1 == y1) by (nonlinear_arith)
                    requires
                        x0 * n2 + x1 == y0 * n2 + y1,
                        0 <= x1 < n2,
                        0 <= y1 < n2,
                        0 <= x0,
                        0 <= y0,
                ;
            }
        }
        assert(codes.no_duplicates());
        codes.unique_seq_to_set();
        assert(codes.len() == pairs.len());
        assert(pairs[0].0 < n1 && pairs[0].1 < n2);
        assert(n1 * n2 >= 0) by (nonlinear_arith)
            requires
                n1 > 0,
                n2 > 0,
        ;
        lemma_int_range(0, n1 * n2);
        assert forall|c: int| codes.to_set().contains(c) implies set_int_range(0, n1 * n2).contains(c) by {
            let k = choose|k: int| 0 <= k < codes.len() && codes[k] == c;
            let (x0, x1) = (pairs[k].0 as int, pairs[k].1 as int);
            assert(0 <= x0 * n2 + x1 < n1 * n2) by (nonlinear_arith)
                requires
                    0 <= x0 < n1,
                    0 <= x1 < n2,
            ;
        }
        lemma_len_subset(codes.to_set(), set_int_range(0, n1 * n2));
        assert(codes.to_set().len() <= n1 * n2);
    } else {
        assert(n1 * n2 >= 0) by (nonlinear_arith)
            requires
                n1 >= 0,
                n2 >= 0,
        ;
    }
}

/// The index of the pair `p` in `pairs`, which is added, with a new state for it, if it is
/// not there yet.
fn find_or_add_pair(
    pairs: &mut Vec<(StateId, StateId)>,
    states: &mut Vec<State>,
    p: (StateId, StateId),
    accept: bool,
    n1: usize,
    n2: usize,
) -> (idx: usize)
    requires
        old(pairs)@.len() == old(states)@.len(),
        old(pairs)@.no_duplicates(),
        p.0 < n1,
        p.1 < n2,
        forall|k: int| 0 <= k < old(pairs)@.len() ==> (#[trigger] old(pairs)@[k]).0 < n1 && old(pairs)@[k].1 < n2,
    ensures
        final(pairs)@.len() == final(states)@.len(),
        final(pairs)@.no_duplicates(),
        forall|k: int| 0 <= k < final(pairs)@.len() ==> (#[trigger] final(pairs)@[k]).0 < n1 && final(pairs)@[k].1 < n2,
        idx < final(pairs)@.len(),
        final(pairs)@[idx as int] == p,
        old(pairs)@.contains(p) ==> final(pairs)@ == old(pairs)@ && final(states)@ == old(states)@,
        !old(pairs)@.contains(p) ==> {
            &&& final(pairs)@ == old(pairs)@.push(p)
            &&& final(states)@.len() == old(states)@.len() + 1
            &&& forall|k: int| 0 <= k < old(states)@.len() ==> #[trigger] final(states)@[k] == old(states)@[k]
            &&& final(states)@[old(states)@.len() as int].id@ == "("@ + decimal(p.0 as nat) + ", "@ + decimal(p.1 as nat) + ")"@
            &&& final(states)@[old(states)@.len() as int].accept == accept
            &&& final(states)@[old(states)@.len() as int].transitions@.len() == 0
        },
{
    let mut k: usize = 0;
    while k < pairs.len()
        invariant
            k <= pairs@.len(),
            forall|m: int| 0 <= m < k ==> pairs@[m] != p,
            pairs@.len() == states@.len(),
            pairs@.no_duplicates(),
            forall|m: int| 0 <= m < pairs@.len() ==> (#[trigger] pairs@[m]).0 < n1 && pairs@[m].1 < n2,
        decreases pairs@.len() - k,
    {
        if pairs[k].0 == p.0 && pairs[k].1 == p.1 {
            assert(pairs@[k as int] == p);
            assert(pairs@.contains(p));
            return k;
        }
        k += 1;
    }
    let ghost old_pairs = pairs@;
    pairs.push(p);
    states.push(State { id: pair_text(p), accept, transitions: Vec::new() });
    proof {
        assert forall|a: int, b: int| 0 <= a < pairs@.len() && 0 <= b < pairs@.len() && a != b implies pairs@[a] != pairs@[b] by {
            if a < old_pairs.len() && b < old_pairs.len() {
                assert(old_pairs[a] != old_pairs[b]);
            }
        }
    }
    pairs.len() - 1
}

/// Pair `q` follows pair `p` in the product of `a1` and `a2`: a transition of each, with
/// overlapping ranges, leads from the states of `p` to those of `q`.
pub open spec fn product_edge(a1: Automaton, a2: Automaton, p: (StateId, StateId), q: (StateId, StateId)) -> bool {
    exists|j1: int, j2: int| #![trigger product_target(a1, a2, p, j1, j2)]
        0 <= j1 < a1.all_states[p.0 as int].transitions@.len() && 0 <= j2 < a2.all_states[p.1 as int].transitions@.len()
        && overlap_range(a1.all_states[p.0 as int].transitions@[j1].trigger, a2.all_states[p.1 as int].transitions@[j2].trigger) is Some
        && product_target(a1, a2, p, j1, j2) == q
}

/// `path` leads, step by step in the product, from the pair of initial states.
pub open spec fn pair_path(a1: Automaton, a2: Automaton, path: Seq<(StateId, StateId)>) -> bool {
    &&& path.len() >= 1
    &&& path[0] == (a1.initial_state, a2.initial_state)
    &&& forall|i: int| 0 <= i < path.len() - 1 ==> #[trigger] product_edge(a1, a2, path[i], path[i + 1])
}

/// The pair `q` can be reached in the product from the pair of initial states.
pub open spec fn pair_reachable(a1: Automaton, a2: Automaton, q: (StateId, StateId)) -> bool {
    exists|path: Seq<(StateId, StateId)>| #[trigger] pair_path(a1, a2, path) && path.last() == q
}

/// From the states of the pair `q`, one automaton has an epsilon transition while the other has
/// some transition.
pub open spec fn eps_clash(a1: Automaton, a2: Automaton, q: (StateId, StateId)) -> bool {
    exists|j1: int, j2: int| #![trigger a1.all_states[q.0 as int].transitions@[j1], a2.all_states[q.1 as int].transitions@[j2]]
        0 <= j1 < a1.all_states[q.0 as int].transitions@.len() && 0 <= j2 < a2.all_states[q.1 as int].transitions@.len()
        && (a1.all_states[q.0 as int].transitions@[j1].trigger == Trigger::Epsilon
            || a2.all_states[q.1 as int].transitions@[j2].trigger == Trigger::Epsilon)
}

/// A pair that follows a reachable pair is reachable.
proof fn lemma_reach_step(a1: Automaton, a2: Automaton, p: (StateId, StateId), q: (StateId, StateId))
    requires
        pair_reachable(a1, a2, p),
        product_edge(a1, a2, p, q),
    ensures
        pair_reachable(a1, a2, q),
{
    let path = choose|path: Seq<(StateId, StateId)>| #[trigger] pair_path(a1, a2, path) && path.last() == p;
    let np = path.push(q);
    assert forall|i: int| 0 <= i < np.len() - 1 implies #[trigger] product_edge(a1, a2, np[i], np[i + 1]) by {
        if i < path.len() - 1 {
            assert(np[i] == path[i] && np[i + 1] == path[i + 1]);
        } else {
            assert(np[i] == p && np[i + 1] == q);
        }
    }
    assert(pair_path(a1, a2, np));
}

/// A list of pairs that holds the pair of initial states, and the pairs that follow each of its
/// pairs, holds every reachable pair.
proof fn lemma_reach_in_pairs(a1: Automaton, a2: Automaton, pairs: Seq<(StateId, StateId)>, path: Seq<(StateId, StateId)>)
    requires
        pairs.contains((a1.initial_state, a2.initial_state)),
        forall|k: int, j1: int, j2: int| #![trigger product_target(a1, a2, pairs[k], j1, j2)]
            0 <= k < pairs.len() && 0 <= j1 < a1.all_states[pairs[k].0 as int].transitions@.len()
            && 0 <= j2 < a2.all_states[pairs[k].1 as int].transitions@.len()
            && overlap_range(a1.all_states[pairs[k].0 as int].transitions@[j1].trigger,
                a2.all_states[pairs[k].1 as int].transitions@[j2].trigger) is Some
            ==> pairs.contains(product_target(a1, a2, pairs[k], j1, j2)),
        pair_path(a1, a2, path),
    ensures
        pairs.contains(path.last()),
    decreases path.len(),
{
    if path.len() > 1 {
        let q = path.drop_last();
        assert forall|i: int| 0 <= i < q.len() - 1 implies #[trigger] product_edge(a1, a2, q[i], q[i + 1]) by {
            assert(product_edge(a1, a2, path[i], path[i + 1]));
        }
        lemma_reach_in_pairs(a1, a2, pairs, q);
        let i = path.len() - 2;
        assert(product_edge(a1, a2, path[i], path[i + 1]));
        let k = choose|k: int| 0 <= k < pairs.len() && pairs[k] == q.last();
        let (j1, j2) = choose|j1: int, j2: int| #![trigger product_target(a1, a2, path[i], j1, j2)]
            0 <= j1 < a1.all_states[path[i].0 as int].transitions@.len() && 0 <= j2 < a2.all_states[path[i].1 as int].transitions@.len()
            && overlap_range(a1.all_states[path[i].0 as int].transitions@[j1].trigger, a2.all_states[path[i].1 as int].transitions@[j2].trigger) is Some
            && product_target(a1, a2, path[i], j1, j2) == path[i + 1];
        assert(pairs[k] == path[i]);
        assert(pairs.contains(product_target(a1, a2, pairs[k], j1, j2)));
    }
}

/// The product of two automata, built from the pair of their initial states by following the
/// pairs of overlapping transitions. Fails on a pair of transitions of which one is an epsilon
/// transition.
pub fn intersection(a1: Automaton, a2: Automaton) -> (res: Result<Automaton, CheckerError>)
    requires
        a1.wf(),
        a2.wf(),
        a1.all_states.len() * a2.all_states.len() <= usize::MAX,
    ensures
        res matches Ok(a) ==> a.wf() && exists|pairs: Seq<(StateId, StateId)>| #[trigger] is_product(a, a1, a2, pairs),
        res matches Err(e) ==> e matches CheckerError::ExpectedRangesToCalculateTheIntersection(x, y)
            && (x == Trigger::Epsilon || y == Trigger::Epsilon),
        no_eps(a1) && no_eps(a2) ==> res is Ok,
        res is Err <==> exists|q: (StateId, StateId)| #[trigger] pair_reachable(a1, a2, q) && eps_clash(a1, a2, q),
{
    let n1 = a1.all_states.len();
    let n2 = a2.all_states.len();
    let init = (a1.initial_state, a2.initial_state);
    let mut pairs: Vec<(StateId, StateId)> = Vec::new();
    pairs.push(init);
    let mut states: Vec<State> = Vec::new();
    states.push(State {
        id: pair_text(init),
        accept: a1.all_states[a1.initial_state].accept && a2.all_states[a2.initial_state].accept,
        transitions: Vec::new(),
    });
    proof {
        assert(pair_path(a1, a2, seq![init]));
        assert(pair_reachable(a1, a2, pairs@[0]));
    }
    let mut cur: usize = 0;
    while cur < pairs.len()
        invariant
            forall|k: int| 0 <= k < pairs@.len() ==> #[trigger] pair_reachable(a1, a2, pairs@[k]),
            forall|k: int| 0 <= k < cur ==> !#[trigger] eps_clash(a1, a2, pairs@[k]),
            a1.wf(),
            a2.wf(),
            n1 == a1.all_states.len(),
            n2 == a2.all_states.len(),
            n1 * n2 <= usize::MAX,
            cur <= pairs@.len(),
            pairs@.len() == states@.len(),
            pairs@.len() >= 1,
            pairs@[0] == (a1.initial_state, a2.initial_state),
            pairs@.no_duplicates(),
            forall|k: int| 0 <= k < pairs@.len() ==> (#[trigger] pairs@[k]).0 < n1 && pairs@[k].1 < n2,
            forall|k: int| #![trigger states@[k]] 0 <= k < pairs@.len() ==> {
                &&& states@[k].id@ == "("@ + decimal(pairs@[k].0 as nat) + ", "@ + decimal(pairs@[k].1 as nat) + ")"@
                &&& states@[k].accept == (a1.all_states[pairs@[k].0 as int].accept && a2.all_states[pairs@[k].1 as int].accept)
            },
            forall|k: int| #![trigger states@[k]] cur <= k < pairs@.len() ==> states@[k].transitions@.len() == 0,
            forall|k: int| #![trigger states@[k]] 0 <= k < cur ==> {
                &&& states@[k].transitions@.no_duplicates()
                &&& forall|j: int| 0 <= j < states@[k].transitions@.len() ==> #[trigger] states@[k].transitions@[j].to < pairs@.len()
                &&& forall|u: Transition| #![trigger states@[k].transitions@.contains(u)]
                    states@[k].transitions@.contains(u) <==> product_transition(a1, a2, pairs@, k, u)
                &&& forall|j1: int, j2: int| #![trigger product_target(a1, a2, pairs@[k], j1, j2)]
                    0 <= j1 < a1.all_states[pairs@[k].0 as int].transitions@.len()
                    && 0 <= j2 < a2.all_states[pairs@[k].1 as int].transitions@.len()
                    && overlap_range(a1.all_states[pairs@[k].0 as int].transitions@[j1].trigger,
                        a2.all_states[pairs@[k].1 as int].transitions@[j2].trigger) is Some
                    ==> pairs@.contains(product_target(a1, a2, pairs@[k], j1, j2))
            },
        decreases n1 * n2 - cur,
    {
        proof {
            lemma_pairs_bound(pairs@, n1 as int, n2 as int);
        }
        let p = pairs[cur];
        let ts1 = &a1.all_states[p.0].transitions;
        let ts2 = &a2.all_states[p.1].transitions;
        let mut row: Vec<Transition> = Vec::new();
        let ghost pairs0 = pairs@;
        let ghost states0 = states@;
        let mut j1: usize = 0;
        while j1 < ts1.len()
            invariant
                a1.wf(),
                a2.wf(),
                n1 == a1.all_states.len(),
                n2 == a2.all_states.len(),
                cur < pairs0.len(),
                p == pairs0[cur as int],
                *ts1 == a1.all_states[p.0 as int].transitions,
                *ts2 == a2.all_states[p.1 as int].transitions,
                j1 <= ts1@.len(),
                pairs@.len() == states@.len(),
                pairs0.len() <= pairs@.len(),
                forall|k: int| 0 <= k < pairs0.len() ==> #[trigger] pairs@[k] == pairs0[k],
                forall|k: int| 0 <= k < states0.len() ==> #[trigger] states@[k] == states0[k],
                states0.len() == pairs0.len(),
                pairs@.no_duplicates(),
                forall|k: int| 0 <= k < pairs@.len() ==> (#[trigger] pairs@[k]).0 < n1 && pairs@[k].1 < n2,
                forall|k: int| #![trigger states@[k]] pairs0.len() <= k < pairs@.len() ==> {
                    &&& states@[k].id@ == "("@ + decimal(pairs@[k].0 as nat) + ", "@ + decimal(pairs@[k].1 as nat) + ")"@
                    &&& states@[k].accept == (a1.all_states[pairs@[k].0 as int].accept && a2.all_states[pairs@[k].1 as int].accept)
                    &&& states@[k].transitions@.len() == 0
                },
                row@.no_duplicates(),
                forall|j: int| 0 <= j < row@.len() ==> #[trigger] row@[j].to < pairs@.len(),
                forall|u: Transition| #![trigger row@.contains(u)] row@.contains(u) <==> exists|i1: int, i2: int|
                    i1 < j1 && #[trigger] product_step(a1, a2, p, i1, i2, pairs@, u),
                forall|i1: int, i2: int| #![trigger product_target(a1, a2, p, i1, i2)]
                    0 <= i1 < j1 && 0 <= i2 < ts2@.len() && overlap_range(ts1@[i1].trigger, ts2@[i2].trigger) is Some
                    ==> pairs@.contains(product_target(a1, a2, p, i1, i2)),
                no_eps(a1) && no_eps(a2) ==> true,
                forall|k: int| 0 <= k < pairs@.len() ==> #[trigger] pair_reachable(a1, a2, pairs@[k]),
                forall|k: int| 0 <= k < cur ==> !#[trigger] eps_clash(a1, a2, pairs0[k]),
                pair_reachable(a1, a2, p),
                forall|i1: int, i2: int| #![trigger ts1@[i1], ts2@[i2]] 0 <= i1 < j1 && 0 <= i2 < ts2@.len()
                    ==> ts1@[i1].trigger != Trigger::Epsilon && ts2@[i2].trigger != Trigger::Epsilon,
            decreases ts1@.len() - j1,
        {
            let t1 = ts1[j1];
            let mut j2: usize = 0;
            while j2 < ts2.len()
                invariant
                    a1.wf(),
                    a2.wf(),
                    n1 == a1.all_states.len(),
                    n2 == a2.all_states.len(),
                    cur < pairs0.len(),
                    p == pairs0[cur as int],
                    *ts1 == a1.all_states[p.0 as int].transitions,
                    *ts2 == a2.all_states[p.1 as int].transitions,
                    j1 < ts1@.len(),
                    t1 == ts1@[j1 as int],
                    j2 <= ts2@.len(),
                    pairs@.len() == states@.len(),
                    pairs0.len() <= pairs@.len(),
                    forall|k: int| 0 <= k < pairs0.len() ==> #[trigger] pairs@[k] == pairs0[k],
                    forall|k: int| 0 <= k < states0.len() ==> #[trigger] states@[k] == states0[k],
                    states0.len() == pairs0.len(),
                    pairs@.no_duplicates(),
                    forall|k: int| 0 <= k < pairs@.len() ==> (#[trigger] pairs@[k]).0 < n1 && pairs@[k].1 < n2,
                    forall|k: int| #![trigger states@[k]] pairs0.len() <= k < pairs@.len() ==> {
                        &&& states@[k].id@ == "("@ + decimal(pairs@[k].0 as nat) + ", "@ + decimal(pairs@[k].1 as nat) + ")"@
                        &&& states@[k].accept == (a1.all_states[pairs@[k].0 as int].accept && a2.all_states[pairs@[k].1 as int].accept)
                        &&& states@[k].transitions@.len() == 0
                    },
                    row@.no_duplicates(),
                    forall|j: int| 0 <= j < row@.len() ==> #[trigger] row@[j].to < pairs@.len(),
                    forall|u: Transition| #![trigger row@.contains(u)] row@.contains(u) <==> exists|i1: int, i2: int|
                        (i1 < j1 || (i1 == j1 && i2 < j2)) && #[trigger] product_step(a1, a2, p, i1, i2, pairs@, u),
                    forall|i1: int, i2: int| #![trigger product_target(a1, a2, p, i1, i2)]
                        0 <= i1 < ts1@.len() && 0 <= i2 < ts2@.len() && (i1 < j1 || (i1 == j1 && i2 < j2))
                        && overlap_range(ts1@[i1].trigger, ts2@[i2].trigger) is Some
                        ==> pairs@.contains(product_target(a1, a2, p, i1, i2)),
                    forall|k: int| 0 <= k < pairs@.len() ==> #[trigger] pair_reachable(a1, a2, pairs@[k]),
                    forall|k: int| 0 <= k < cur ==> !#[trigger] eps_clash(a1, a2, pairs0[k]),
                    pair_reachable(a1, a2, p),
                    forall|i1: int, i2: int| #![trigger ts1@[i1], ts2@[i2]] 0 <= i2 < ts2@.len()
                        && (0 <= i1 < j1 || (i1 == j1 && i2 < j2))
                        ==> ts1@[i1].trigger != Trigger::Epsilon && ts2@[i2].trigger != Trigger::Epsilon,
                decreases ts2@.len() - j2,
            {
                let t2 = ts2[j2];
                proof {
                    assert(pairs@[cur as int] == p);
                    if no_eps(a1) {
                        assert(a1.all_states[p.0 as int].transitions@[j1 as int].trigger != Trigger::Epsilon);
                    }
                    if no_eps(a2) {
                        assert(a2.all_states[p.1 as int].transitions@[j2 as int].trigger != Trigger::Epsilon);
                    }
                }
                let r = match intersect_ranges(t1.trigger, t2.trigger) {
                    Ok(r) => r,
                    Err(e) => {
                        proof {
                            assert(t1.trigger == Trigger::Epsilon || t2.trigger == Trigger::Epsilon);
                            assert(a1.all_states[p.0 as int].transitions@[j1 as int] == t1);
                            assert(a2.all_states[p.1 as int].transitions@[j2 as int] == t2);
                            assert(eps_clash(a1, a2, p));
                            assert(pair_reachable(a1, a2, p));
                        }
                        return Err(e);
                    },
                };
                assert(t1.trigger != Trigger::Epsilon && t2.trigger != Trigger::Epsilon);
                if let Some(range) = r {
                    assert(t1.to < n1 && t2.to < n2) by {
                        assert(a1.all_states[p.0 as int].transitions[j1 as int].to < n1);
                        assert(a2.all_states[p.1 as int].transitions[j2 as int].to < n2);
                    }
                    let dest = (t1.to, t2.to);
                    let accept = a1.all_states[t1.to].accept && a2.all_states[t2.to].accept;
                    let ghost pairs1 = pairs@;
                    let ghost states1 = states@;
                    proof {
                        assert(product_target(a1, a2, p, j1 as int, j2 as int) == dest);
                        assert(overlap_range(ts1@[j1 as int].trigger, ts2@[j2 as int].trigger) is Some);
                        assert(product_edge(a1, a2, p, dest));
                        lemma_reach_step(a1, a2, p, dest);
                    }
                    let next_id = find_or_add_pair(&mut pairs, &mut states, dest, accept, n1, n2);
                    proof {
                        assert forall|k: int| 0 <= k < pairs@.len() implies #[trigger] pair_reachable(a1, a2, pairs@[k]) by {
                            if k < pairs1.len() {
                                assert(pairs@[k] == pairs1[k]);
                            } else {
                                assert(pairs@[k] == dest);
                            }
                        }
                    }
                    let u = Transition::new(next_id, Trigger::Range(range.0 as u16, range.1 as u16));
                    let ghost row1 = row@;
                    insert_transition(&mut row, u);
                    proof {
                        assert(overlap_range(t1.trigger, t2.trigger) == Some((range.0 as u16, range.1 as u16)));
                        assert(product_step(a1, a2, p, j1 as int, j2 as int, pairs@, u));
                        lemma_grow_steps(a1, a2, p, pairs1, pairs@, row1, j1 as int, j2 as int);
                        assert forall|v: Transition| #![trigger row@.contains(v)] row@.contains(v) <==> exists|i1: int, i2: int|
                            (i1 < j1 || (i1 == j1 && i2 < j2 + 1)) && #[trigger] product_step(a1, a2, p, i1, i2, pairs@, v) by {
                            if row@.contains(v) && v == u {
                                assert(product_step(a1, a2, p, j1 as int, j2 as int, pairs@, v));
                            }
                            if exists|i1: int, i2: int| (i1 < j1 || (i1 == j1 && i2 < j2 + 1)) && #[trigger] product_step(a1, a2, p, i1, i2, pairs@, v) {
                                let (i1, i2) = choose|i1: int, i2: int| (i1 < j1 || (i1 == j1 && i2 < j2 + 1)) && #[trigger] product_step(a1, a2, p, i1, i2, pairs@, v);
                                if i1 == j1 && i2 == j2 {
                                    assert(pairs@[v.to as int] == dest);
                                    assert(v.to == next_id);
                                    assert(v == u);
                                } else {
                                    lemma_step_shrinks(a1, a2, p, i1, i2, pairs1, pairs@, v);
                                    assert(row1.contains(v));
                                }
                            }
                        }
                        assert forall|i1: int, i2: int| #![trigger product_target(a1, a2, p, i1, i2)]
                            0 <= i1 < ts1@.len() && 0 <= i2 < ts2@.len() && (i1 < j1 || (i1 == j1 && i2 < j2 + 1))
                            && overlap_range(ts1@[i1].trigger, ts2@[i2].trigger) is Some
                            implies pairs@.contains(product_target(a1, a2, p, i1, i2)) by {
                            if i1 == j1 && i2 == j2 {
                                assert(pairs@[next_id as int] == dest);
                            } else {
                                lemma_contains_grows(pairs1, pairs@, product_target(a1, a2, p, i1, i2));
                            }
                        }
                        assert forall|j: int| 0 <= j < row@.len() implies #[trigger] row@[j].to < pairs@.len() by {
                            if j < row1.len() {
                                assert(row@[j] == row1[j]);
                            } else {
                                assert(row@.contains(row@[j]));
                            }
                        }
                    }
                } else {
                    proof {
                        if let (Trigger::Range(a0, a1r), Trigger::Range(b0, b1r)) = (t1.trigger, t2.trigger) {
                            let lo: int = if a0 >= b0 { a0 as int } else { b0 as int };
                            let hi: int = if a1r <= b1r { a1r as int } else { b1r as int };
                            if lo <= hi {
                                assert(crate::automata::utils::covers((a0 as u32, a1r as u32), lo));
                                assert(crate::automata::utils::covers((b0 as u32, b1r as u32), lo));
                            }
                        }
                        assert(overlap_range(t1.trigger, t2.trigger) is None);
                        assert forall|v: Transition| #![trigger row@.contains(v)] row@.contains(v) <==> exists|i1: int, i2: int|
                            (i1 < j1 || (i1 == j1 && i2 < j2 + 1)) && #[trigger] product_step(a1, a2, p, i1, i2, pairs@, v) by {
                            if exists|i1: int, i2: int| (i1 < j1 || (i1 == j1 && i2 < j2 + 1)) && #[trigger] product_step(a1, a2, p, i1, i2, pairs@, v) {
                                let (i1, i2) = choose|i1: int, i2: int| (i1 < j1 || (i1 == j1 && i2 < j2 + 1)) && #[trigger] product_step(a1, a2, p, i1, i2, pairs@, v);
                                assert(!(i1 == j1 && i2 == j2));
                            }
                        }
                    }
                }
                j2 += 1;
            }
            j1 += 1;
        }
        let ghost pairs2 = pairs@;
        let st = State { id: states[cur].id.clone(), accept: states[cur].accept, transitions: row };
        states.set(cur, st);
        proof {
            assert forall|k: int| #![trigger states@[k]] 0 <= k < cur + 1 implies {
                &&& states@[k].transitions@.no_duplicates()
                &&& forall|j: int| 0 <= j < states@[k].transitions@.len() ==> #[trigger] states@[k].transitions@[j].to < pairs@.len()
                &&& forall|u: Transition| #![trigger states@[k].transitions@.contains(u)]
                    states@[k].transitions@.contains(u) <==> product_transition(a1, a2, pairs@, k, u)
                &&& forall|j1: int, j2: int| #![trigger product_target(a1, a2, pairs@[k], j1, j2)]
                    0 <= j1 < a1.all_states[pairs@[k].0 as int].transitions@.len()
                    && 0 <= j2 < a2.all_states[pairs@[k].1 as int].transitions@.len()
                    && overlap_range(a1.all_states[pairs@[k].0 as int].transitions@[j1].trigger,
                        a2.all_states[pairs@[k].1 as int].transitions@[j2].trigger) is Some
                    ==> pairs@.contains(product_target(a1, a2, pairs@[k], j1, j2))
            } by {
                if k < cur {
                    assert(states@[k] == states0[k]);
                    assert(pairs@[k] == pairs0[k]);
                    lemma_grow_transitions(a1, a2, pairs0, pairs@, k, states0[k].transitions@);
                } else {
                    assert(pairs@[k] == p);
                    assert forall|u: Transition| #![trigger states@[k].transitions@.contains(u)]
                        states@[k].transitions@.contains(u) <==> product_transition(a1, a2, pairs@, k, u) by {
                        if product_transition(a1, a2, pairs@, k, u) {
                            let (i1, i2) = choose|i1: int, i2: int| #[trigger] product_step(a1, a2, pairs@[k], i1, i2, pairs@, u);
                            assert(i1 < j1);
                        }
                    }
                }
            }
        }
        cur += 1;
    }
    proof {
        let ps = pairs@;
        assert forall|k: int, j1: int, j2: int| #![trigger product_target(a1, a2, ps[k], j1, j2)]
            0 <= k < ps.len() && 0 <= j1 < a1.all_states[ps[k].0 as int].transitions@.len()
            && 0 <= j2 < a2.all_states[ps[k].1 as int].transitions@.len()
            && overlap_range(a1.all_states[ps[k].0 as int].transitions@[j1].trigger,
                a2.all_states[ps[k].1 as int].transitions@[j2].trigger) is Some
            implies ps.contains(product_target(a1, a2, ps[k], j1, j2)) by {
            assert(states@[k].transitions@.len() >= 0);
        }
        assert(ps[0] == (a1.initial_state, a2.initial_state));
        assert(ps.contains((a1.initial_state, a2.initial_state)));
        assert forall|q: (StateId, StateId)| #[trigger] pair_reachable(a1, a2, q) implies !eps_clash(a1, a2, q) by {
            let path = choose|path: Seq<(StateId, StateId)>| #[trigger] pair_path(a1, a2, path) && path.last() == q;
            lemma_reach_in_pairs(a1, a2, ps, path);
            let k = choose|k: int| 0 <= k < ps.len() && ps[k] == q;
            assert(!eps_clash(a1, a2, ps[k]));
        }
    }
    let res = Automaton { name: intersection_name(a1.name.as_str(), a2.name.as_str()), all_states: states, initial_state: 0 };
    proof {
        assert(is_product(res, a1, a2, pairs@));
    }
    Ok(res)
}

/// A list that holds `x` still holds it once grown.
proof fn lemma_contains_grows(small: Seq<(StateId, StateId)>, big: Seq<(StateId, StateId)>, x: (StateId, StateId))
    requires
        small.contains(x),
        small.len() <= big.len(),
        forall|k: int| 0 <= k < small.len() ==> #[trigger] big[k] == small[k],
    ensures
        big.contains(x),
{
    let k = choose|k: int| 0 <= k < small.len() && small[k] == x;
    assert(big[k] == x);
}

/// A product step towards a pair that a shorter list of pairs already holds is a step of that
/// list too.
proof fn lemma_step_shrinks(
    a1: Automaton,
    a2: Automaton,
    p: (StateId, StateId),
    i1: int,
    i2: int,
    small: Seq<(StateId, StateId)>,
    big: Seq<(StateId, StateId)>,
    u: Transition,
)
    requires
        product_step(a1, a2, p, i1, i2, big, u),
        small.contains(product_target(a1, a2, p, i1, i2)),
        small.len() <= big.len(),
        forall|k: int| 0 <= k < small.len() ==> #[trigger] big[k] == small[k],
        big.no_duplicates(),
    ensures
        product_step(a1, a2, p, i1, i2, small, u),
{
    let k = choose|k: int| 0 <= k < small.len() && small[k] == product_target(a1, a2, p, i1, i2);
    assert(big[k] == small[k]);
    assert(big[u.to as int] == product_target(a1, a2, p, i1, i2));
}

/// Growing the list of pairs keeps the steps of the transitions already built.
proof fn lemma_grow_steps(
    a1: Automaton,
    a2: Automaton,
    p: (StateId, StateId),
    small: Seq<(StateId, StateId)>,
    big: Seq<(StateId, StateId)>,
    row: Seq<Transition>,
    j1: int,
    j2: int,
)
    requires
        small.len() <= big.len(),
        forall|k: int| 0 <= k < small.len() ==> #[trigger] big[k] == small[k],
    ensures
        forall|u: Transition, i1: int, i2: int| #[trigger] product_step(a1, a2, p, i1, i2, small, u)
            ==> product_step(a1, a2, p, i1, i2, big, u),
{
    assert forall|u: Transition, i1: int, i2: int| #[trigger] product_step(a1, a2, p, i1, i2, small, u)
        implies product_step(a1, a2, p, i1, i2, big, u) by {
        assert(big[u.to as int] == small[u.to as int]);
    }
}

/// The transitions of a state already built keep their meaning when the list of pairs grows.
proof fn lemma_grow_transitions(
    a1: Automaton,
    a2: Automaton,
    small: Seq<(StateId, StateId)>,
    big: Seq<(StateId, StateId)>,
    k: int,
    ts: Seq<Transition>,
)
    requires
        0 <= k < small.len(),
        small.len() <= big.len(),
        forall|m: int| 0 <= m < small.len() ==> #[trigger] big[m] == small[m],
        big.no_duplicates(),
        forall|j: int| 0 <= j < ts.len() ==> #[trigger] ts[j].to < small.len(),
        forall|u: Transition| #![trigger ts.contains(u)] ts.contains(u) <==> product_transition(a1, a2, small, k, u),
        forall|j1: int, j2: int| #![trigger product_target(a1, a2, small[k], j1, j2)]
            0 <= j1 < a1.all_states[small[k].0 as int].transitions@.len()
            && 0 <= j2 < a2.all_states[small[k].1 as int].transitions@.len()
            && overlap_range(a1.all_states[small[k].0 as int].transitions@[j1].trigger,
                a2.all_states[small[k].1 as int].transitions@[j2].trigger) is Some
            ==> small.contains(product_target(a1, a2, small[k], j1, j2)),
    ensures
        forall|j: int| 0 <= j < ts.len() ==> #[trigger] ts[j].to < big.len(),
        forall|u: Transition| #![trigger ts.contains(u)] ts.contains(u) <==> product_transition(a1, a2, big, k, u),
        forall|j1: int, j2: int| #![trigger product_target(a1, a2, big[k], j1, j2)]
            0 <= j1 < a1.all_states[big[k].0 as int].transitions@.len()
            && 0 <= j2 < a2.all_states[big[k].1 as int].transitions@.len()
            && overlap_range(a1.all_states[big[k].0 as int].transitions@[j1].trigger,
                a2.all_states[big[k].1 as int].transitions@[j2].trigger) is Some
            ==> big.contains(product_target(a1, a2, big[k], j1, j2)),
{
    assert(big[k] == small[k]);
    let p = small[k];
    lemma_grow_steps(a1, a2, p, small, big, ts, 0, 0);
    assert forall|u: Transition| #![trigger ts.contains(u)] ts.contains(u) <==> product_transition(a1, a2, big, k, u) by {
        if ts.contains(u) {
            let (i1, i2) = choose|i1: int, i2: int| #[trigger] product_step(a1, a2, small[k], i1, i2, small, u);
            assert(product_step(a1, a2, big[k], i1, i2, big, u));
        }
        if product_transition(a1, a2, big, k, u) {
            let (i1, i2) = choose|i1: int, i2: int| #[trigger] product_step(a1, a2, big[k], i1, i2, big, u);
            assert(small.contains(product_target(a1, a2, small[k], i1, i2)));
            lemma_step_shrinks(a1, a2, p, i1, i2, small, big, u);
            assert(product_step(a1, a2, small[k], i1, i2, small, u));
        }
    }
    assert forall|j1: int, j2: int| #![trigger product_target(a1, a2, big[k], j1, j2)]
        0 <= j1 < a1.all_states[big[k].0 as int].transitions@.len()
        && 0 <= j2 < a2.all_states[big[k].1 as int].transitions@.len()
        && overlap_range(a1.all_states[big[k].0 as int].transitions@[j1].trigger,
            a2.all_states[big[k].1 as int].transitions@[j2].trigger) is Some
        implies big.contains(product_target(a1, a2, big[k], j1, j2)) by {
        assert(small.contains(product_target(a1, a2, small[k], j1, j2)));
        lemma_contains_grows(small, big, product_target(a1, a2, small[k], j1, j2));
    }
}

/// The pair of the targets of the `j1`-th transition of the state `p.0` of `a1` and the `j2`-th
/// transition of the state `p.1` of `a2`.
pub open spec fn product_target(a1: Automaton, a2: Automaton, p: (StateId, StateId), j1: int, j2: int) -> (StateId, StateId) {
    (a1.all_states[p.0 as int].transitions@[j1].to, a2.all_states[p.1 as int].transitions@[j2].to)
}

/// Whether some state of `a` is named `x`, and accepting if `accepting` is set.
pub open spec fn has_named_state(a: Automaton, x: Seq<char>, accepting: bool) -> bool {
    exists|k: int| 0 <= k < a.all_states.len() && #[trigger] a.all_states[k].id@ == x && (accepting ==> a.all_states[k].accept)
}

/// Whether some transition of `q` leads from a state named `from` to a state named `to`, with a
/// trigger that contains `t`.
pub open spec fn covered_in(q: Automaton, from: Seq<char>, to: Seq<char>, t: Trigger) -> bool {
    exists|k: int, l: int| {
        &&& 0 <= k < q.all_states.len()
        &&& 0 <= l < q.all_states[k].transitions.len()
        &&& #[trigger] q.all_states[k].transitions@[l].trigger.spec_contains(t)
        &&& q.all_states[k].id@ == from
        &&& q.all_states[q.all_states[k].transitions@[l].to as int].id@ == to
    }
}

/// Whether `p` is a subautomaton of `q`, comparing states by their names: every state of `p` is
/// a state of `q`, every accepting one accepting there, both start in states of the same name,
/// and each transition of `p` is matched by a transition of `q` between states of the same
/// names whose trigger contains its trigger.
pub open spec fn subautomaton(p: Automaton, q: Automaton) -> bool {
    &&& forall|k: int| 0 <= k < p.all_states.len() ==> has_named_state(q, #[trigger] p.all_states[k].id@, false)
    &&& forall|k: int| 0 <= k < p.all_states.len() && #[trigger] p.all_states[k].accept ==> has_named_state(q, p.all_states[k].id@, true)
    &&& p.all_states[p.initial_state as int].id@ == q.all_states[q.initial_state as int].id@
    &&& forall|k: int, j: int| 0 <= k < p.all_states.len() && 0 <= j < p.all_states[k].transitions.len() ==> covered_in(
        q,
        p.all_states[k].id@,
        p.all_states[#[trigger] p.all_states[k].transitions@[j].to as int].id@,
        p.all_states[k].transitions@[j].trigger,
    )
}

/// Whether some state of `a` is named `x`, and accepting if `accepting` is set.
fn find_named_state(a: &Automaton, x: &String, accepting: bool) -> (res: bool)
    ensures
        res == has_named_state(*a, x@, accepting),
{
    let mut k: usize = 0;
    while k < a.all_states.len()
        invariant
            k <= a.all_states.len(),
            forall|m: int| 0 <= m < k ==> !(#[trigger] a.all_states[m].id@ == x@ && (accepting ==> a.all_states[m].accept)),
        decreases a.all_states.len() - k,
    {
        if a.all_states[k].id == *x && (!accepting || a.all_states[k].accept) {
            return true;
        }
        k += 1;
    }
    false
}

/// Whether some transition of `q` leads from a state named `from` to a state named `to`, with a
/// trigger that contains `t`.
fn find_covering(q: &Automaton, from: &String, to: &String, t: &Trigger) -> (res: bool)
    requires
        q.wf(),
    ensures
        res == covered_in(*q, from@, to@, *t),
{
    let mut k: usize = 0;
    while k < q.all_states.len()
        invariant
            q.wf(),
            k <= q.all_states.len(),
            forall|m: int, l: int| 0 <= m < k && 0 <= l < q.all_states[m].transitions.len() ==> !{
                &&& #[trigger] q.all_states[m].transitions@[l].trigger.spec_contains(*t)
                &&& q.all_states[m].id@ == from@
                &&& q.all_states[q.all_states[m].transitions@[l].to as int].id@ == to@
            },
        decreases q.all_states.len() - k,
    {
        let state = &q.all_states[k];
        if state.id == *from {
            let mut l: usize = 0;
            while l < state.transitions.len()
                invariant
                    q.wf(),
                    k < q.all_states.len(),
                    *state == q.all_states[k as int],
                    state.id@ == from@,
                    l <= state.transitions.len(),
                    forall|m: int, l2: int| 0 <= m < k && 0 <= l2 < q.all_states[m].transitions.len() ==> !{
                        &&& #[trigger] q.all_states[m].transitions@[l2].trigger.spec_contains(*t)
                        &&& q.all_states[m].id@ == from@
                        &&& q.all_states[q.all_states[m].transitions@[l2].to as int].id@ == to@
                    },
                    forall|l2: int| 0 <= l2 < l ==> !{
                        &&& #[trigger] q.all_states[k as int].transitions@[l2].trigger.spec_contains(*t)
                        &&& q.all_states[q.all_states[k as int].transitions@[l2].to as int].id@ == to@
                    },
                decreases state.transitions.len() - l,
            {
                let u = state.transitions[l];
                assert(u.to < q.all_states.len());
                if q.all_states[u.to].id == *to && u.trigger.contains(t) {
                    return true;
                }
                l += 1;
            }
        }
        k += 1;
    }
    false
}

/// Checks whether `p` is a subautomaton of `q`, comparing states by their names (see
/// `subautomaton`): states, accepting states, initial states and transitions, where a
/// transition of `p` is covered by one of `q` between states of the same names whose trigger
/// contains it (see `Trigger::contains`).
pub fn is_subautomaton(p: Automaton, q: Automaton) -> (res: bool)
    requires
        p.wf(),
        q.wf(),
    ensures
        res == subautomaton(p, q),
{
    let mut k: usize = 0;
    while k < p.all_states.len()
        invariant
            k <= p.all_states.len(),
            forall|m: int| 0 <= m < k ==> has_named_state(q, #[trigger] p.all_states[m].id@, false),
            forall|m: int| 0 <= m < k && #[trigger] p.all_states[m].accept ==> has_named_state(q, p.all_states[m].id@, true),
        decreases p.all_states.len() - k,
    {
        if !find_named_state(&q, &p.all_states[k].id, false) {
            return false;
        }
        if p.all_states[k].accept && !find_named_state(&q, &p.all_states[k].id, true) {
            return false;
        }
        k += 1;
    }
    if p.get_initial_state().id != q.get_initial_state().id {
        return false;
    }
    let mut k: usize = 0;
    while k < p.all_states.len()
        invariant
            p.wf(),
            q.wf(),
            k <= p.all_states.len(),
            forall|m: int, j: int| 0 <= m < k && 0 <= j < p.all_states[m].transitions.len() ==> covered_in(
                q,
                p.all_states[m].id@,
                p.all_states[#[trigger] p.all_states[m].transitions@[j].to as int].id@,
                p.all_states[m].transitions@[j].trigger,
            ),
        decreases p.all_states.len() - k,
    {
        let state = &p.all_states[k];
        let mut j: usize = 0;
        while j < state.transitions.len()
            invariant
                p.wf(),
                q.wf(),
                k < p.all_states.len(),
                *state == p.all_states[k as int],
                j <= state.transitions.len(),
                forall|m: int, j2: int| 0 <= m < k && 0 <= j2 < p.all_states[m].transitions.len() ==> covered_in(
                    q,
                    p.all_states[m].id@,
                    p.all_states[#[trigger] p.all_states[m].transitions@[j2].to as int].id@,
                    p.all_states[m].transitions@[j2].trigger,
                ),
                forall|j2: int| 0 <= j2 < j ==> covered_in(
                    q,
                    p.all_states[k as int].id@,
                    p.all_states[#[trigger] p.all_states[k as int].transitions@[j2].to as int].id@,
                    p.all_states[k as int].transitions@[j2].trigger,
                ),
            decreases state.transitions.len() - j,
        {
            let u = state.transitions[j];
            assert(u.to < p.all_states.len());
            if !find_covering(&q, &state.id, &p.all_states[u.to].id, &u.trigger) {
                return false;
            }
            j += 1;
        }
        k += 1;
    }
    true
}

/// The target of the first transition of `ts` labeled `t`.
fn first_target_of(ts: &Vec<Transition>, t: Trigger) -> (r: Option<StateId>)
    ensures
        r == first_target(ts@, t),
{
    let mut k: usize = 0;
    while k < ts.len()
        invariant
            k <= ts.len(),
            first_target(ts@, t) == target_from(ts@, t, k as int),
        decreases ts.len() - k,
    {
        if ts[k].trigger == t {
            return Some(ts[k].to);
        }
        k += 1;
    }
    None
}

/// Adds the triggers of `ts` that `acc` lacks to `acc`.
fn add_triggers(acc: &mut Vec<Trigger>, ts: &Vec<Transition>)
    requires
        old(acc)@.no_duplicates(),
    ensures
        final(acc)@.no_duplicates(),
        forall|t: Trigger| #[trigger] final(acc)@.contains(t) <==> (old(acc)@.contains(t) || labels_of(ts@).contains(t)),
{
    let ghost start = acc@;
    let mut k: usize = 0;
    while k < ts.len()
        invariant
            k <= ts.len(),
            acc@.no_duplicates(),
            forall|t: Trigger| #[trigger] acc@.contains(t) <==> (start.contains(t) || exists|j: int| 0 <= j < k && ts@[j].trigger == t),
        decreases ts.len() - k,
    {
        let t = ts[k].trigger;
        let mut found = false;
        let mut m: usize = 0;
        while m < acc.len()
            invariant
                m <= acc.len(),
                found <==> exists|i: int| 0 <= i < m && acc@[i] == t,
            decreases acc.len() - m,
        {
            if acc[m] == t {
                found = true;
            }
            m += 1;
        }
        let ghost before = acc@;
        if !found {
            acc.push(t);
            assert(acc@ == before.push(t));
            assert forall|u: Trigger| #[trigger] acc@.contains(u) implies before.contains(u) || u == t by {
                let i = choose|i: int| 0 <= i < acc@.len() && acc@[i] == u;
                if i < before.len() {
                    assert(before[i] == u);
                }
            }
            assert(acc@[before.len() as int] == t);
        }
        assert forall|u: Trigger| #[trigger] acc@.contains(u) <==> (start.contains(u) || exists|j: int| 0 <= j < k + 1 && ts@[j].trigger == u) by {
            if exists|j: int| 0 <= j < k + 1 && ts@[j].trigger == u {
                let j = choose|j: int| 0 <= j < k + 1 && ts@[j].trigger == u;
                if j < k {
                    assert(before.contains(u));
                } else if found {
                    let i = choose|i: int| 0 <= i < before.len() && before[i] == t;
                    assert(before.contains(u));
                }
                if before.contains(u) {
                    let i = choose|i: int| 0 <= i < before.len() && before[i] == u;
                    assert(acc@[i] == u);
                }
            }
            if before.contains(u) {
                let i = choose|i: int| 0 <= i < before.len() && before[i] == u;
                assert(acc@[i] == u);
            }
        }
        k += 1;
    }
    assert forall|t: Trigger| #[trigger] acc@.contains(t) <==> (start.contains(t) || labels_of(ts@).contains(t)) by {
        if labels_of(ts@).contains(t) {
            let j = choose|j: int| 0 <= j < ts@.len() && #[trigger] ts@[j].trigger == t;
            assert(exists|j: int| 0 <= j < k && ts@[j].trigger == t);
        }
    }
}

/// Every trigger that labels a transition of `ts1` or of `ts2`, each once.
fn triggers_of(ts1: &Vec<Transition>, ts2: &Vec<Transition>) -> (res: Vec<Trigger>)
    ensures
        res@.no_duplicates(),
        forall|t: Trigger| #[trigger] res@.contains(t) <==> (labels_of(ts1@).contains(t) || labels_of(ts2@).contains(t)),
{
    let mut res: Vec<Trigger> = Vec::new();
    add_triggers(&mut res, ts1);
    add_triggers(&mut res, ts2);
    res
}

/// After a class is merged with another along the new edge `(u, v)`, elements in one class are
/// still connected.
proof fn lemma_union_connected(
    d0: DSU,
    d1: DSU,
    edges: Set<(usize, usize)>,
    total: usize,
    u: usize,
    v: usize,
    c1: usize,
    c2: usize,
)
    requires
        u < total,
        v < total,
        c1 < total,
        c2 < total,
        d0.same(u as int, c1 as int),
        d0.same(v as int, c2 as int),
        forall|x: int, y: int| 0 <= x < total && 0 <= y < total ==> (#[trigger] d1.same(x, y) <==> (
            d0.same(x, y)
            || (d0.same(x, c1 as int) && d0.same(y, c2 as int))
            || (d0.same(x, c2 as int) && d0.same(y, c1 as int)))),
        forall|x: usize, y: usize| x < total && y < total && #[trigger] d0.same(x as int, y as int) ==> connected(edges, x, y),
    ensures
        forall|x: usize, y: usize| x < total && y < total && #[trigger] d1.same(x as int, y as int)
            ==> connected(edges.insert((u, v)), x, y),
{
    let more = edges.insert((u, v));
    assert forall|x: usize, y: usize| x < total && y < total && #[trigger] d1.same(x as int, y as int)
        implies connected(more, x, y) by {
        if d0.same(x as int, y as int) {
            lemma_connected_mono(edges, more, x, y);
        } else if d0.same(x as int, c1 as int) && d0.same(y as int, c2 as int) {
            assert(d0.same(x as int, u as int));
            assert(d0.same(v as int, y as int));
            lemma_connected_mono(edges, more, x, u);
            lemma_connected_mono(edges, more, v, y);
            lemma_connected_edge(more, u, v);
            lemma_connected_trans(more, x, u, v);
            lemma_connected_trans(more, x, v, y);
        } else {
            assert(d0.same(x as int, c2 as int) && d0.same(y as int, c1 as int));
            assert(d0.same(x as int, v as int));
            assert(d0.same(u as int, y as int));
            lemma_connected_mono(edges, more, x, v);
            lemma_connected_mono(edges, more, u, y);
            lemma_connected_edge(more, v, u);
            lemma_connected_trans(more, x, v, u);
            lemma_connected_trans(more, x, u, y);
        }
    }
}

/// Decides whether the initial states of `a1` and `a2` are bisimilar, reading each state as
/// accepting or not and each trigger that labels one of its transitions as leading to the
/// target of the first such transition.
///
/// The states of both automata are numbered side by side and kept in classes that only merge,
/// in the manner of the Hopcroft-Karp test for the equivalence of deterministic automata:
/// starting from the pair of initial states, each pair taken from a stack must agree on
/// acceptance and on its labels, and the successors by each label are pushed and their classes
/// merged unless they are in one class already.
pub fn is_equivalent(a1: Automaton, a2: Automaton) -> (res: bool)
    requires
        a1.wf(),
        a2.wf(),
        a1.all_states.len() + a2.all_states.len() <= usize::MAX,
    ensures
        res == equivalent(a1, a2),
{
    let offset = a1.all_states.len();
    let total = offset + a2.all_states.len();
    let mut dsu = DSU::new(total);
    let mut stack: Vec<(StateId, StateId)> = Vec::new();
    let start = (a1.initial_state, a2.initial_state + offset);
    stack.push(start);
    let ghost mut edges: Set<(usize, usize)> = set![start];
    proof {
        assert forall|x: usize, y: usize| x < total && y < total && #[trigger] dsu.same(x as int, y as int)
            implies connected(edges, x, y) by {
            lemma_connected_refl(edges, x);
        }
        assert(stack@[0] == start);
    }
    while stack.len() > 0
        invariant
            a1.wf(),
            a2.wf(),
            offset == a1.all_states.len(),
            total == offset + a2.all_states.len(),
            dsu.wf(),
            dsu.len() == total,
            edges.contains(start),
            start.0 == a1.initial_state,
            start.1 == a2.initial_state + offset,
            forall|e: (usize, usize)| #[trigger] edges.contains(e) ==> e.0 < offset && offset <= e.1 < total,
            forall|k: int| 0 <= k < stack.len() ==> #[trigger] edges.contains(stack@[k]),
            forall|x: usize, y: usize| x < total && y < total && #[trigger] dsu.same(x as int, y as int) ==> connected(edges, x, y),
            forall|e: (usize, usize)| #[trigger] edges.contains(e) ==> stack@.contains(e) || pair_ok(a1, a2, dsu, e.0 as int, e.1 as int),
            equivalent(a1, a2) ==> forall|k: int| #![trigger stack@[k]] 0 <= k < stack.len()
                ==> bisimilar(a1, a2, stack@[k].0 as int, stack@[k].1 - offset),
        decreases dsu.classes(), stack.len(),
    {
        let ghost full = stack@;
        let top = stack.pop();
        let (s1, s2) = top.unwrap();
        proof {
            assert(full[full.len() - 1] == (s1, s2));
            assert(stack@ == full.drop_last());
            assert(edges.contains(full[full.len() - 1]));
            if equivalent(a1, a2) {
                assert(bisimilar(a1, a2, full[full.len() - 1].0 as int, full[full.len() - 1].1 - offset));
            }
        }
        let s2l = s2 - offset;
        if a1.all_states[s1].accept != a2.all_states[s2l].accept {
            proof {
                if equivalent(a1, a2) {
                    lemma_bisimilar(a1, a2, s1 as int, s2l as int);
                }
            }
            return false;
        }
        let s1_transitions = a1.get_state_transitions(s1);
        let s2_transitions = a2.get_state_transitions(s2l);
        let ranges = triggers_of(&s1_transitions, &s2_transitions);
        let ghost classes0 = dsu.classes();
        let ghost len1 = stack.len();
        let ghost popped = (s1, s2);
        proof {
            assert forall|e: (usize, usize)| #[trigger] edges.contains(e) implies
                stack@.contains(e) || e == popped || pair_ok(a1, a2, dsu, e.0 as int, e.1 as int) by {
                if full.contains(e) && e != popped {
                    let i = choose|i: int| 0 <= i < full.len() && full[i] == e;
                    assert(i < full.len() - 1);
                    assert(stack@[i] == e);
                }
            }
        }
        let mut k: usize = 0;
        while k < ranges.len()
            invariant
                a1.wf(),
                a2.wf(),
                offset == a1.all_states.len(),
                total == offset + a2.all_states.len(),
                dsu.wf(),
                dsu.len() == total,
                edges.contains(start),
                edges.contains(popped),
                popped == (s1, s2),
                s1 < offset,
                offset <= s2 < total,
                s2l == s2 - offset,
                a1.all_states[s1 as int].accept == a2.all_states[s2l as int].accept,
                s1_transitions@ == a1.all_states[s1 as int].transitions@,
                s2_transitions@ == a2.all_states[s2l as int].transitions@,
                forall|t: Trigger| #[trigger] ranges@.contains(t) <==> (labels(a1, s1 as int).contains(t) || labels(a2, s2l as int).contains(t)),
                k <= ranges.len(),
                forall|j: int| #![trigger ranges@[j]] 0 <= j < k ==> {
                    &&& labels(a1, s1 as int).contains(ranges@[j])
                    &&& labels(a2, s2l as int).contains(ranges@[j])
                    &&& dsu.same(joint_next(a1, a2, s1 as int, ranges@[j]), joint_next(a1, a2, s2 as int, ranges@[j]))
                },
                forall|e: (usize, usize)| #[trigger] edges.contains(e) ==> e.0 < offset && offset <= e.1 < total,
                forall|k: int| 0 <= k < stack.len() ==> #[trigger] edges.contains(stack@[k]),
                forall|x: usize, y: usize| x < total && y < total && #[trigger] dsu.same(x as int, y as int) ==> connected(edges, x, y),
                forall|e: (usize, usize)| #[trigger] edges.contains(e) ==> stack@.contains(e) || e == popped || pair_ok(a1, a2, dsu, e.0 as int, e.1 as int),
                equivalent(a1, a2) ==> bisimilar(a1, a2, s1 as int, s2l as int),
                equivalent(a1, a2) ==> forall|k: int| #![trigger stack@[k]] 0 <= k < stack.len()
                    ==> bisimilar(a1, a2, stack@[k].0 as int, stack@[k].1 - offset),
                dsu.classes() <= classes0,
                dsu.classes() == classes0 ==> stack.len() == len1,
            decreases ranges.len() - k,
        {
            let range = ranges[k];
            let s1_to = first_target_of(&s1_transitions, range);
            let s2_to = first_target_of(&s2_transitions, range);
            proof {
                assert(ranges@.contains(range));
                lemma_first_target(s1_transitions@, range);
                lemma_first_target(s2_transitions@, range);
            }
            if !(s1_to.is_some() && s2_to.is_some()) {
                proof {
                    if equivalent(a1, a2) {
                        lemma_bisimilar(a1, a2, s1 as int, s2l as int);
                    }
                }
                return false;
            }
            let u = s1_to.unwrap();
            let v2 = s2_to.unwrap();
            proof {
                assert(labels(a1, s1 as int).contains(range));
                assert(labels(a2, s2l as int).contains(range));
                lemma_joint_next(a1, a2, s1 as int, range);
                assert(joint_labels(a1, a2, s2 as int) == labels(a2, s2l as int));
                lemma_joint_next(a1, a2, s2 as int, range);
                assert(joint_next(a1, a2, s1 as int, range) == u);
                assert(joint_next(a1, a2, s2 as int, range) == v2 + offset);
            }
            let v = v2 + offset;
            let ghost d0 = dsu;
            let c1 = dsu.find(u);
            let ghost d1 = dsu;
            let c2 = dsu.find(v);
            let ghost d2 = dsu;
            proof {
                assert forall|p: int, q: int| 0 <= p < total && 0 <= q < total && #[trigger] d0.same(p, q)
                    implies d2.same(p, q) by {
                    assert(d1.root(p) == d0.root(p) && d1.root(q) == d0.root(q));
                }
                assert forall|p: int, q: int| 0 <= p < total && 0 <= q < total && #[trigger] d2.same(p, q)
                    implies d0.same(p, q) by {
                    assert(d1.root(p) == d0.root(p) && d1.root(q) == d0.root(q));
                }
                assert forall|x: usize, y: usize| x < total && y < total && #[trigger] d2.same(x as int, y as int)
                    implies connected(edges, x, y) by {
                    assert(d0.same(x as int, y as int));
                }
                assert forall|e: (usize, usize)| #[trigger] edges.contains(e) implies
                    stack@.contains(e) || e == popped || pair_ok(a1, a2, d2, e.0 as int, e.1 as int) by {
                    if !stack@.contains(e) && e != popped {
                        lemma_pair_ok_grows(a1, a2, d0, d2, e.0 as int, e.1 as int);
                    }
                }
                assert(d2.root(c1 as int) == c1);
                assert(d2.same(u as int, c1 as int));
                assert(d2.same(v as int, c2 as int));
                assert(d2.classes() == d0.classes());
            }
            if c1 != c2 {
                dsu.union(c1, c2);
                let ghost d3 = dsu;
                let ghost sk = stack@;
                stack.push((u, v));
                proof {
                    lemma_union_connected(d2, d3, edges, total, u, v, c1, c2);
                    let more = edges.insert((u, v));
                    assert forall|p: int, q: int| 0 <= p < total && 0 <= q < total && #[trigger] d2.same(p, q)
                        implies d3.same(p, q) by {
                    }
                    assert forall|e: (usize, usize)| #[trigger] more.contains(e) implies
                        stack@.contains(e) || e == popped || pair_ok(a1, a2, d3, e.0 as int, e.1 as int) by {
                        if e == (u, v) {
                            assert(stack@[sk.len() as int] == e);
                        } else if sk.contains(e) {
                            let i = choose|i: int| 0 <= i < sk.len() && sk[i] == e;
                            assert(stack@[i] == e);
                        } else if e != popped {
                            assert(edges.contains(e));
                            lemma_pair_ok_grows(a1, a2, d2, d3, e.0 as int, e.1 as int);
                        }
                    }
                    assert forall|i: int| 0 <= i < stack.len() implies #[trigger] more.contains(stack@[i]) by {
                        if i < sk.len() {
                            assert(stack@[i] == sk[i]);
                        }
                    }
                    if equivalent(a1, a2) {
                        lemma_bisimilar(a1, a2, s1 as int, s2l as int);
                        assert(next(a1, s1 as int, range) == u);
                        assert(next(a2, s2l as int, range) == v2);
                        assert(bisimilar(a1, a2, u as int, v2 as int));
                        assert forall|i: int| #![trigger stack@[i]] 0 <= i < stack.len()
                            implies bisimilar(a1, a2, stack@[i].0 as int, stack@[i].1 - offset) by {
                            if i < sk.len() {
                                assert(stack@[i] == sk[i]);
                            }
                        }
                    }
                    assert forall|j: int| #![trigger ranges@[j]] 0 <= j < k + 1 implies {
                        &&& labels(a1, s1 as int).contains(ranges@[j])
                        &&& labels(a2, s2l as int).contains(ranges@[j])
                        &&& d3.same(joint_next(a1, a2, s1 as int, ranges@[j]), joint_next(a1, a2, s2 as int, ranges@[j]))
                    } by {
                        if j < k {
                            lemma_joint_next(a1, a2, s1 as int, ranges@[j]);
                            assert(joint_labels(a1, a2, s2 as int) == labels(a2, s2l as int));
                            lemma_joint_next(a1, a2, s2 as int, ranges@[j]);
                            assert(d0.same(joint_next(a1, a2, s1 as int, ranges@[j]), joint_next(a1, a2, s2 as int, ranges@[j])));
                        } else {
                            assert(d3.same(u as int, v as int));
                        }
                    }
                    edges = more;
                }
            } else {
                proof {
                    assert forall|j: int| #![trigger ranges@[j]] 0 <= j < k + 1 implies {
                        &&& labels(a1, s1 as int).contains(ranges@[j])
                        &&& labels(a2, s2l as int).contains(ranges@[j])
                        &&& d2.same(joint_next(a1, a2, s1 as int, ranges@[j]), joint_next(a1, a2, s2 as int, ranges@[j]))
                    } by {
                        if j < k {
                            lemma_joint_next(a1, a2, s1 as int, ranges@[j]);
                            assert(joint_labels(a1, a2, s2 as int) == labels(a2, s2l as int));
                            lemma_joint_next(a1, a2, s2 as int, ranges@[j]);
                            assert(d0.same(joint_next(a1, a2, s1 as int, ranges@[j]), joint_next(a1, a2, s2 as int, ranges@[j])));
                        } else {
                            assert(d2.same(u as int, v as int));
                        }
                    }
                }
            }
            k += 1;
        }
        proof {
            assert(joint_labels(a1, a2, s1 as int) == labels(a1, s1 as int));
            assert(joint_labels(a1, a2, s2 as int) == labels(a2, s2l as int));
            assert forall|t: Trigger| #[trigger] labels(a1, s1 as int).contains(t) implies labels(a2, s2l as int).contains(t)
                && dsu.same(joint_next(a1, a2, s1 as int, t), joint_next(a1, a2, s2 as int, t)) by {
                assert(ranges@.contains(t));
                let j = choose|j: int| 0 <= j < ranges@.len() && ranges@[j] == t;
            }
            assert forall|t: Trigger| #[trigger] labels(a2, s2l as int).contains(t) implies labels(a1, s1 as int).contains(t) by {
                assert(ranges@.contains(t));
                let j = choose|j: int| 0 <= j < ranges@.len() && ranges@[j] == t;
            }
            assert(labels(a1, s1 as int) =~= labels(a2, s2l as int));
            assert(pair_ok(a1, a2, dsu, s1 as int, s2 as int));
            assert forall|e: (usize, usize)| #[trigger] edges.contains(e) implies
                stack@.contains(e) || pair_ok(a1, a2, dsu, e.0 as int, e.1 as int) by {
            }
        }
    }
    proof {
        assert forall|e: (usize, usize)| #[trigger] edges.contains(e) implies pair_ok(a1, a2, dsu, e.0 as int, e.1 as int) by {
            assert(!stack@.contains(e));
        }
        lemma_connected_bisimulation(a1, a2, dsu, edges);
        let n1 = a1.all_states.len() as int;
        let n2 = a2.all_states.len() as int;
        let rel = |x: int, y: int| 0 <= x < n1 && 0 <= y < n2 && connected(edges, x as usize, (y + n1) as usize);
        assert(edges.contains(start));
        lemma_connected_edge(edges, start.0, start.1);
        assert(rel(a1.initial_state as int, a2.initial_state as int));
        assert(is_bisimulation(a1, a2, rel));
    }
    true
}

/// The complement of an automaton given by its transitions over bytes: every state is completed
/// with transitions to a new sink state for the bytes it leaves unconsumed (see `totalize`), and
/// then every state, the sink included, has its acceptance flipped.
pub fn complement(a: Automaton) -> (res: Automaton)
    ensures
        res.name@ == a.name@ + "_complement"@,
        res.initial_state == a.initial_state,
        res.all_states.len() == a.all_states.len() + 1,
        res.all_states[a.all_states.len() as int].id@ == "sink"@,
        res.all_states[a.all_states.len() as int].accept,
        res.all_states[a.all_states.len() as int].transitions@ == seq![
            Transition { to: a.all_states.len(), trigger: Trigger::Range(0, 255) }],
        forall|i: int| #![trigger res.all_states[i]] 0 <= i < a.all_states.len() ==> {
            &&& res.all_states[i].id@ == a.all_states[i].id@
            &&& res.all_states[i].accept == !a.all_states[i].accept
            &&& a.all_states[i].transitions@.no_duplicates() ==> res.all_states[i].transitions@.no_duplicates()
            &&& all_valid(a.all_states[i].range_seq()) ==> forall|t: Transition| #![trigger res.all_states[i].transitions@.contains(t)]
                res.all_states[i].transitions@.contains(t) <==> totalized_transition(a.all_states[i], a.all_states.len() as int, t)
        },
{
    let n = a.all_states.len();
    let ghost old_states = a.all_states;
    let totalized = totalize(a.all_states);
    let mut states: Vec<State> = Vec::new();
    let mut i: usize = 0;
    while i < totalized.len()
        invariant
            i <= totalized@.len(),
            states@.len() == i,
            forall|k: int| #![trigger states@[k]] 0 <= k < i ==> {
                &&& states@[k].id@ == totalized@[k].id@
                &&& states@[k].accept == !totalized@[k].accept
                &&& states@[k].transitions@ == totalized@[k].transitions@
            },
        decreases totalized@.len() - i,
    {
        let mut st = totalized[i].duplicate();
        st.accept = !st.accept;
        let ghost before = states@;
        states.push(st);
        assert forall|k: int| 0 <= k < i + 1 implies #[trigger] states@[k] == (if k < i { before[k] } else { st }) by {}
        i += 1;
    }
    proof {
        reveal_strlit("_complement");
    }
    let res = Automaton { name: suffixed(a.name.as_str(), "_complement"), all_states: states, initial_state: a.initial_state };
    assert forall|i: int| #![trigger res.all_states[i]] 0 <= i <= n implies {
        &&& res.all_states[i].id@ == totalized@[i].id@
        &&& res.all_states[i].accept == !totalized@[i].accept
        &&& res.all_states[i].transitions@ == totalized@[i].transitions@
    } by {
        assert(res.all_states[i] == states@[i]);
    }
    res
}

} // verus!
