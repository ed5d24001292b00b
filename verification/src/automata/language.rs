//! The language of an automaton: the words of 16-bit symbols that it accepts, read with the
//! usual semantics of nondeterministic automata with epsilon transitions.

use vstd::prelude::*;

use crate::automata::utils::{covers, has_overlap, overlap, seq_covers};
use crate::automata::{
    eps_closure, eps_edge, eps_reaches, is_eps_path, lemma_closure_contains_start, lemma_ranges_of,
    ranges_of, transition_range, Automaton, Transition, Trigger,
};

verus! {

/// Whether the `j`-th transition of state `s` consumes the symbol `c` and leads to state `t`.
pub open spec fn moves_on(a: Automaton, s: usize, j: int, c: int, t: usize) -> bool {
    &&& 0 <= j < a.all_states[s as int].transitions.len()
    &&& a.all_states[s as int].transitions@[j].to == t
    &&& a.all_states[s as int].transitions@[j].trigger.spec_covers(c)
}

/// The states reached from a state of `from` by one transition that consumes the symbol `c`.
pub open spec fn step(a: Automaton, from: Set<usize>, c: int) -> Set<usize> {
    Set::new(
        |t: usize|
            exists|s: usize, j: int|
                from.contains(s) && s < a.all_states.len() && #[trigger] moves_on(a, s, j, c, t),
    )
}

/// The states the automaton can be in after reading the word `w`.
pub open spec fn run(a: Automaton, w: Seq<int>) -> Set<usize>
    decreases w.len(),
{
    if w.len() == 0 {
        eps_closure(a, set![a.initial_state])
    } else {
        eps_closure(a, step(a, run(a, w.drop_last()), w.last()))
    }
}

/// Whether the automaton accepts the word `w`: some state it can be in after reading `w` is
/// accepting.
pub open spec fn accepts_word(a: Automaton, w: Seq<int>) -> bool {
    exists|s: usize| #[trigger] run(a, w).contains(s) && s < a.all_states.len() && a.all_states[s as int].accept
}

/// Every symbol of `w` is a 16-bit value.
pub open spec fn symbols(w: Seq<int>) -> bool {
    forall|i: int| 0 <= i < w.len() ==> 0 <= #[trigger] w[i] <= 0xffff
}

/// No transition of the automaton is an epsilon transition.
pub open spec fn no_eps(a: Automaton) -> bool {
    forall|s: int, j: int| 0 <= s < a.all_states.len() && 0 <= j < a.all_states[s].transitions.len()
        ==> #[trigger] a.all_states[s].transitions@[j].trigger != Trigger::Epsilon
}

/// `sets` gives, for each state of `dfa`, the set of states of `nfa` that it stands for: the
/// initial states correspond, each transition leads to the closure of what `nfa` reaches on the
/// symbols it consumes, and a state accepts exactly when one of the states it stands for does.
pub open spec fn simulates(nfa: Automaton, dfa: Automaton, sets: Seq<Set<usize>>) -> bool {
    &&& sets.len() == dfa.all_states.len()
    &&& sets[dfa.initial_state as int] == eps_closure(nfa, set![nfa.initial_state])
    &&& forall|i: int, j: int, c: int|
        0 <= i < dfa.all_states.len() && 0 <= j < dfa.all_states[i].transitions.len()
            && #[trigger] dfa.all_states[i].transitions@[j].trigger.spec_covers(c)
            ==> sets[dfa.all_states[i].transitions@[j].to as int] == eps_closure(nfa, step(nfa, sets[i], c))
    &&& forall|i: int| 0 <= i < dfa.all_states.len() ==> (#[trigger] dfa.all_states[i].accept <==> exists|s: usize|
        sets[i].contains(s) && s < nfa.all_states.len() && nfa.all_states[s as int].accept)
}

/// Without epsilon transitions, the closure of a set of states is the set itself.
pub proof fn lemma_closure_without_eps(a: Automaton, x: Set<usize>)
    requires
        no_eps(a),
    ensures
        eps_closure(a, x) == x,
{
    assert forall|t: usize| eps_closure(a, x).contains(t) <==> x.contains(t) by {
        if eps_closure(a, x).contains(t) {
            let s = choose|s: usize| x.contains(s) && #[trigger] eps_reaches(a, s, t);
            let p = choose|p: Seq<usize>| #[trigger] is_eps_path(a, p) && p[0] == s && p.last() == t;
            if p.len() > 1 {
                let i: int = 0;
                assert(eps_edge(a, p[i], p[i + 1]));
                let tr = Transition { to: p[1], trigger: Trigger::Epsilon };
                let j = choose|j: int| 0 <= j < a.all_states[p[0] as int].transitions@.len()
                    && a.all_states[p[0] as int].transitions@[j] == tr;
                assert(a.all_states[p[0] as int].transitions@[j].trigger != Trigger::Epsilon);
            }
        }
        if x.contains(t) {
            lemma_closure_contains_start(a, x, t);
        }
    }
    assert(eps_closure(a, x) =~= x);
}

/// Without epsilon transitions, the ranges of a list of transitions are its labels, one for one.
pub proof fn lemma_ranges_without_eps(ts: Seq<Transition>)
    requires
        forall|j: int| 0 <= j < ts.len() ==> #[trigger] ts[j].trigger != Trigger::Epsilon,
    ensures
        ranges_of(ts).len() == ts.len(),
        forall|k: int| 0 <= k < ts.len() ==> #[trigger] ranges_of(ts)[k] == transition_range(ts[k])->Some_0,
    decreases ts.len(),
{
    if ts.len() > 0 {
        let init = ts.drop_last();
        assert forall|j: int| 0 <= j < init.len() implies #[trigger] init[j].trigger != Trigger::Epsilon by {
            assert(init[j] == ts[j]);
        }
        lemma_ranges_without_eps(init);
        assert(ts.last().trigger != Trigger::Epsilon);
        assert forall|k: int| 0 <= k < ts.len() implies #[trigger] ranges_of(ts)[k] == transition_range(ts[k])->Some_0 by {
            if k < ts.len() - 1 {
                assert(init[k] == ts[k]);
            }
        }
    }
}

/// In a deterministic and complete automaton, a state has exactly one successor on each symbol.
pub proof fn lemma_dfa_step(a: Automaton, d: usize, c: int)
    requires
        a.wf(),
        a.is_dfa(),
        d < a.all_states.len(),
        0 <= c <= 0xffff,
    ensures
        exists|j: int| 0 <= j < a.all_states[d as int].transitions.len()
            && #[trigger] a.all_states[d as int].transitions@[j].trigger.spec_covers(c)
            && step(a, set![d], c) == set![a.all_states[d as int].transitions@[j].to],
{
    let st = a.all_states[d as int];
    let ts = st.transitions@;
    assert(st.is_dfa_state());
    lemma_ranges_of(ts);
    lemma_ranges_without_eps(ts);
    assert(seq_covers(st.range_seq(), c));
    let j = choose|j: int| 0 <= j < ts.len() && #[trigger] ts[j].trigger.spec_covers(c);
    let t = ts[j].to;
    assert forall|u: usize| step(a, set![d], c).contains(u) <==> set![t].contains(u) by {
        if step(a, set![d], c).contains(u) {
            let (s, j2) = choose|s: usize, j2: int| set![d].contains(s) && s < a.all_states.len() && #[trigger] moves_on(a, s, j2, c, u);
            assert(s == d);
            if j2 != j {
                let r1 = ranges_of(ts)[j];
                let r2 = ranges_of(ts)[j2];
                assert(covers(r1, c) && covers(r2, c));
                if j < j2 {
                    assert(overlap(ranges_of(ts)[j], ranges_of(ts)[j2]));
                } else {
                    assert(overlap(ranges_of(ts)[j2], ranges_of(ts)[j]));
                }
                assert(has_overlap(st.range_seq()));
            }
        }
        if set![t].contains(u) {
            assert(moves_on(a, d, j, c, u));
        }
    }
    assert(step(a, set![d], c) =~= set![t]);
}

/// Reading a word of 16-bit symbols, a deterministic and complete automaton is always in exactly
/// one state, and that state stands for the states that a simulated automaton can be in.
pub proof fn lemma_dfa_run(nfa: Automaton, dfa: Automaton, sets: Seq<Set<usize>>, w: Seq<int>)
    requires
        dfa.wf(),
        dfa.is_dfa(),
        simulates(nfa, dfa, sets),
        symbols(w),
    ensures
        exists|d: usize| d < dfa.all_states.len() && run(dfa, w) == set![d] && #[trigger] sets[d as int] == run(nfa, w),
    decreases w.len(),
{
    assert(no_eps(dfa)) by {
        assert forall|s: int, j: int| 0 <= s < dfa.all_states.len() && 0 <= j < dfa.all_states[s].transitions.len()
            implies #[trigger] dfa.all_states[s].transitions@[j].trigger != Trigger::Epsilon by {
            assert(dfa.all_states[s].is_dfa_state());
        }
    }
    if w.len() == 0 {
        lemma_closure_without_eps(dfa, set![dfa.initial_state]);
        assert(sets[dfa.initial_state as int] == run(nfa, w));
    } else {
        let v = w.drop_last();
        assert(symbols(v)) by {
            assert forall|i: int| 0 <= i < v.len() implies 0 <= #[trigger] v[i] <= 0xffff by {
                assert(v[i] == w[i]);
            }
        }
        lemma_dfa_run(nfa, dfa, sets, v);
        let d = choose|d: usize| d < dfa.all_states.len() && run(dfa, v) == set![d] && #[trigger] sets[d as int] == run(nfa, v);
        let c = w.last();
        assert(0 <= w[w.len() - 1] <= 0xffff);
        lemma_dfa_step(dfa, d, c);
        let j = choose|j: int| 0 <= j < dfa.all_states[d as int].transitions.len()
            && #[trigger] dfa.all_states[d as int].transitions@[j].trigger.spec_covers(c)
            && step(dfa, set![d], c) == set![dfa.all_states[d as int].transitions@[j].to];
        let t = dfa.all_states[d as int].transitions@[j].to;
        lemma_closure_without_eps(dfa, set![t]);
        assert(run(dfa, w) == set![t]);
        assert(sets[t as int] == eps_closure(nfa, step(nfa, sets[d as int], c)));
        assert(t < dfa.all_states.len());
    }
}

/// A deterministic and complete automaton that simulates another one accepts the same words of
/// 16-bit symbols.
pub proof fn lemma_simulation_preserves_language(nfa: Automaton, dfa: Automaton, sets: Seq<Set<usize>>, w: Seq<int>)
    requires
        dfa.wf(),
        dfa.is_dfa(),
        simulates(nfa, dfa, sets),
        symbols(w),
    ensures
        accepts_word(dfa, w) == accepts_word(nfa, w),
{
    lemma_dfa_run(nfa, dfa, sets, w);
    let d = choose|d: usize| d < dfa.all_states.len() && run(dfa, w) == set![d] && #[trigger] sets[d as int] == run(nfa, w);
    assert(dfa.all_states[d as int].accept <==> exists|s: usize|
        sets[d as int].contains(s) && s < nfa.all_states.len() && nfa.all_states[s as int].accept);
    if accepts_word(dfa, w) {
        let s = choose|s: usize| #[trigger] run(dfa, w).contains(s) && s < dfa.all_states.len() && dfa.all_states[s as int].accept;
        assert(s == d);
        let s2 = choose|s2: usize| sets[d as int].contains(s2) && s2 < nfa.all_states.len() && nfa.all_states[s2 as int].accept;
        assert(run(nfa, w).contains(s2));
    }
    if accepts_word(nfa, w) {
        let s = choose|s: usize| #[trigger] run(nfa, w).contains(s) && s < nfa.all_states.len() && nfa.all_states[s as int].accept;
        assert(sets[d as int].contains(s));
        assert(run(dfa, w).contains(d));
    }
}


/// The symbols of a string: each character taken as a 16-bit value, keeping its low 16 bits.
pub open spec fn word(s: Seq<char>) -> Seq<int> {
    s.map_values(|c: char| (c as u16) as int)
}

/// The symbols of a string are 16-bit values.
pub proof fn lemma_word_symbols(s: Seq<char>)
    ensures
        symbols(word(s)),
{
}

/// No epsilon transitions, and no two transitions of a state overlap.
pub open spec fn deterministic(a: Automaton) -> bool {
    &&& no_eps(a)
    &&& forall|s: int| 0 <= s < a.all_states.len() ==> !has_overlap(#[trigger] a.all_states[s].range_seq())
}

/// In an automaton without epsilon transitions or overlapping ranges, the transition that
/// consumes a symbol is the only way out of its state on that symbol.
pub proof fn lemma_det_step(a: Automaton, d: usize, j: int, c: int)
    requires
        a.wf(),
        deterministic(a),
        d < a.all_states.len(),
        0 <= j < a.all_states[d as int].transitions.len(),
        a.all_states[d as int].transitions@[j].trigger.spec_covers(c),
    ensures
        step(a, set![d], c) == set![a.all_states[d as int].transitions@[j].to],
{
    let st = a.all_states[d as int];
    let ts = st.transitions@;
    assert forall|k: int| 0 <= k < ts.len() implies #[trigger] ts[k].trigger != Trigger::Epsilon by {
        assert(a.all_states[d as int].transitions@[k].trigger != Trigger::Epsilon);
    }
    lemma_ranges_without_eps(ts);
    let t = ts[j].to;
    assert forall|u: usize| step(a, set![d], c).contains(u) <==> set![t].contains(u) by {
        if step(a, set![d], c).contains(u) {
            let (s, j2) = choose|s: usize, j2: int| set![d].contains(s) && s < a.all_states.len() && #[trigger] moves_on(a, s, j2, c, u);
            assert(s == d);
            if j2 != j {
                assert(covers(ranges_of(ts)[j], c) && covers(ranges_of(ts)[j2], c));
                if j < j2 {
                    assert(overlap(ranges_of(ts)[j], ranges_of(ts)[j2]));
                } else {
                    assert(overlap(ranges_of(ts)[j2], ranges_of(ts)[j]));
                }
                assert(has_overlap(st.range_seq()));
            }
        }
        if set![t].contains(u) {
            assert(moves_on(a, d, j, c, u));
        }
    }
    assert(step(a, set![d], c) =~= set![t]);
}

/// A state with no transition on a symbol leads nowhere on it.
pub proof fn lemma_step_none(a: Automaton, d: usize, c: int)
    requires
        forall|j: int| 0 <= j < a.all_states[d as int].transitions.len() ==> !(#[trigger] a.all_states[d as int].transitions@[j].trigger.spec_covers(c)),
    ensures
        step(a, set![d], c) == Set::<usize>::empty(),
{
    assert(step(a, set![d], c) =~= Set::<usize>::empty());
}

/// Once an automaton can be in no state, it stays so whatever it reads.
pub proof fn lemma_run_empty_stays(a: Automaton, w: Seq<int>, i: int)
    requires
        0 <= i <= w.len(),
        run(a, w.take(i)) == Set::<usize>::empty(),
    ensures
        run(a, w) == Set::<usize>::empty(),
    decreases w.len() - i,
{
    if i < w.len() {
        let v = w.drop_last();
        assert(v.take(i) =~= w.take(i));
        lemma_run_empty_stays(a, v, i);
        assert(step(a, Set::<usize>::empty(), w.last()) =~= Set::<usize>::empty());
        assert(eps_closure(a, Set::<usize>::empty()) =~= Set::<usize>::empty());
    } else {
        assert(w.take(i) =~= w);
    }
}

/// The words an automaton accepts depend only on its initial state, its transitions and which
/// states accept; reading a word, two automata with the same initial state and transitions can
/// be in the same states.
pub proof fn lemma_run_same_transitions(a: Automaton, b: Automaton, w: Seq<int>)
    requires
        a.initial_state == b.initial_state,
        a.all_states.len() == b.all_states.len(),
        forall|s: int| 0 <= s < a.all_states.len() ==> #[trigger] a.all_states[s].transitions@ == b.all_states[s].transitions@,
    ensures
        run(a, w) == run(b, w),
    decreases w.len(),
{
    assert forall|s: usize, t: usize| eps_edge(a, s, t) <==> eps_edge(b, s, t) by {
        if s < a.all_states.len() {
            assert(a.all_states[s as int].transitions@ == b.all_states[s as int].transitions@);
        }
    }
    assert forall|p: Seq<usize>| is_eps_path(a, p) <==> is_eps_path(b, p) by {
        if is_eps_path(a, p) {
            assert forall|i: int| 0 <= i < p.len() - 1 implies #[trigger] eps_edge(b, p[i], p[i + 1]) by {
                assert(eps_edge(a, p[i], p[i + 1]));
            }
        }
        if is_eps_path(b, p) {
            assert forall|i: int| 0 <= i < p.len() - 1 implies #[trigger] eps_edge(a, p[i], p[i + 1]) by {
                assert(eps_edge(b, p[i], p[i + 1]));
            }
        }
    }
    assert forall|x: Set<usize>| eps_closure(a, x) == eps_closure(b, x) by {
        assert forall|t: usize| eps_closure(a, x).contains(t) <==> eps_closure(b, x).contains(t) by {
            if eps_closure(a, x).contains(t) {
                let s = choose|s: usize| x.contains(s) && #[trigger] eps_reaches(a, s, t);
                let p = choose|p: Seq<usize>| #[trigger] is_eps_path(a, p) && p[0] == s && p.last() == t;
                assert(is_eps_path(b, p));
                assert(eps_reaches(b, s, t));
            }
            if eps_closure(b, x).contains(t) {
                let s = choose|s: usize| x.contains(s) && #[trigger] eps_reaches(b, s, t);
                let p = choose|p: Seq<usize>| #[trigger] is_eps_path(b, p) && p[0] == s && p.last() == t;
                assert(is_eps_path(a, p));
                assert(eps_reaches(a, s, t));
            }
        }
        assert(eps_closure(a, x) =~= eps_closure(b, x));
    }
    if w.len() > 0 {
        lemma_run_same_transitions(a, b, w.drop_last());
        let x = run(a, w.drop_last());
        let c = w.last();
        assert forall|t: usize| step(a, x, c).contains(t) <==> step(b, x, c).contains(t) by {
            if step(a, x, c).contains(t) {
                let (s, j) = choose|s: usize, j: int| x.contains(s) && s < a.all_states.len() && #[trigger] moves_on(a, s, j, c, t);
                assert(a.all_states[s as int].transitions@ == b.all_states[s as int].transitions@);
                assert(moves_on(b, s, j, c, t));
            }
            if step(b, x, c).contains(t) {
                let (s, j) = choose|s: usize, j: int| x.contains(s) && s < b.all_states.len() && #[trigger] moves_on(b, s, j, c, t);
                assert(a.all_states[s as int].transitions@ == b.all_states[s as int].transitions@);
                assert(moves_on(a, s, j, c, t));
            }
        }
        assert(step(a, x, c) =~= step(b, x, c));
    }
}

/// Reading a word of 16-bit symbols, a deterministic and complete automaton is in exactly one
/// state.
pub proof fn lemma_dfa_single_state(a: Automaton, w: Seq<int>)
    requires
        a.wf(),
        a.is_dfa(),
        symbols(w),
    ensures
        exists|d: usize| d < a.all_states.len() && #[trigger] run(a, w) == set![d],
    decreases w.len(),
{
    assert(no_eps(a)) by {
        assert forall|s: int, j: int| 0 <= s < a.all_states.len() && 0 <= j < a.all_states[s].transitions.len()
            implies #[trigger] a.all_states[s].transitions@[j].trigger != Trigger::Epsilon by {
            assert(a.all_states[s].is_dfa_state());
        }
    }
    if w.len() == 0 {
        lemma_closure_without_eps(a, set![a.initial_state]);
    } else {
        let v = w.drop_last();
        assert(symbols(v)) by {
            assert forall|i: int| 0 <= i < v.len() implies 0 <= #[trigger] v[i] <= 0xffff by {
                assert(v[i] == w[i]);
            }
        }
        lemma_dfa_single_state(a, v);
        let d = choose|d: usize| d < a.all_states.len() && #[trigger] run(a, v) == set![d];
        assert(0 <= w[w.len() - 1] <= 0xffff);
        lemma_dfa_step(a, d, w.last());
        let j = choose|j: int| 0 <= j < a.all_states[d as int].transitions.len()
            && #[trigger] a.all_states[d as int].transitions@[j].trigger.spec_covers(w.last())
            && step(a, set![d], w.last()) == set![a.all_states[d as int].transitions@[j].to];
        let t = a.all_states[d as int].transitions@[j].to;
        lemma_closure_without_eps(a, set![t]);
        assert(run(a, w) == set![t]);
    }
}

/// Flipping which states accept makes a deterministic and complete automaton accept exactly the
/// words of 16-bit symbols that it rejected.
pub proof fn lemma_complement_of_dfa(a: Automaton, b: Automaton, w: Seq<int>)
    requires
        a.wf(),
        a.is_dfa(),
        symbols(w),
        a.initial_state == b.initial_state,
        a.all_states.len() == b.all_states.len(),
        forall|s: int| 0 <= s < a.all_states.len() ==> #[trigger] a.all_states[s].transitions@ == b.all_states[s].transitions@,
        forall|s: int| 0 <= s < a.all_states.len() ==> #[trigger] b.all_states[s].accept == !a.all_states[s].accept,
    ensures
        accepts_word(b, w) == !accepts_word(a, w),
{
    lemma_run_same_transitions(a, b, w);
    lemma_dfa_single_state(a, w);
    let d = choose|d: usize| d < a.all_states.len() && #[trigger] run(a, w) == set![d];
    assert(b.all_states[d as int].accept == !a.all_states[d as int].accept);
    if accepts_word(a, w) {
        let s = choose|s: usize| #[trigger] run(a, w).contains(s) && s < a.all_states.len() && a.all_states[s as int].accept;
        assert(s == d);
    }
    if accepts_word(b, w) {
        let s = choose|s: usize| #[trigger] run(b, w).contains(s) && s < b.all_states.len() && b.all_states[s as int].accept;
        assert(s == d);
    }
    if !accepts_word(a, w) {
        assert(run(b, w).contains(d));
    }
    if !accepts_word(b, w) {
        assert(run(a, w).contains(d));
    }
}

} // verus!
