//! Finite automata over ranges of 16-bit symbols, used to decide regular-expression membership in
//! the string rules.

pub mod bisimulation;
pub mod construction;
pub mod determinize;
pub mod from_regex;
pub mod dsu;
pub mod language;
pub mod operations;
pub mod parser;
pub mod regex_language;
pub mod utils;

use std::collections::BTreeSet;
use vstd::prelude::*;

use crate::automata::language::{
    accepts_word, deterministic, lemma_complement_of_dfa, lemma_det_step, lemma_run_empty_stays, lemma_step_none,
    lemma_closure_without_eps, no_eps, run, step, symbols, word,
};
use crate::ast::pool::automaton_eq;
use crate::text::suffixed;
use crate::automata::utils::{all_valid, canonical, covers, has_overlap, has_overlapping_ranges, is_missing, missing_ranges, seq_covers};

verus! {

broadcast use vstd::laws_cmp::group_laws_cmp, vstd::std_specs::btree::group_btree_axioms;

/// Type alias for state representation.
pub type StateId = usize;

/// Condition under which a transition is enabled.
///
/// A trigger may either consume no input (epsilon transition) or consume a single input symbol
/// whose value lies within a given range.
#[derive(Debug, Clone, Copy, Hash, PartialEq, Eq, Structural)]
pub enum Trigger {
    /// Epsilon transition (does not consume input).
    Epsilon,
    /// Transition enabled by any input symbol in the inclusive range [l, r].
    Range(u16, u16),
}

impl Trigger {
    /// Whether the trigger consumes the symbol `c`.
    pub open spec fn spec_covers(self, c: int) -> bool {
        match self {
            Trigger::Range(l, r) => l <= c <= r,
            Trigger::Epsilon => false,
        }
    }

    /// Whether `self` covers `other`, as `contains` computes it.
    pub open spec fn spec_contains(self, other: Trigger) -> bool {
        match (self, other) {
            (Trigger::Epsilon, Trigger::Epsilon) => true,
            (Trigger::Range(a_start, a_end), Trigger::Range(b_start, b_end)) => a_start <= b_start && b_end <= a_end,
            _ => false,
        }
    }

    /// Returns true if `self` covers `other`.
    pub fn contains(&self, other: &Trigger) -> (res: bool)
        ensures
            res == self.spec_contains(*other),
    {
        match (self, other) {
            (Trigger::Epsilon, Trigger::Epsilon) => true,
            (Trigger::Range(a_start, a_end), Trigger::Range(b_start, b_end)) => *a_start <= *b_start && *b_end <= *a_end,
            (Trigger::Range(_, _), Trigger::Epsilon) => false,
            (Trigger::Epsilon, Trigger::Range(_, _)) => false,
        }
    }
}

/// Represents a transition between automaton states.
///
/// A transition leads from the enclosing source state to a destination state and is labeled by a
/// trigger describing which input symbols enable it.
#[derive(Debug, Clone, Copy, Hash, PartialEq, Eq, Structural)]
pub struct Transition {
    /// Identifier of the destination state.
    pub to: StateId,
    /// Label of the transition, describing the consumed input.
    pub trigger: Trigger,
}

impl Transition {
    pub fn new(state_id: StateId, trigger: Trigger) -> (t: Transition)
        ensures
            t == (Transition { to: state_id, trigger }),
    {
        Transition { to: state_id, trigger }
    }
}

/// The range of a transition, as a pair of 32-bit bounds, if it consumes a symbol.
pub open spec fn transition_range(t: Transition) -> Option<(u32, u32)> {
    match t.trigger {
        Trigger::Range(l, r) => Some((l as u32, r as u32)),
        Trigger::Epsilon => None,
    }
}

/// The ranges of the symbol-consuming transitions of `ts`, in order.
pub open spec fn ranges_of(ts: Seq<Transition>) -> Seq<(u32, u32)>
    decreases ts.len(),
{
    if ts.len() == 0 {
        Seq::empty()
    } else {
        let rest = ranges_of(ts.drop_last());
        match transition_range(ts.last()) {
            Some(r) => rest.push(r),
            None => rest,
        }
    }
}

/// A range belongs to `ranges_of(ts)` exactly when some transition of `ts` is labeled with it.
pub proof fn lemma_ranges_of(ts: Seq<Transition>)
    ensures
        forall|x: (u32, u32)| #[trigger] ranges_of(ts).contains(x) <==> exists|j: int|
            0 <= j < ts.len() && transition_range(#[trigger] ts[j]) == Some(x),
        forall|k: int| 0 <= k < ranges_of(ts).len() ==> #[trigger] ranges_of(ts)[k].1 <= 0xffff
            && ranges_of(ts)[k].0 <= 0xffff,
        forall|c: int| seq_covers(ranges_of(ts), c) <==> exists|j: int|
            0 <= j < ts.len() && #[trigger] ts[j].trigger.spec_covers(c),
        ranges_of(ts).len() <= ts.len(),
    decreases ts.len(),
{
    if ts.len() > 0 {
        let init = ts.drop_last();
        lemma_ranges_of(init);
        let rest = ranges_of(init);
        assert forall|x: (u32, u32)| #[trigger] ranges_of(ts).contains(x) <==> exists|j: int|
            0 <= j < ts.len() && transition_range(#[trigger] ts[j]) == Some(x) by {
            if ranges_of(ts).contains(x) {
                if rest.contains(x) {
                    let j = choose|j: int| 0 <= j < init.len() && transition_range(#[trigger] init[j]) == Some(x);
                    assert(ts[j] == init[j]);
                } else {
                    let k = choose|k: int| 0 <= k < ranges_of(ts).len() && ranges_of(ts)[k] == x;
                    assert(ts[ts.len() - 1] == ts.last());
                }
            }
            if exists|j: int| 0 <= j < ts.len() && transition_range(#[trigger] ts[j]) == Some(x) {
                let j = choose|j: int| 0 <= j < ts.len() && transition_range(#[trigger] ts[j]) == Some(x);
                if j < ts.len() - 1 {
                    assert(init[j] == ts[j]);
                    assert(rest.contains(x));
                    let k = choose|k: int| 0 <= k < rest.len() && rest[k] == x;
                    assert(ranges_of(ts)[k] == x);
                } else {
                    assert(ranges_of(ts)[ranges_of(ts).len() - 1] == x);
                }
            }
        }
        assert forall|c: int| seq_covers(ranges_of(ts), c) <==> exists|j: int|
            0 <= j < ts.len() && #[trigger] ts[j].trigger.spec_covers(c) by {
            if seq_covers(ranges_of(ts), c) {
                let k = choose|k: int| 0 <= k < ranges_of(ts).len() && #[trigger] covers(ranges_of(ts)[k], c);
                let x = ranges_of(ts)[k];
                assert(ranges_of(ts).contains(x));
                let j = choose|j: int| 0 <= j < ts.len() && transition_range(#[trigger] ts[j]) == Some(x);
                assert(ts[j].trigger.spec_covers(c));
            }
            if exists|j: int| 0 <= j < ts.len() && #[trigger] ts[j].trigger.spec_covers(c) {
                let j = choose|j: int| 0 <= j < ts.len() && #[trigger] ts[j].trigger.spec_covers(c);
                let x = transition_range(ts[j])->Some_0;
                assert(ranges_of(ts).contains(x));
                let k = choose|k: int| 0 <= k < ranges_of(ts).len() && ranges_of(ts)[k] == x;
                assert(covers(ranges_of(ts)[k], c));
            }
        }
    }
}

/// Represents a state in the automaton.
///
/// A state is identified by a symbolic identifier, may be marked as accepting, and defines a set
/// of outgoing transitions labeled by triggers. The transitions are kept without repetitions.
#[derive(Debug, Clone)]
pub struct State {
    /// State symbolic name.
    pub id: String,
    /// Accepting state or not.
    pub accept: bool,
    /// Set of outgoing transitions.
    pub transitions: Vec<Transition>,
}

impl State {
    /// Creates a state with no transitions.
    pub fn new(id: &str, accept: bool) -> (s: State)
        ensures
            s.id@ == id@,
            s.accept == accept,
            s.transitions@.len() == 0,
    {
        State { id: String::from_str(id), accept, transitions: Vec::new() }
    }

    /// A copy of this state.
    pub fn duplicate(&self) -> (s: State)
        ensures
            s.id@ == self.id@,
            s.accept == self.accept,
            s.transitions@ == self.transitions@,
    {
        let transitions = self.transitions.clone();
        assert(transitions@ =~= self.transitions@);
        State { id: self.id.clone(), accept: self.accept, transitions }
    }

    /// The ranges of the symbol-consuming transitions of this state.
    pub open spec fn range_seq(self) -> Seq<(u32, u32)> {
        ranges_of(self.transitions@)
    }

    /// Whether the transitions of this state make it deterministic and complete: no epsilon
    /// transition, no two overlapping ranges, and every symbol in `[0, u16::MAX]` consumed.
    pub open spec fn is_dfa_state(self) -> bool {
        &&& forall|j: int| 0 <= j < self.transitions.len() ==> #[trigger] self.transitions@[j].trigger != Trigger::Epsilon
        &&& !has_overlap(self.range_seq())
        &&& forall|c: int| 0 <= c <= 0xffff ==> seq_covers(self.range_seq(), c)
    }

    /// Collects the ranges of the symbol-consuming transitions of this state.
    pub fn ranges(&self) -> (res: Vec<(u32, u32)>)
        ensures
            res@ == self.range_seq(),
            all_valid(res@) <==> forall|j: int| 0 <= j < self.transitions.len() ==> (
                #[trigger] self.transitions@[j].trigger matches Trigger::Range(l, r) ==> l <= r),
            forall|k: int| 0 <= k < res@.len() ==> #[trigger] res@[k].1 <= 0xffff && res@[k].0 <= 0xffff,
    {
        let mut res: Vec<(u32, u32)> = Vec::new();
        for j in 0..self.transitions.len()
            invariant
                res@ == ranges_of(self.transitions@.subrange(0, j as int)),
        {
            let t = self.transitions[j];
            assert(self.transitions@.subrange(0, j + 1).drop_last() =~= self.transitions@.subrange(0, j as int));
            if let Trigger::Range(l, r) = t.trigger {
                res.push((l as u32, r as u32));
            }
        }
        assert(self.transitions@.subrange(0, self.transitions.len() as int) =~= self.transitions@);
        proof {
            lemma_ranges_of(self.transitions@);
            if all_valid(res@) {
                assert forall|j: int| 0 <= j < self.transitions.len() implies (
                    #[trigger] self.transitions@[j].trigger matches Trigger::Range(l, r) ==> l <= r) by {
                    if let Trigger::Range(l, r) = self.transitions@[j].trigger {
                        let x = (l as u32, r as u32);
                        assert(transition_range(self.transitions@[j]) == Some(x));
                        assert(res@.contains(x));
                        let k = choose|k: int| 0 <= k < res@.len() && res@[k] == x;
                        assert(res@[k].0 <= res@[k].1);
                    }
                }
            }
            if forall|j: int| 0 <= j < self.transitions.len() ==> (
                #[trigger] self.transitions@[j].trigger matches Trigger::Range(l, r) ==> l <= r) {
                assert forall|k: int| 0 <= k < res@.len() implies #[trigger] res@[k].0 <= res@[k].1 by {
                    assert(res@.contains(res@[k]));
                }
            }
        }
        res
    }
}

/// Adds a transition to a set of transitions, unless it is already there.
pub fn insert_transition(transitions: &mut Vec<Transition>, t: Transition)
    ensures
        forall|u: Transition| #[trigger] final(transitions)@.contains(u) <==> (old(transitions)@.contains(u) || u == t),
        old(transitions)@.no_duplicates() ==> final(transitions)@.no_duplicates(),
        forall|k: int| 0 <= k < old(transitions)@.len() ==> #[trigger] final(transitions)@[k] == old(transitions)@[k],
        final(transitions)@.len() <= old(transitions)@.len() + 1,
{
    let mut k: usize = 0;
    while k < transitions.len()
        invariant
            k <= transitions.len(),
            forall|m: int| 0 <= m < k ==> transitions@[m] != t,
        decreases transitions.len() - k,
    {
        if transitions[k] == t {
            assert(transitions@[k as int] == t);
            return;
        }
        k += 1;
    }
    let ghost old_t = transitions@;
    transitions.push(t);
    assert(transitions@ =~= old_t.push(t));
    assert(transitions@[old_t.len() as int] == t);
    assert forall|u: Transition| #[trigger] transitions@.contains(u) <==> (old_t.contains(u) || u == t) by {
        if transitions@.contains(u) {
            let m = choose|m: int| 0 <= m < transitions@.len() && transitions@[m] == u;
            if m < old_t.len() {
                assert(old_t[m] == u);
            }
        }
        if old_t.contains(u) {
            let m = choose|m: int| 0 <= m < old_t.len() && old_t[m] == u;
            assert(transitions@[m] == u);
        }
    }
}

/// Represents a finite automaton.
///
/// An `Automaton` value defines the structure of a (possibly nondeterministic) finite automaton
/// with epsilon transitions. It consists of:
///
///  - a symbolic name identifying the automaton;
///  - a finite set of states, stored in `all_states`;
///  - a distinguished initial state, identified by `initial_state`.
///
/// States are indexed by their position in `all_states`. Transitions refer to destination states
/// via these indices (`StateId`), forming a directed graph.
#[derive(Debug, Clone)]
pub struct Automaton {
    /// Automaton symbolic name.
    pub name: String,
    /// Finite collection of states forming the automaton.
    pub all_states: Vec<State>,
    /// Identifier of the initial state.
    pub initial_state: StateId,
}

impl Automaton {
    /// The initial state and every transition target are states of the automaton, and no state
    /// lists a transition twice.
    pub open spec fn wf(&self) -> bool {
        &&& self.initial_state < self.all_states.len()
        &&& forall|s: int, j: int| 0 <= s < self.all_states.len() && 0 <= j < self.all_states[s].transitions.len()
            ==> #[trigger] self.all_states[s].transitions[j].to < self.all_states.len()
        &&& forall|s: int| 0 <= s < self.all_states.len() ==> #[trigger] self.all_states[s].transitions@.no_duplicates()
    }

    /// Every range label has its start at or before its end.
    pub open spec fn ranges_valid(&self) -> bool {
        forall|s: int, j: int| 0 <= s < self.all_states.len() && 0 <= j < self.all_states[s].transitions.len()
            ==> (#[trigger] self.all_states[s].transitions[j].trigger matches Trigger::Range(l, r) ==> l <= r)
    }

    /// Deterministic and complete: every state is a DFA state.
    pub open spec fn is_dfa(&self) -> bool {
        forall|s: int| 0 <= s < self.all_states.len() ==> #[trigger] self.all_states[s].is_dfa_state()
    }

    /// Checks whether the automaton is nondeterministic or incomplete: some state has an epsilon
    /// transition, two overlapping ranges, or leaves a symbol of `[0, u16::MAX]` unconsumed.
    pub fn is_nfa(&self) -> (res: bool)
        ensures
            self.ranges_valid() ==> res == !self.is_dfa(),
            !res ==> deterministic(*self),
    {
        let n = self.all_states.len();
        for i in 0..n
            invariant
                n == self.all_states.len(),
                self.ranges_valid() ==> forall|s: int| 0 <= s < i ==> #[trigger] self.all_states[s].is_dfa_state(),
                forall|s: int, j: int| 0 <= s < i && 0 <= j < self.all_states[s].transitions.len()
                    ==> #[trigger] self.all_states[s].transitions@[j].trigger != Trigger::Epsilon,
                forall|s: int| 0 <= s < i ==> !has_overlap(#[trigger] self.all_states[s].range_seq()),
        {
            let state = &self.all_states[i];
            let mut ranges: Vec<(u32, u32)> = Vec::new();
            for j in 0..state.transitions.len()
                invariant
                    i < self.all_states.len(),
                    *state == self.all_states[i as int],
                    ranges@ == ranges_of(state.transitions@.subrange(0, j as int)),
                    forall|m: int| 0 <= m < j ==> #[trigger] state.transitions@[m].trigger != Trigger::Epsilon,
            {
                let t = state.transitions[j];
                assert(t == self.all_states[i as int].transitions@[j as int]);
                assert(state.transitions@.subrange(0, j + 1).drop_last() =~= state.transitions@.subrange(0, j as int));
                match t.trigger {
                    Trigger::Range(l, r) => {
                        ranges.push((l as u32, r as u32));
                    },
                    Trigger::Epsilon => {
                        assert(self.all_states[i as int].transitions@[j as int].trigger == Trigger::Epsilon);
                        assert(!self.all_states[i as int].is_dfa_state());
                        return true;
                    },
                }
            }
            assert(state.transitions@.subrange(0, state.transitions.len() as int) =~= state.transitions@);
            proof {
                lemma_ranges_of(state.transitions@);
            }
            let ghost valid = self.ranges_valid();
            proof {
                if valid {
                    assert forall|k: int| 0 <= k < ranges@.len() implies #[trigger] ranges@[k].0 <= ranges@[k].1 by {
                        assert(ranges@.contains(ranges@[k]));
                        let j = choose|j: int| 0 <= j < state.transitions.len() && transition_range(#[trigger] state.transitions@[j]) == Some(ranges@[k]);
                        assert(self.all_states[i as int].transitions[j] == state.transitions@[j]);
                    }
                }
            }
            let holes = missing_ranges(ranges.as_slice(), 0, 0xffff);
            let ghost ranges_seq = ranges@;
            if has_overlapping_ranges(ranges) {
                assert(has_overlap(self.all_states[i as int].range_seq()));
                assert(!self.all_states[i as int].is_dfa_state());
                return true;
            }
            assert(!has_overlap(self.all_states[i as int].range_seq()));
            if holes.len() != 0 {
                proof {
                    if valid {
                        assert(covers(holes@[0], holes@[0].0 as int));
                        assert(seq_covers(holes@, holes@[0].0 as int));
                        let c = holes@[0].0 as int;
                        if c > 0xffff {
                            let p = choose|p: int| p > c && seq_covers(ranges_seq, p);
                            let m = choose|m: int| 0 <= m < ranges_seq.len() && #[trigger] covers(ranges_seq[m], p);
                        }
                        assert(!seq_covers(ranges_seq, c));
                        assert(!self.all_states[i as int].is_dfa_state());
                    }
                }
                return true;
            }
            proof {
                if valid {
                    assert forall|c: int| 0 <= c <= 0xffff implies seq_covers(state.range_seq(), c) by {
                        if !seq_covers(ranges_seq, c) {
                            assert(is_missing(ranges_seq, 0, 0xffff, c));
                            assert(!seq_covers(holes@, c));
                        }
                    }
                    assert(self.all_states[i as int].is_dfa_state());
                }
            }
        }
        false
    }

    /// A copy of this automaton.
    pub fn duplicate(&self) -> (c: Automaton)
        ensures
            automaton_eq(c, *self),
    {
        let mut states: Vec<State> = Vec::new();
        let mut i: usize = 0;
        while i < self.all_states.len()
            invariant
                i <= self.all_states.len(),
                states@.len() == i,
                forall|k: int| #![trigger states@[k]] 0 <= k < i ==> {
                    &&& states@[k].id@ == self.all_states[k].id@
                    &&& states@[k].accept == self.all_states[k].accept
                    &&& states@[k].transitions@ == self.all_states[k].transitions@
                },
            decreases self.all_states.len() - i,
        {
            let ghost before = states@;
            let st = self.all_states[i].duplicate();
            states.push(st);
            assert forall|k: int| 0 <= k < i + 1 implies #[trigger] states@[k] == (if k < i { before[k] } else { st }) by {}
            i += 1;
        }
        let c = Automaton { name: self.name.clone(), all_states: states, initial_state: self.initial_state };
        assert forall|k: int| #![trigger c.all_states[k]] 0 <= k < c.all_states.len() implies {
            &&& c.all_states[k].id@ == self.all_states[k].id@
            &&& c.all_states[k].accept == self.all_states[k].accept
            &&& c.all_states[k].transitions@ == self.all_states[k].transitions@
        } by {
            assert(c.all_states[k] == states@[k]);
        }
        c
    }

    pub fn get_state(&self, state_id: StateId) -> (s: &State)
        requires
            state_id < self.all_states.len(),
        ensures
            *s == self.all_states[state_id as int],
    {
        &self.all_states[state_id]
    }

    pub fn get_state_transitions(&self, state_id: StateId) -> (ts: Vec<Transition>)
        requires
            state_id < self.all_states.len(),
        ensures
            ts@ == self.all_states[state_id as int].transitions@,
    {
        let state = &self.all_states[state_id];
        state.transitions.clone()
    }

    pub fn get_accepting_states(&self) -> (states: Vec<State>)
        ensures
            states@.len() <= self.all_states@.len(),
            exists|idx: Seq<int>| {
                &&& #[trigger] idx.len() == states@.len()
                &&& forall|k: int| 0 <= k < idx.len() ==> 0 <= #[trigger] idx[k] < self.all_states.len()
                    && self.all_states[idx[k]].accept && states@[k].id@ == self.all_states[idx[k]].id@
                    && states@[k].accept == self.all_states[idx[k]].accept
                    && states@[k].transitions@ == self.all_states[idx[k]].transitions@
                &&& forall|a: int, b: int| 0 <= a < b < idx.len() ==> idx[a] < idx[b]
                &&& forall|s: int| 0 <= s < self.all_states.len() && #[trigger] self.all_states[s].accept ==> idx.contains(s)
            },
    {
        let mut states: Vec<State> = Vec::new();
        let ghost mut idx: Seq<int> = Seq::empty();
        for i in 0..self.all_states.len()
            invariant
                idx.len() == states@.len(),
                states@.len() <= i,
                forall|k: int| 0 <= k < idx.len() ==> 0 <= #[trigger] idx[k] < i
                    && self.all_states[idx[k]].accept && states@[k].id@ == self.all_states[idx[k]].id@
                    && states@[k].accept == self.all_states[idx[k]].accept
                    && states@[k].transitions@ == self.all_states[idx[k]].transitions@,
                forall|a: int, b: int| 0 <= a < b < idx.len() ==> idx[a] < idx[b],
                forall|s: int| 0 <= s < i && #[trigger] self.all_states[s].accept ==> idx.contains(s),
        {
            let state = &self.all_states[i];
            if state.accept {
                states.push(state.duplicate());
                proof {
                    let old_idx = idx;
                    idx = idx.push(i as int);
                    assert(idx[idx.len() - 1] == i);
                    assert forall|s: int| 0 <= s < i + 1 && #[trigger] self.all_states[s].accept implies idx.contains(s) by {
                        if s < i {
                            let m = choose|m: int| 0 <= m < old_idx.len() && old_idx[m] == s;
                            assert(idx[m] == s);
                        }
                    }
                }
            }
        }
        states
    }

    /// Every transition of the automaton as a triple: a copy of its source state, a copy of its
    /// target state and its trigger, state by state and, within a state, in the order of its
    /// transitions.
    pub fn get_all_transitions(&self) -> (transitions: Vec<(State, State, Trigger)>)
        requires
            self.wf(),
        ensures
            transitions@.len() == self.spec_transition_count(self.all_states@.len() as int),
            forall|i: int, j: int| #![trigger self.flat_index(i, j)] 0 <= i < self.all_states.len() && 0 <= j < self.all_states[i].transitions.len() ==> {
                &&& self.flat_index(i, j) < transitions@.len()
                &&& self.is_transition_entry(transitions@[self.flat_index(i, j)], i, j)
            },
            forall|m: int| 0 <= m < transitions@.len() ==> #[trigger] self.entry_listed(transitions@, m),
    {
        let mut transitions: Vec<(State, State, Trigger)> = Vec::new();
        let n = self.all_states.len();
        let mut i: usize = 0;
        while i < n
            invariant
                self.wf(),
                n == self.all_states.len(),
                i <= n,
                transitions@.len() == self.spec_transition_count(i as int),
                forall|i2: int, j2: int| #![trigger self.flat_index(i2, j2)] 0 <= i2 < i && 0 <= j2 < self.all_states[i2].transitions.len() ==> {
                    &&& self.flat_index(i2, j2) < transitions@.len()
                    &&& self.is_transition_entry(transitions@[self.flat_index(i2, j2)], i2, j2)
                },
                forall|m: int| 0 <= m < transitions@.len() ==> #[trigger] self.entry_listed(transitions@, m),
            decreases n - i,
        {
            let state = &self.all_states[i];
            let mut j: usize = 0;
            while j < state.transitions.len()
                invariant
                    self.wf(),
                    i < self.all_states.len(),
                    *state == self.all_states[i as int],
                    j <= state.transitions.len(),
                    transitions@.len() == self.spec_transition_count(i as int) + j,
                    forall|i2: int, j2: int| #![trigger self.flat_index(i2, j2)] 0 <= i2 < i && 0 <= j2 < self.all_states[i2].transitions.len() ==> {
                        &&& self.flat_index(i2, j2) < transitions@.len()
                        &&& self.is_transition_entry(transitions@[self.flat_index(i2, j2)], i2, j2)
                    },
                    forall|j2: int| 0 <= j2 < j ==> self.is_transition_entry(
                        #[trigger] transitions@[self.flat_index(i as int, j2)], i as int, j2),
                    forall|m: int| 0 <= m < transitions@.len() ==> #[trigger] self.entry_listed(transitions@, m),
                decreases state.transitions.len() - j,
            {
                let transition = state.transitions[j];
                assert(transition.to < self.all_states.len());
                let ghost before = transitions@;
                transitions.push((state.duplicate(), self.get_state(transition.to).duplicate(), transition.trigger));
                proof {
                    let m0 = before.len() as int;
                    assert(self.is_transition_entry(transitions@[m0], i as int, j as int));
                    assert forall|k: int| 0 <= k < m0 implies #[trigger] transitions@[k] == before[k] by {}
                    assert forall|m: int| 0 <= m < transitions@.len() implies #[trigger] self.entry_listed(transitions@, m) by {
                        if m < m0 {
                            assert(transitions@[m] == before[m]);
                            assert(self.entry_listed(before, m));
                            let (i2, j2) = choose|i2: int, j2: int| {
                                &&& 0 <= i2 < self.all_states.len()
                                &&& 0 <= j2 < self.all_states[i2].transitions.len()
                                &&& m == self.flat_index(i2, j2)
                                &&& #[trigger] self.is_transition_entry(before[m], i2, j2)
                            };
                            assert(self.is_transition_entry(transitions@[m], i2, j2));
                        } else {
                            assert(self.is_transition_entry(transitions@[m], i as int, j as int));
                        }
                    }
                    assert forall|i2: int, j2: int| #![trigger self.flat_index(i2, j2)] 0 <= i2 < i && 0 <= j2 < self.all_states[i2].transitions.len() implies {
                        &&& self.flat_index(i2, j2) < transitions@.len()
                        &&& self.is_transition_entry(transitions@[self.flat_index(i2, j2)], i2, j2)
                    } by {
                        self.lemma_transition_count_mono(i2 + 1, i as int);
                        self.lemma_transition_count_mono(0, i2);
                        assert(self.spec_transition_count(i2 + 1) == self.spec_transition_count(i2) + self.all_states[i2].transitions.len());
                        assert(self.flat_index(i2, j2) < before.len());
                        assert(transitions@[self.flat_index(i2, j2)] == before[self.flat_index(i2, j2)]);
                    }
                    assert forall|j2: int| 0 <= j2 < j + 1 implies self.is_transition_entry(
                        #[trigger] transitions@[self.flat_index(i as int, j2)], i as int, j2) by {
                        if j2 < j {
                            self.lemma_transition_count_mono(0, i as int);
                            assert(self.flat_index(i as int, j2) < before.len());
                            assert(transitions@[self.flat_index(i as int, j2)] == before[self.flat_index(i as int, j2)]);
                        }
                    }
                }
                j += 1;
            }
            proof {
                assert(self.spec_transition_count(i + 1) == self.spec_transition_count(i as int) + state.transitions.len());
                assert forall|i2: int, j2: int| #![trigger self.flat_index(i2, j2)] 0 <= i2 < i + 1 && 0 <= j2 < self.all_states[i2].transitions.len() implies {
                    &&& self.flat_index(i2, j2) < transitions@.len()
                    &&& self.is_transition_entry(transitions@[self.flat_index(i2, j2)], i2, j2)
                } by {
                    if i2 == i {
                        assert(self.is_transition_entry(transitions@[self.flat_index(i as int, j2)], i as int, j2));
                    }
                }
            }
            i += 1;
        }
        transitions
    }

    /// The `m`-th of `entries` holds the `j`-th transition of the `i`-th state, for some `i` and
    /// `j` that put it at position `m`.
    pub open spec fn entry_listed(&self, entries: Seq<(State, State, Trigger)>, m: int) -> bool {
        exists|i: int, j: int| {
            &&& 0 <= i < self.all_states.len()
            &&& 0 <= j < self.all_states[i].transitions.len()
            &&& m == self.flat_index(i, j)
            &&& #[trigger] self.is_transition_entry(entries[m], i, j)
        }
    }

    /// The position of the `j`-th transition of the `i`-th state when the transitions of all states
    /// are listed state by state.
    pub open spec fn flat_index(&self, i: int, j: int) -> int {
        self.spec_transition_count(i) + j
    }

    /// `e` holds copies of the `i`-th state and of the target of its `j`-th transition, and the
    /// trigger of that transition.
    pub open spec fn is_transition_entry(&self, e: (State, State, Trigger), i: int, j: int) -> bool {
        let s = self.all_states[i];
        let t = s.transitions@[j];
        let target = self.all_states[t.to as int];
        &&& e.0.id@ == s.id@
        &&& e.0.accept == s.accept
        &&& e.0.transitions@ == s.transitions@
        &&& e.1.id@ == target.id@
        &&& e.1.accept == target.accept
        &&& e.1.transitions@ == target.transitions@
        &&& e.2 == t.trigger
    }

    /// The transitions of the first states are no more than those of more states.
    proof fn lemma_transition_count_mono(&self, i: int, k: int)
        requires
            0 <= i <= k,
        ensures
            self.spec_transition_count(i) <= self.spec_transition_count(k),
        decreases k - i,
    {
        if i < k {
            self.lemma_transition_count_mono(i, k - 1);
        }
    }

    /// The number of transitions of the first `n` states.
    pub open spec fn spec_transition_count(&self, n: int) -> int
        decreases n,
    {
        if n <= 0 {
            0
        } else {
            self.spec_transition_count(n - 1) + self.all_states[n - 1].transitions.len()
        }
    }

    pub fn get_initial_state(&self) -> (s: State)
        requires
            self.initial_state < self.all_states.len(),
        ensures
            s.id@ == self.all_states[self.initial_state as int].id@,
            s.accept == self.all_states[self.initial_state as int].accept,
            s.transitions@ == self.all_states[self.initial_state as int].transitions@,
    {
        self.get_state(self.initial_state).duplicate()
    }
}

/// Whether state `s` has an epsilon transition to state `t`.
pub open spec fn eps_edge(a: Automaton, s: usize, t: usize) -> bool {
    &&& s < a.all_states.len()
    &&& a.all_states[s as int].transitions@.contains(Transition { to: t, trigger: Trigger::Epsilon })
}

/// Whether `p` is a path of epsilon transitions.
pub open spec fn is_eps_path(a: Automaton, p: Seq<usize>) -> bool {
    &&& p.len() >= 1
    &&& forall|i: int| 0 <= i < p.len() - 1 ==> #[trigger] eps_edge(a, p[i], p[i + 1])
}

/// Whether state `t` can be reached from state `s` by following epsilon transitions only.
pub open spec fn eps_reaches(a: Automaton, s: usize, t: usize) -> bool {
    exists|p: Seq<usize>| #[trigger] is_eps_path(a, p) && p[0] == s && p.last() == t
}

/// The states that can be reached from a state of `start` by following epsilon transitions.
pub open spec fn eps_closure(a: Automaton, start: Set<usize>) -> Set<usize> {
    Set::new(|t: usize| exists|s: usize| start.contains(s) && #[trigger] eps_reaches(a, s, t))
}

/// Extends an epsilon path by one transition.
pub proof fn lemma_eps_path_extend(a: Automaton, p: Seq<usize>, t: usize)
    requires
        is_eps_path(a, p),
        eps_edge(a, p.last(), t),
    ensures
        is_eps_path(a, p.push(t)),
        p.push(t)[0] == p[0],
        p.push(t).last() == t,
{
    let q = p.push(t);
    assert forall|i: int| 0 <= i < q.len() - 1 implies #[trigger] eps_edge(a, q[i], q[i + 1]) by {
        if i < p.len() - 1 {
            assert(q[i] == p[i] && q[i + 1] == p[i + 1]);
        } else {
            assert(q[i] == p.last());
        }
    }
}

/// A set closed under epsilon transitions contains everything reachable from its members.
pub proof fn lemma_closed_contains_reachable(a: Automaton, c: Set<usize>, p: Seq<usize>)
    requires
        is_eps_path(a, p),
        c.contains(p[0]),
        forall|s: usize, t: usize| c.contains(s) && #[trigger] eps_edge(a, s, t) ==> c.contains(t),
    ensures
        c.contains(p.last()),
    decreases p.len(),
{
    if p.len() > 1 {
        let q = p.drop_last();
        assert forall|i: int| 0 <= i < q.len() - 1 implies #[trigger] eps_edge(a, q[i], q[i + 1]) by {
            assert(eps_edge(a, p[i], p[i + 1]));
        }
        lemma_closed_contains_reachable(a, c, q);
        let i = p.len() - 2;
        assert(eps_edge(a, p[i], p[i + 1]));
        assert(q.last() == p[i]);
    }
}

/// A state of `start` belongs to its own closure.
pub proof fn lemma_closure_contains_start(a: Automaton, start: Set<usize>, s: usize)
    requires
        start.contains(s),
    ensures
        eps_closure(a, start).contains(s),
{
    let p = seq![s];
    assert(is_eps_path(a, p));
    assert(eps_reaches(a, s, s));
}

impl Automaton {
    /// Returns the set of states that can be reached from the states of `start` by following any
    /// number of epsilon transitions.
    pub fn epsilon_closure(start: &BTreeSet<StateId>, a: &Automaton) -> (closure: BTreeSet<StateId>)
        requires
            a.wf(),
            forall|s: usize| start@.contains(s) ==> s < a.all_states.len(),
        ensures
            closure@ == eps_closure(*a, start@),
            forall|t: StateId| closure@.contains(t) ==> t < a.all_states.len(),
    {
        let n = a.all_states.len();
        let mut stack: Vec<StateId> = Vec::new();
        for i in 0..n
            invariant
                n == a.all_states.len(),
                forall|k: int| 0 <= k < stack@.len() ==> start@.contains(#[trigger] stack@[k]) && stack@[k] < i,
                forall|x: int, y: int| 0 <= x < y < stack@.len() ==> stack@[x] < stack@[y],
                forall|x: usize| x < i && start@.contains(x) ==> stack@.contains(x),
        {
            if start.contains(&i) {
                let ghost old_stack = stack@;
                stack.push(i);
                proof {
                    assert(stack@[old_stack.len() as int] == i);
                    assert forall|x: usize| x < i + 1 && start@.contains(x) implies stack@.contains(x) by {
                        if x < i {
                            let k = choose|k: int| 0 <= k < old_stack.len() && old_stack[k] == x;
                            assert(stack@[k] == x);
                        }
                    }
                }
            }
        }
        let mut closure = start.clone();
        let ghost full = Set::<usize>::range(0, n);
        proof {
            <usize as vstd::set_lib::FiniteRange>::range_properties(0, n);
            assert(start@.subset_of(full));
            vstd::set_lib::lemma_len_subset(start@, full);
            assert(stack@.no_duplicates());
            assert forall|t: usize| closure@.contains(t) implies eps_closure(*a, start@).contains(t) by {
                lemma_closure_contains_start(*a, start@, t);
            }
        }
        while stack.len() > 0
            invariant
                a.wf(),
                n == a.all_states.len(),
                full == Set::<usize>::range(0, n),
                full.finite(),
                full.len() == n,
                start@.subset_of(closure@),
                closure@.finite(),
                closure@.len() <= n,
                forall|t: usize| closure@.contains(t) ==> eps_closure(*a, start@).contains(t),
                forall|t: usize| closure@.contains(t) ==> t < n,
                stack@.no_duplicates(),
                forall|k: int| 0 <= k < stack@.len() ==> closure@.contains(#[trigger] stack@[k]),
                forall|s: usize, t: usize| closure@.contains(s) && !stack@.contains(s) && #[trigger] eps_edge(*a, s, t)
                    ==> closure@.contains(t),
            decreases n - closure@.len(), stack@.len(),
        {
            let ghost stack_before = stack@;
            let s = stack.pop().unwrap();
            let ghost cl0 = closure@;
            let ghost st0 = stack@;
            proof {
                assert(closure@.contains(s)) by {
                    assert(stack@.push(s)[stack@.len() as int] == s);
                }
                assert(!stack@.contains(s)) by {
                    if stack@.contains(s) {
                        let k = choose|k: int| 0 <= k < stack@.len() && stack@[k] == s;
                        assert(stack@.push(s)[k] == stack@.push(s)[stack@.len() as int]);
                    }
                }
                assert(forall|k: int| 0 <= k < stack@.len() ==> closure@.contains(#[trigger] stack@[k])) by {
                    assert forall|k: int| 0 <= k < stack@.len() implies closure@.contains(#[trigger] stack@[k]) by {
                        assert(stack@.push(s)[k] == stack@[k]);
                    }
                }
            }
            proof {
                assert(stack_before == stack@.push(s));
                assert forall|s2: usize, t: usize| closure@.contains(s2) && !stack@.contains(s2) && s2 != s && #[trigger] eps_edge(*a, s2, t)
                    implies closure@.contains(t) by {
                    if stack_before.contains(s2) {
                        let k = choose|k: int| 0 <= k < stack_before.len() && stack_before[k] == s2;
                        if k < stack@.len() {
                            assert(stack@[k] == s2);
                        }
                    }
                }
            }
            let ts = &a.all_states[s].transitions;
            for j in 0..ts.len()
                invariant
                    a.wf(),
                    s < n,
                    n == a.all_states.len(),
                    *ts == a.all_states[s as int].transitions,
                    full == Set::<usize>::range(0, n),
                    full.finite(),
                    full.len() == n,
                    start@.subset_of(closure@),
                    cl0.subset_of(closure@),
                    closure@.finite(),
                    closure@.len() == cl0.len() ==> stack@ == st0,
                    closure@.len() <= n,
                    closure@.contains(s),
                    eps_closure(*a, start@).contains(s),
                    !stack@.contains(s),
                    forall|t: usize| closure@.contains(t) ==> eps_closure(*a, start@).contains(t),
                    forall|t: usize| closure@.contains(t) ==> t < n,
                    stack@.no_duplicates(),
                    forall|k: int| 0 <= k < stack@.len() ==> closure@.contains(#[trigger] stack@[k]),
                    forall|s2: usize, t: usize| closure@.contains(s2) && !stack@.contains(s2) && s2 != s && #[trigger] eps_edge(*a, s2, t)
                        ==> closure@.contains(t),
                    forall|m: int| 0 <= m < j && #[trigger] ts@[m].trigger == Trigger::Epsilon ==> closure@.contains(ts@[m].to),
            {
                let t = ts[j];
                if t.trigger == Trigger::Epsilon && !closure.contains(&t.to) {
                    proof {
                        assert(eps_edge(*a, s, t.to)) by {
                            assert(ts@[j as int] == Transition { to: t.to, trigger: Trigger::Epsilon });
                        }
                        let r = choose|r: usize| start@.contains(r) && #[trigger] eps_reaches(*a, r, s);
                        let p = choose|p: Seq<usize>| #[trigger] is_eps_path(*a, p) && p[0] == r && p.last() == s;
                        lemma_eps_path_extend(*a, p, t.to);
                        assert(eps_reaches(*a, r, t.to));
                    }
                    let ghost old_stack = stack@;
                    let ghost old_closure = closure@;
                    closure.insert(t.to);
                    stack.push(t.to);
                    proof {
                        assert(t.to < n);
                        assert(closure@.subset_of(full));
                        vstd::set_lib::lemma_len_subset(closure@, full);
                        assert(closure@ == old_closure.insert(t.to));
                        assert(closure@.len() == old_closure.len() + 1);
                        vstd::set_lib::lemma_len_subset(cl0, old_closure);
                        assert forall|k: int| 0 <= k < stack@.len() implies closure@.contains(#[trigger] stack@[k]) by {
                            if k < old_stack.len() {
                                assert(stack@[k] == old_stack[k]);
                            }
                        }
                        assert(stack@.no_duplicates()) by {
                            assert forall|x: int, y: int| 0 <= x < y < stack@.len() implies stack@[x] != stack@[y] by {
                                if y == old_stack.len() {
                                    assert(old_closure.contains(old_stack[x]));
                                } else {
                                    assert(stack@[x] == old_stack[x] && stack@[y] == old_stack[y]);
                                }
                            }
                        }
                        assert(!stack@.contains(s)) by {
                            if stack@.contains(s) {
                                let k = choose|k: int| 0 <= k < stack@.len() && stack@[k] == s;
                                if k < old_stack.len() {
                                    assert(old_stack[k] == s);
                                }
                            }
                        }
                        assert forall|s2: usize, u: usize| closure@.contains(s2) && !stack@.contains(s2) && s2 != s && #[trigger] eps_edge(*a, s2, u)
                            implies closure@.contains(u) by {
                            if s2 != t.to {
                                assert(old_closure.contains(s2));
                                if old_stack.contains(s2) {
                                    let k = choose|k: int| 0 <= k < old_stack.len() && old_stack[k] == s2;
                                    assert(stack@[k] == s2);
                                }
                            } else {
                                assert(stack@[old_stack.len() as int] == s2);
                            }
                        }
                    }
                }
            }
            proof {
                assert forall|s2: usize, u: usize| closure@.contains(s2) && !stack@.contains(s2) && #[trigger] eps_edge(*a, s2, u)
                    implies closure@.contains(u) by {
                    if s2 == s {
                        let m = choose|m: int| 0 <= m < ts@.len() && ts@[m] == Transition { to: u, trigger: Trigger::Epsilon };
                        assert(ts@[m].trigger == Trigger::Epsilon);
                    }
                }
                vstd::set_lib::lemma_len_subset(cl0, closure@);
                if closure@.len() == cl0.len() {
                    assert(stack@.len() < st0.len() + 1);
                }
            }
        }
        proof {
            assert forall|t: usize| eps_closure(*a, start@).contains(t) implies closure@.contains(t) by {
                let s = choose|s: usize| start@.contains(s) && #[trigger] eps_reaches(*a, s, t);
                let p = choose|p: Seq<usize>| #[trigger] is_eps_path(*a, p) && p[0] == s && p.last() == t;
                lemma_closed_contains_reachable(*a, closure@, p);
            }
            assert(closure@ =~= eps_closure(*a, start@));
        }
        closure
    }
}


/// Runs an automaton without epsilon transitions or overlapping ranges on the symbols of `s`,
/// following at each symbol the transition that consumes it; rejects when there is none.
fn run_deterministic(a: &Automaton, s: &str) -> (res: bool)
    requires
        a.wf(),
        deterministic(*a),
    ensures
        res == accepts_word(*a, word(s@)),
{
    let ghost w = word(s@);
    let mut current: StateId = a.initial_state;
    proof {
        lemma_closure_without_eps(*a, set![a.initial_state]);
        assert(w.take(0) =~= Seq::<int>::empty());
    }
    for c in it: s.chars()
        invariant
            a.wf(),
            deterministic(*a),
            w == word(s@),
            it.seq() == s@,
            current < a.all_states.len(),
            run(*a, w.take(it.index())) == set![current],
    {
        let symbol = c as u16;
        let ghost i = it.index();
        assert(w[i] == symbol as int);
        let ts = &a.all_states[current].transitions;
        let mut next: Option<StateId> = None;
        let mut j: usize = 0;
        while j < ts.len()
            invariant
                *ts == a.all_states[current as int].transitions,
                j <= ts.len(),
                next is None ==> forall|m: int| 0 <= m < j ==> !(#[trigger] ts@[m].trigger.spec_covers(symbol as int)),
                next matches Some(t) ==> exists|m: int| 0 <= m < ts.len() && #[trigger] ts@[m].trigger.spec_covers(symbol as int)
                    && ts@[m].to == t,
            ensures
                next is None ==> forall|m: int| 0 <= m < ts.len() ==> !(#[trigger] ts@[m].trigger.spec_covers(symbol as int)),
                next matches Some(t) ==> exists|m: int| 0 <= m < ts.len() && #[trigger] ts@[m].trigger.spec_covers(symbol as int)
                    && ts@[m].to == t,
            decreases ts.len() - j,
        {
            if let Trigger::Range(l, r) = ts[j].trigger {
                if symbol >= l && symbol <= r {
                    assert(ts@[j as int].trigger.spec_covers(symbol as int));
                    next = Some(ts[j].to);
                    break;
                }
            }
            j += 1;
        }
        proof {
            assert(w.take(i + 1).drop_last() =~= w.take(i));
            assert(w.take(i + 1).last() == symbol as int);
        }
        match next {
            Some(t) => {
                proof {
                    let m = choose|m: int| 0 <= m < ts.len() && #[trigger] ts@[m].trigger.spec_covers(symbol as int) && ts@[m].to == t;
                    lemma_det_step(*a, current, m, symbol as int);
                    lemma_closure_without_eps(*a, set![t]);
                }
                current = t;
            },
            None => {
                proof {
                    lemma_step_none(*a, current, symbol as int);
                    assert(eps_closure(*a, Set::<usize>::empty()) =~= Set::<usize>::empty());
                    lemma_run_empty_stays(*a, w, i + 1);
                    if accepts_word(*a, w) {
                        let q = choose|q: usize| #[trigger] run(*a, w).contains(q) && q < a.all_states.len() && a.all_states[q as int].accept;
                    }
                }
                return false;
            },
        }
    }
    proof {
        assert(w.take(w.len() as int) =~= w);
        if accepts_word(*a, w) {
            let q = choose|q: usize| #[trigger] run(*a, w).contains(q) && q < a.all_states.len() && a.all_states[q as int].accept;
        }
        if a.all_states[current as int].accept {
            assert(run(*a, w).contains(current));
        }
    }
    a.all_states[current].accept
}

impl Automaton {
    /// The same automaton with the accepting and non-accepting states swapped.
    ///
    /// On a deterministic and complete automaton this accepts exactly the words of 16-bit symbols
    /// that `self` rejects (see `lemma_complement_of_dfa`).
    pub fn complement(&self) -> (c: Automaton)
        ensures
            c.name@ == self.name@ + "_complement"@,
            c.initial_state == self.initial_state,
            c.all_states.len() == self.all_states.len(),
            forall|i: int| #![trigger c.all_states[i]] 0 <= i < self.all_states.len() ==> {
                &&& c.all_states[i].id@ == self.all_states[i].id@
                &&& c.all_states[i].accept == !self.all_states[i].accept
                &&& c.all_states[i].transitions@ == self.all_states[i].transitions@
            },
    {
        let mut new_states: Vec<State> = Vec::new();
        for i in 0..self.all_states.len()
            invariant
                new_states@.len() == i,
                forall|k: int| #![trigger new_states@[k]] 0 <= k < i ==> {
                    &&& new_states@[k].id@ == self.all_states[k].id@
                    &&& new_states@[k].accept == !self.all_states[k].accept
                    &&& new_states@[k].transitions@ == self.all_states[k].transitions@
                },
        {
            let mut state = self.all_states[i].duplicate();
            state.accept = !state.accept;
            let ghost old_states = new_states@;
            new_states.push(state);
            proof {
                assert forall|k: int| 0 <= k < i + 1 implies #[trigger] new_states@[k] == (if k < i { old_states[k] } else { state }) by {}
            }
        }
        proof {
            reveal_strlit("_complement");
        }
        Automaton {
            name: suffixed(self.name.as_str(), "_complement"),
            all_states: new_states,
            initial_state: self.initial_state,
        }
    }

    /// Whether the automaton accepts the string `s`, read as a word of 16-bit symbols (each
    /// character keeps its low 16 bits). A nondeterministic or incomplete automaton is first
    /// made deterministic.
    pub fn accepts(&self, s: &str) -> (res: bool)
        requires
            self.wf(),
        ensures
            res == accepts_word(*self, word(s@)),
    {
        if self.is_nfa() {
            let dfa = Automaton::determinize(self);
            proof {
                assert(symbols(word(s@)));
                assert(no_eps(dfa)) by {
                    assert forall|q: int, j: int| 0 <= q < dfa.all_states.len() && 0 <= j < dfa.all_states[q].transitions.len()
                        implies #[trigger] dfa.all_states[q].transitions@[j].trigger != Trigger::Epsilon by {
                        assert(dfa.all_states[q].is_dfa_state());
                    }
                }
                assert forall|q: int| 0 <= q < dfa.all_states.len() implies !has_overlap(#[trigger] dfa.all_states[q].range_seq()) by {
                    assert(dfa.all_states[q].is_dfa_state());
                }
            }
            run_deterministic(&dfa, s)
        } else {
            run_deterministic(self, s)
        }
    }
}

} // verus!
