use std::collections::BTreeSet;

use carcara::automata::{Automaton, State, StateId, Transition, Trigger};

fn make_state(id: StateId, transitions: &[(StateId, Trigger)], accept: bool) -> State {
    State {
        id: id.to_string(),
        accept,
        transitions: transitions.iter().cloned().map(|(to, trigger)| Transition { to, trigger }).collect(),
    }
}

fn make_aut(states: Vec<State>) -> Automaton {
    Automaton { name: "test".to_owned(), all_states: states, initial_state: 0 }
}

fn set(v: &[usize]) -> BTreeSet<usize> {
    v.iter().copied().collect()
}

#[test]
fn test_epsilon_closure_single_state_no_epsilon() {
    let s0 = make_state(0, &[], false);
    let aut = make_aut(vec![s0]);
    let start = set(&[0]);
    let res = Automaton::epsilon_closure(&start, &aut);
    assert_eq!(res, set(&[0]));
}

#[test]
fn test_epsilon_closure_simple_epsilon() {
    let s0 = make_state(0, &[(1, Trigger::Epsilon)], false);
    let s1 = make_state(1, &[], false);
    let aut = make_aut(vec![s0, s1]);
    let start = set(&[0]);
    let res = Automaton::epsilon_closure(&start, &aut);
    assert_eq!(res, set(&[0, 1]));
}

#[test]
fn test_epsilon_closure_chain() {
    let s0 = make_state(0, &[(1, Trigger::Epsilon)], false);
    let s1 = make_state(1, &[(2, Trigger::Epsilon)], false);
    let s2 = make_state(2, &[], false);
    let aut = make_aut(vec![s0, s1, s2]);
    let start = set(&[0]);
    let res = Automaton::epsilon_closure(&start, &aut);
    assert_eq!(res, set(&[0, 1, 2]));
}

#[test]
fn test_epsilon_closure_cycle() {
    let s0 = make_state(0, &[(1, Trigger::Epsilon)], false);
    let s1 = make_state(1, &[(0, Trigger::Epsilon)], false);
    let aut = make_aut(vec![s0, s1]);
    let start = set(&[0]);
    let res = Automaton::epsilon_closure(&start, &aut);
    assert_eq!(res, set(&[0, 1]));
}

#[test]
fn test_epsilon_closure_branching() {
    let s0 = make_state(0, &[(1, Trigger::Epsilon), (2, Trigger::Epsilon)], false);
    let s1 = make_state(1, &[], false);
    let s2 = make_state(2, &[], false);
    let aut = make_aut(vec![s0, s1, s2]);
    let start = set(&[0]);
    let res = Automaton::epsilon_closure(&start, &aut);
    assert_eq!(res, set(&[0, 1, 2]));
}

#[test]
fn epsilon_closure_multiple_start_states() {
    let s0 = make_state(0, &[(2, Trigger::Epsilon)], false);
    let s1 = make_state(1, &[(3, Trigger::Epsilon)], false);
    let s2 = make_state(2, &[], false);
    let s3 = make_state(3, &[], false);
    let aut = make_aut(vec![s0, s1, s2, s3]);
    let start = set(&[0, 1]);
    let res = Automaton::epsilon_closure(&start, &aut);
    assert_eq!(res, set(&[0, 1, 2, 3]));
}

#[test]
fn test_epsilon_closure_ignores_non_epsilon() {
    let s0 = make_state(0, &[(1, Trigger::Epsilon), (2, Trigger::Range(0, 10))], false);
    let s1 = make_state(1, &[], false);
    let s2 = make_state(2, &[], false);
    let aut = make_aut(vec![s0, s1, s2]);
    let start = set(&[0]);
    let res = Automaton::epsilon_closure(&start, &aut);
    assert_eq!(res, set(&[0, 1]));
}

#[test]
fn test_epsilon_closure_complex_graph() {
    // 0 ->ε 1 ->ε 3
    // 0 ->ε 2 ->ε 3
    // 3 ->ε 4
    let s0 = make_state(0, &[(1, Trigger::Epsilon), (2, Trigger::Epsilon)], false);
    let s1 = make_state(1, &[(3, Trigger::Epsilon)], false);
    let s2 = make_state(2, &[(3, Trigger::Epsilon)], false);
    let s3 = make_state(3, &[(4, Trigger::Epsilon)], false);
    let s4 = make_state(4, &[], false);
    let aut = make_aut(vec![s0, s1, s2, s3, s4]);
    let start = set(&[0]);
    let res = Automaton::epsilon_closure(&start, &aut);
    assert_eq!(res, set(&[0, 1, 2, 3, 4]));
}

#[test]
fn test_is_nfa_by_epsilon_transition() {
    let s0 = make_state(0, &[(1, Trigger::Range(0, 255)), (2, Trigger::Epsilon)], false);
    let s1 = make_state(1, &[(3, Trigger::Range(0, 255))], false);
    let s2 = make_state(2, &[(3, Trigger::Range(0, 255))], false);
    let s3 = make_state(3, &[(3, Trigger::Range(0, 255))], false);
    let a = Automaton { name: "a".into(), all_states: vec![s0, s1, s2, s3], initial_state: 0 };
    assert!(a.is_nfa());
}

#[test]
fn test_is_nfa_by_incomplete_transition_table() {
    let a = Automaton::new(
        "a",
        "q0",
        vec![
            ("q0", "q1", (98, 98)),
            ("q0", "q3", (0, 97)),
            ("q0", "q3", (100, 255)),
            ("q1", "q3", (0, 255)),
            ("q3", "q3", (0, 255)),
        ],
        vec!["q1"],
    );
    assert!(a.is_nfa());
}

#[test]
fn test_is_nfa_by_overlapping_transitions() {
    let a = Automaton::new(
        "a",
        "q0",
        vec![
            ("q0", "q1", (98, 98)),
            ("q0", "q2", (99, 99)),
            ("q0", "q3", (0, 97)),
            ("q0", "q3", (99, 255)),
            ("q1", "q3", (0, 255)),
            ("q2", "q3", (0, 255)),
            ("q3", "q3", (0, 255)),
        ],
        vec!["q1"],
    );
    assert!(a.is_nfa());
}

#[test]
fn test_is_dfa() {
    let a = Automaton::new(
        "a",
        "q0",
        vec![
            ("q0", "q1", (98, 98)),
            ("q0", "q3", (0, 97)),
            ("q0", "q3", (99, u16::MAX)),
            ("q1", "q3", (0, u16::MAX)),
            ("q3", "q3", (0, u16::MAX)),
        ],
        vec!["q1"],
    );
    assert!(!a.is_nfa());
}

#[test]
fn test_determinize_simple_conversion() {
    let s0 = make_state(0, &[(1, Trigger::Range(97, 97))], false);
    let s1 = make_state(1, &[(2, Trigger::Range(98, 98))], false);
    let s2 = make_state(2, &[(3, Trigger::Range(99, 99))], false);
    let s3 = make_state(3, &[], true);
    let nfa = Automaton { name: "nfa".into(), all_states: vec![s0, s1, s2, s3], initial_state: 0 };
    let dfa = Automaton::determinize(&nfa);
    assert!(!dfa.is_nfa());
}

#[test]
fn test_determinize_remove_epsilon_transitions() {
    let s0 = make_state(0, &[(1, Trigger::Epsilon)], false);
    let s1 = make_state(1, &[(2, Trigger::Range(97, 98))], false);
    let s2 = make_state(2, &[(3, Trigger::Range(97, 98)), (1, Trigger::Range(98, 99))], false);
    let s3 = make_state(3, &[], false);
    let nfa = Automaton { name: "nfa".into(), all_states: vec![s0, s1, s2, s3], initial_state: 0 };
    let dfa = Automaton::determinize(&nfa);
    assert!(!dfa.is_nfa());
}

#[test]
fn test_determinize_add_sink_state_for_missing_ranges() {
    let s0 = make_state(0, &[(1, Trigger::Range(97, 97))], false);
    let s1 = make_state(1, &[(2, Trigger::Range(98, 98))], false);
    let s2 = make_state(2, &[(3, Trigger::Range(99, 99))], false);
    let s3 = make_state(3, &[], false);
    let nfa = Automaton { name: "nfa".into(), all_states: vec![s0, s1, s2, s3], initial_state: 0 };
    let dfa = Automaton::determinize(&nfa);
    assert!(!dfa.is_nfa());
}

#[test]
fn test_determinize_handle_overlapping_ranges() {
    let s0 = make_state(
        0,
        &[
            (3, Trigger::Range(0, 96)),
            (1, Trigger::Range(97, 98)),
            (2, Trigger::Range(98, 99)),
            (3, Trigger::Range(100, 255)),
        ],
        false,
    );
    let s1 = make_state(1, &[(3, Trigger::Range(0, 255))], false);
    let s2 = make_state(2, &[(3, Trigger::Range(0, 255))], false);
    let s3 = make_state(3, &[(3, Trigger::Range(0, 255))], false);
    let nfa = Automaton { name: "nfa".into(), all_states: vec![s0, s1, s2, s3], initial_state: 0 };
    let dfa = Automaton::determinize(&nfa);
    assert!(!dfa.is_nfa());
}

#[test]
fn test_accepts() {
    let s0 = make_state(0, &[(1, Trigger::Range(97, 97))], false);
    let s1 = make_state(1, &[(2, Trigger::Range(98, 98))], false);
    let s2 = make_state(2, &[(3, Trigger::Range(99, 99))], false);
    let s3 = make_state(3, &[], true);
    let aut = Automaton { name: "test_accepts".into(), all_states: vec![s0, s1, s2, s3], initial_state: 0 };
    assert!(aut.accepts("abc"));
    assert!(!aut.accepts("ab"));
    assert!(!aut.accepts("abcd"));
    assert!(!aut.accepts(""));
}

#[test]
fn new_names_states_in_order_of_appearance() {
    let a = Automaton::new("a", "q0", vec![("q1", "q2", (1, 2)), ("q0", "q1", (3, 4))], vec!["q2", "q9"]);
    let ids: Vec<&str> = a.all_states.iter().map(|s| s.id.as_str()).collect();
    assert_eq!(ids, vec!["q0", "q1", "q2"]);
    assert_eq!(a.initial_state, 0);
    assert_eq!(a.all_states[1].transitions, vec![Transition { to: 2, trigger: Trigger::Range(1, 2) }]);
    assert_eq!(a.all_states[0].transitions, vec![Transition { to: 1, trigger: Trigger::Range(3, 4) }]);
    assert!(a.all_states[2].accept && !a.all_states[0].accept);
}

#[test]
fn determinize_keeps_the_language() {
    // (a|b)* c over an automaton with epsilon transitions and overlapping ranges.
    let s0 = make_state(0, &[(1, Trigger::Epsilon), (0, Trigger::Range(97, 98)), (2, Trigger::Range(99, 99))], false);
    let s1 = make_state(1, &[(0, Trigger::Range(98, 98))], false);
    let s2 = make_state(2, &[], true);
    let nfa = make_aut(vec![s0, s1, s2]);
    let dfa = Automaton::determinize(&nfa);
    assert!(!dfa.is_nfa());
    assert_eq!(dfa.name, "test_dfa");
    for w in ["c", "abc", "bbbac", "", "ab", "cc", "ca"] {
        let expected = w.ends_with('c') && w[..w.len() - 1].chars().all(|c| c == 'a' || c == 'b');
        assert_eq!(dfa.accepts(w), expected, "{}", w);
    }
}

#[test]
fn complement_of_a_dfa_accepts_the_rejected_words() {
    let s0 = make_state(0, &[(1, Trigger::Range(97, 97))], false);
    let s1 = make_state(1, &[], true);
    let dfa = Automaton::determinize(&make_aut(vec![s0, s1]));
    let c = dfa.complement();
    assert_eq!(c.name, "test_dfa_complement");
    for w in ["a", "", "aa", "b"] {
        assert_eq!(c.accepts(w), !dfa.accepts(w));
    }
}
