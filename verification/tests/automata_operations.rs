use carcara::automata::operations::{complement, has_reachable_accepting_state, intersection, is_equivalent, is_subautomaton};
use carcara::automata::parser::parse_automata;
use carcara::automata::{Automaton, State, StateId, Transition, Trigger};

fn make_state(id: StateId, transitions: &[(StateId, Trigger)], accept: bool) -> State {
    State {
        id: id.to_string(),
        accept,
        transitions: transitions.iter().cloned().map(|(to, trigger)| Transition { to, trigger }).collect(),
    }
}

fn make_aut(states: Vec<State>) -> Automaton {
    Automaton { name: "test".to_owned(), all_states: states, initial_state: 0 }
}

/// a* : one accepting state looping on 'a'.
fn a_star_one_state() -> Automaton {
    make_aut(vec![make_state(0, &[(0, Trigger::Range(97, 97))], true)])
}

/// a* again, with two accepting states that alternate.
fn a_star_two_states() -> Automaton {
    make_aut(vec![
        make_state(0, &[(1, Trigger::Range(97, 97))], true),
        make_state(1, &[(0, Trigger::Range(97, 97))], true),
    ])
}

#[test]
fn equivalent_automata_of_different_sizes() {
    assert!(is_equivalent(a_star_one_state(), a_star_two_states()));
    assert!(is_equivalent(a_star_two_states(), a_star_one_state()));
    assert!(is_equivalent(a_star_one_state(), a_star_one_state()));
}

#[test]
fn acceptance_mismatch_is_not_equivalent() {
    // (aa)* accepts only even runs of 'a'
    let even = make_aut(vec![
        make_state(0, &[(1, Trigger::Range(97, 97))], true),
        make_state(1, &[(0, Trigger::Range(97, 97))], false),
    ]);
    assert!(!is_equivalent(a_star_one_state(), even));
}

#[test]
fn label_mismatch_is_not_equivalent() {
    let b_star = make_aut(vec![make_state(0, &[(0, Trigger::Range(98, 98))], true)]);
    assert!(!is_equivalent(a_star_one_state(), b_star));
    // one more label on one side
    let ab_star = make_aut(vec![make_state(0, &[(0, Trigger::Range(97, 97)), (0, Trigger::Range(98, 98))], true)]);
    assert!(!is_equivalent(a_star_one_state(), ab_star));
}

#[test]
fn same_language_split_differently_is_not_equivalent() {
    // [a-b]* and (a|b)* accept the same words, but their labels differ
    let range = make_aut(vec![make_state(0, &[(0, Trigger::Range(97, 98))], true)]);
    let split = make_aut(vec![make_state(0, &[(0, Trigger::Range(97, 97)), (0, Trigger::Range(98, 98))], true)]);
    assert!(!is_equivalent(range, split));
}

#[test]
fn reachable_accepting_state() {
    assert!(has_reachable_accepting_state(a_star_one_state()));
    let unreachable = make_aut(vec![
        make_state(0, &[(0, Trigger::Range(97, 97))], false),
        make_state(1, &[(0, Trigger::Range(97, 97))], true),
    ]);
    assert!(!has_reachable_accepting_state(unreachable));
    let through_epsilon = make_aut(vec![make_state(0, &[(1, Trigger::Epsilon)], false), make_state(1, &[], true)]);
    assert!(has_reachable_accepting_state(through_epsilon));
}

#[test]
fn intersection_accepts_the_common_words() {
    // words over [a-c] ending in 'a', and words of exactly two symbols in [a-b]
    let ends_a = make_aut(vec![
        make_state(0, &[(0, Trigger::Range(97, 99)), (1, Trigger::Range(97, 97))], false),
        make_state(1, &[], true),
    ]);
    let two = make_aut(vec![
        make_state(0, &[(1, Trigger::Range(97, 98))], false),
        make_state(1, &[(2, Trigger::Range(97, 98))], false),
        make_state(2, &[], true),
    ]);
    let both = intersection(ends_a, two).unwrap();
    assert_eq!(both.name, "(test ∩ test)");
    assert_eq!(both.initial_state, 0);
    for (w, expected) in [("ba", true), ("aa", true), ("ab", false), ("a", false), ("aaa", false), ("ca", false)] {
        assert_eq!(both.accepts(w), expected, "{}", w);
    }
}

#[test]
fn intersection_refuses_epsilon_transitions() {
    let eps = make_aut(vec![make_state(0, &[(1, Trigger::Epsilon)], false), make_state(1, &[], true)]);
    assert!(intersection(eps, a_star_one_state()).is_err());
}

#[test]
fn complement_adds_a_sink_and_flips_acceptance() {
    let c = complement(a_star_one_state());
    assert_eq!(c.name, "test_complement");
    assert_eq!(c.all_states.len(), 2);
    assert_eq!(c.all_states[1].id, "sink");
    assert!(!c.all_states[0].accept && c.all_states[1].accept);
    for (w, expected) in [("", false), ("aaa", false), ("b", true), ("ab", true)] {
        assert_eq!(c.accepts(w), expected, "{}", w);
    }
}

#[test]
fn subautomaton_compares_states_by_name() {
    // q: state "0" loops on [Z-d] and accepts, state "1" is extra
    let q = make_aut(vec![
        make_state(0, &[(0, Trigger::Range(90, 100)), (1, Trigger::Range(0, 1))], true),
        make_state(1, &[], false),
    ]);
    assert!(is_subautomaton(a_star_one_state(), q.clone()));
    assert!(!is_subautomaton(q.clone(), a_star_one_state()));
    // a transition whose trigger is not contained
    let wide = make_aut(vec![make_state(0, &[(0, Trigger::Range(80, 97))], true)]);
    assert!(!is_subautomaton(wide, q.clone()));
    // the same transitions between differently named states
    assert!(!is_subautomaton(a_star_one_state(), a_star_two_states()));
    // an accepting state that is not accepting in q
    let rejecting = make_aut(vec![make_state(0, &[(0, Trigger::Range(90, 100))], false)]);
    assert!(!is_subautomaton(a_star_one_state(), rejecting.clone()));
    assert!(is_subautomaton(rejecting, a_star_one_state()) == false);
}

#[test]
fn parse_an_automaton_description() {
    let text = "automaton ab {\n  init q0;\n  q0 -> q1 [97, 98];\n  q1->q1[ 99 , 100];\n  accepting q1;\n};rest";
    let (rest, a) = parse_automata(text).unwrap();
    assert_eq!(rest, "rest");
    assert_eq!(a.name, "ab");
    let ids: Vec<&str> = a.all_states.iter().map(|s| s.id.as_str()).collect();
    assert_eq!(ids, vec!["q0", "q1"]);
    assert!(!a.all_states[0].accept && a.all_states[1].accept);
    assert_eq!(a.all_states[0].transitions, vec![Transition { to: 1, trigger: Trigger::Range(97, 98) }]);
    for (w, expected) in [("a", true), ("bcd", true), ("", false), ("c", false)] {
        assert_eq!(a.accepts(w), expected, "{}", w);
    }
}

#[test]
fn parse_refuses_malformed_descriptions() {
    // no whitespace after the keyword
    assert!(parse_automata("automatonab { init q0; };").is_none());
    // the initial state must come first
    assert!(parse_automata("automaton ab { q0 -> q1 [1, 2]; init q0; };").is_none());
    // a missing semicolon after the closing brace
    assert!(parse_automata("automaton ab { init q0; }").is_none());
    // a bound that is not a 16-bit symbol
    assert!(parse_automata("automaton ab { init q0; q0 -> q0 [1, 70000]; };").is_none());
    // no whitespace before the closing bracket of a range
    assert!(parse_automata("automaton ab { init q0; q0 -> q0 [1, 2 ]; };").is_none());
    // identifiers start with a letter
    assert!(parse_automata("automaton 1ab { init q0; };").is_none());
    let (rest, a) = parse_automata("automaton x_1 {init q0;};").unwrap();
    assert_eq!(rest, "");
    assert_eq!(a.all_states.len(), 1);
}

#[test]
fn intersection_fails_only_on_a_reachable_epsilon_clash() {
    // the other automaton has no transition from its initial state: no clash is reached
    let eps = make_aut(vec![make_state(0, &[(1, Trigger::Epsilon)], false), make_state(1, &[], true)]);
    let empty = make_aut(vec![make_state(0, &[], true)]);
    assert!(intersection(eps.clone(), empty).is_ok());
    // the epsilon transition is only met past a pair of symbol transitions
    let late = make_aut(vec![
        make_state(0, &[(1, Trigger::Range(97, 97))], false),
        make_state(1, &[(0, Trigger::Epsilon)], true),
    ]);
    assert!(intersection(late.clone(), a_star_one_state()).is_err());
    let b_only = make_aut(vec![make_state(0, &[(0, Trigger::Range(98, 98))], true)]);
    assert!(intersection(late, b_only).is_ok());
}
