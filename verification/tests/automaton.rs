use rsgex::matcher::MatcherKind;
use rsgex::nfa::create_state;
use rsgex::nfa::NFAutomata;

fn targets(nfa: &NFAutomata, state: usize) -> Vec<(MatcherKind, usize)> {
    nfa.states[state].matchers.iter().copied().collect()
}

fn chain(text: &str) -> NFAutomata {
    let mut nfa = NFAutomata::new();
    let n = text.chars().count();
    nfa.declare_state(n + 1, 0, n);
    for (i, c) in text.chars().enumerate() {
        nfa.add_char_transition(i, i + 1, c);
    }
    nfa
}

#[test]
fn a_new_automaton_has_no_state() {
    let nfa = NFAutomata::new();
    assert_eq!(nfa.states.len(), 0);
    assert_eq!(nfa.initial, 0);
    assert!(nfa.ending.is_empty());
}

#[test]
fn a_created_state_is_blank() {
    let s = create_state();
    assert!(s.matchers.is_empty());
    assert!(!s.is_initial);
    assert!(!s.is_ending);
    assert!(s.start_group.is_empty());
    assert!(s.end_group.is_empty());
}

#[test]
fn add_state_returns_the_index_of_the_new_state() {
    let mut nfa = NFAutomata::new();
    assert_eq!(nfa.add_state(), 0);
    assert_eq!(nfa.add_state(), 1);
    nfa.fill_state(3);
    assert_eq!(nfa.states.len(), 5);
    assert_eq!(nfa.add_state(), 5);
}

#[test]
fn set_initial_is_idempotent_and_marks_one_state() {
    let mut nfa = NFAutomata::new();
    nfa.fill_state(3);
    nfa.set_initial(1);
    nfa.set_initial(1);
    assert_eq!(nfa.initial, 1);
    assert!(nfa.states[1].is_initial);
    nfa.set_initial(2);
    assert_eq!(nfa.initial, 2);
    assert!(!nfa.states[1].is_initial);
    assert!(nfa.states[2].is_initial);
    nfa.set_initial(7);
    assert_eq!(nfa.initial, 2);
    assert_eq!(nfa.states.iter().filter(|s| s.is_initial).count(), 1);
}

#[test]
fn ending_list_and_ending_flags_agree() {
    let mut nfa = NFAutomata::new();
    nfa.fill_state(4);
    nfa.add_ending(2);
    nfa.add_ending(3);
    nfa.add_ending(2);
    nfa.add_ending(9);
    assert_eq!(nfa.ending, vec![2, 3]);
    assert!(nfa.states[2].is_ending && nfa.states[3].is_ending);
    nfa.remove_ending(2);
    nfa.remove_ending(0);
    nfa.remove_ending(9);
    assert_eq!(nfa.ending, vec![3]);
    assert!(!nfa.states[2].is_ending);
    assert!(nfa.states[3].is_ending);
    for (k, s) in nfa.states.iter().enumerate() {
        assert_eq!(s.is_ending, nfa.ending.contains(&k));
    }
}

#[test]
fn declare_state_fills_then_sets_initial_and_ending() {
    let mut nfa = NFAutomata::new();
    nfa.declare_state(3, 0, 2);
    assert_eq!(nfa.states.len(), 3);
    assert_eq!(nfa.initial, 0);
    assert_eq!(nfa.ending, vec![2]);
    assert!(nfa.states[0].is_initial);
    assert!(nfa.states[2].is_ending);
}

#[test]
fn add_transition_appends_and_unshift_transition_prepends() {
    let mut nfa = NFAutomata::new();
    nfa.fill_state(3);
    nfa.add_transition(0, 1, MatcherKind::Char('a'));
    nfa.add_char_transition(0, 2, 'b');
    nfa.unshift_transition(0, 2, MatcherKind::Range('x', 'z'));
    nfa.add_epsilon_transition(0, 0);
    nfa.add_transition(5, 1, MatcherKind::Epsilon);
    assert_eq!(
        targets(&nfa, 0),
        vec![
            (MatcherKind::Range('x', 'z'), 2),
            (MatcherKind::Char('a'), 1),
            (MatcherKind::Char('b'), 2),
            (MatcherKind::Epsilon, 0),
        ]
    );
    assert!(targets(&nfa, 1).is_empty());
}

#[test]
fn the_first_transition_is_tried_first() {
    // Two ways to read "a": the first declared wins, and with it its group.
    let mut nfa = NFAutomata::new();
    nfa.declare_state(3, 0, 1);
    nfa.add_ending(2);
    nfa.add_char_transition(0, 1, 'a');
    nfa.add_char_transition(0, 2, 'a');
    nfa.mark_start_capture_group(0, 1, None);
    nfa.mark_end_capture_group(1, 1, Some("first".to_string()));
    nfa.mark_end_capture_group(2, 1, None);
    nfa.mark_start_capture_group(2, 2, None);
    nfa.mark_end_capture_group(2, 2, None);
    let found = nfa.compute("a").unwrap();
    assert_eq!(found.get("1").map(|s| s.as_str()), Some("a"));
    assert!(found.get("2").is_none());

    let mut other = NFAutomata::new();
    other.declare_state(3, 0, 1);
    other.add_ending(2);
    other.add_char_transition(0, 1, 'a');
    other.unshift_transition(0, 2, rsgex::matcher::MatcherKind::Char('a'));
    other.mark_start_capture_group(2, 2, None);
    other.mark_end_capture_group(2, 2, None);
    let found = other.compute("a").unwrap();
    assert_eq!(found.get("2").map(|s| s.as_str()), Some(""));
}

#[test]
fn capture_markers_go_to_the_named_state() {
    let mut nfa = NFAutomata::new();
    nfa.declare_state(3, 0, 2);
    nfa.add_ending(1);
    nfa.mark_start_capture_group(1, 4, Some("x".to_string()));
    nfa.mark_end_capture_group(2, 4, None);
    nfa.mark_start_capture_group(8, 4, None);
    assert_eq!(nfa.states[1].start_group, vec![(4, Some("x".to_string()))]);
    assert_eq!(nfa.states[2].end_group, vec![(4, None)]);
    nfa.mark_capture_group(7, Some("g".to_string()));
    assert_eq!(nfa.states[0].start_group, vec![(7, Some("g".to_string()))]);
    assert_eq!(nfa.states[2].end_group, vec![(4, None), (7, Some("g".to_string()))]);
    assert_eq!(nfa.states[1].end_group, vec![(7, Some("g".to_string()))]);
}

#[test]
fn append_of_a_fragment_with_fewer_than_two_states_changes_nothing() {
    let mut nfa = chain("ab");
    let mut one = NFAutomata::new();
    one.declare_state(1, 0, 0);
    one.mark_capture_group(3, None);
    nfa.append(&one, 2);
    assert_eq!(nfa.states.len(), 3);
    assert_eq!(nfa.ending, vec![2]);
    assert!(nfa.states[2].start_group.is_empty());
    nfa.append(&NFAutomata::new(), 2);
    assert_eq!(nfa.states.len(), 3);
    assert_eq!(nfa.ending, vec![2]);
}

#[test]
fn append_identifies_the_initial_state_with_the_union_state() {
    let mut nfa = chain("ab");
    let mut other = chain("cd");
    other.add_epsilon_transition(2, 0);
    other.mark_capture_group(5, Some("tail".to_string()));
    nfa.append(&other, 2);

    // Two states of `other` are new; its initial state is state 2.
    assert_eq!(nfa.states.len(), 5);
    assert_eq!(nfa.initial, 0);
    assert_eq!(nfa.ending, vec![4]);
    assert!(!nfa.states[2].is_ending);
    assert!(!nfa.states[2].is_initial);
    assert!(nfa.states[4].is_ending);
    assert_eq!(targets(&nfa, 0), vec![(MatcherKind::Char('a'), 1)]);
    assert_eq!(targets(&nfa, 1), vec![(MatcherKind::Char('b'), 2)]);
    assert_eq!(targets(&nfa, 2), vec![(MatcherKind::Char('c'), 3)]);
    assert_eq!(targets(&nfa, 3), vec![(MatcherKind::Char('d'), 4)]);
    // A transition to the initial state of `other` leads to the union state.
    assert_eq!(targets(&nfa, 4), vec![(MatcherKind::Epsilon, 2)]);
    assert_eq!(nfa.states[2].start_group, vec![(5, Some("tail".to_string()))]);
    assert_eq!(nfa.states[4].end_group, vec![(5, Some("tail".to_string()))]);
    for (k, s) in nfa.states.iter().enumerate() {
        assert_eq!(s.is_ending, nfa.ending.contains(&k));
        assert_eq!(s.is_initial, k == nfa.initial);
        for (_, to) in s.matchers.iter() {
            assert!(*to < nfa.states.len());
        }
    }
    assert!(nfa.compute("abcd").is_some());
    assert!(nfa.compute("abcdcd").is_some());
    assert!(nfa.compute("ab").is_none());
}

#[test]
fn append_keeps_the_transitions_of_the_union_state_first() {
    let mut nfa = NFAutomata::new();
    nfa.declare_state(2, 0, 1);
    nfa.add_char_transition(0, 1, 'x');
    let other = chain("y");
    nfa.append(&other, 0);
    assert_eq!(
        targets(&nfa, 0),
        vec![(MatcherKind::Char('x'), 1), (MatcherKind::Char('y'), 2)]
    );
    assert_eq!(nfa.ending, vec![1, 2]);
}

#[test]
fn search_stops_at_the_beginning_or_asks_for_the_whole() {
    let nfa = chain("ab");
    assert!(nfa.compute("ab").is_some());
    assert!(nfa.compute("abc").is_none());
    assert!(nfa.compute("a").is_none());
    assert!(nfa.compute("").is_none());
    assert!(nfa.compute_prefix("ab").is_some());
    assert!(nfa.compute_prefix("abc").is_some());
    assert!(nfa.compute_prefix("a").is_none());
}

#[test]
fn epsilon_cycles_do_not_trap_the_search() {
    let mut nfa = NFAutomata::new();
    nfa.declare_state(3, 0, 2);
    nfa.add_epsilon_transition(0, 1);
    nfa.add_epsilon_transition(1, 0);
    nfa.add_epsilon_transition(1, 1);
    nfa.add_char_transition(1, 2, 'a');
    assert!(nfa.compute("a").is_some());
    assert!(nfa.compute("").is_none());
    assert!(nfa.compute("aa").is_none());
}

#[test]
fn positions_count_characters_not_bytes() {
    let mut nfa = chain("h\u{e9}llo");
    nfa.mark_start_capture_group(1, 1, None);
    nfa.mark_end_capture_group(3, 1, None);
    let found = nfa.compute("h\u{e9}llo").unwrap();
    assert_eq!(found.get("1").map(|s| s.as_str()), Some("\u{e9}l"));
}

#[test]
fn groups_are_keyed_by_decimal_index_and_by_name() {
    let mut nfa = chain("abc");
    nfa.mark_capture_group(0, None);
    nfa.mark_start_capture_group(1, 12, Some("mid".to_string()));
    nfa.mark_end_capture_group(2, 12, Some("mid".to_string()));
    nfa.mark_start_capture_group(2, 4294967295, None);
    nfa.mark_end_capture_group(3, 4294967295, None);
    nfa.mark_start_capture_group(3, 7, None);
    let found = nfa.compute("abc").unwrap();
    assert_eq!(found.get("0").map(|s| s.as_str()), Some("abc"));
    assert_eq!(found.get("12").map(|s| s.as_str()), Some("b"));
    assert_eq!(found.get("mid").map(|s| s.as_str()), Some("b"));
    assert_eq!(found.get("4294967295").map(|s| s.as_str()), Some("c"));
    // A group that opened and did not close has no entry.
    assert!(found.get("7").is_none());
    assert_eq!(found.len(), 4);
}

#[test]
fn a_group_keeps_the_place_where_it_first_opened() {
    let mut nfa = chain("aa");
    nfa.mark_start_capture_group(0, 1, None);
    nfa.mark_start_capture_group(1, 1, None);
    nfa.mark_end_capture_group(2, 1, None);
    let found = nfa.compute("aa").unwrap();
    assert_eq!(found.get("1").map(|s| s.as_str()), Some("aa"));
}

#[test]
fn a_group_closes_only_where_it_is_open() {
    let mut nfa = chain("ab");
    nfa.mark_end_capture_group(1, 1, None);
    nfa.mark_start_capture_group(1, 1, None);
    nfa.mark_end_capture_group(2, 1, None);
    // At state 1 the start marker is applied before the end marker.
    let found = nfa.compute("ab").unwrap();
    assert_eq!(found.get("1").map(|s| s.as_str()), Some(""));
}
