use rsgex::nfa::NFAutomata;

#[test]
fn test_nfa_with_example() {
    let mut nfa = NFAutomata::default();

    nfa.declare_state(4, 0, 3);
    nfa.add_char_transition(0, 1, 'a');
    nfa.add_char_transition(1, 2, 'b');
    nfa.add_char_transition(2, 2, 'b');
    nfa.add_epsilon_transition(2, 3);

    assert!(nfa.compute("abbbbbb").is_some());
    assert!(nfa.compute("aabbbbbb").is_none());
    assert!(nfa.compute("ab").is_some());
    assert!(nfa.compute("a").is_none());
}

#[test]
fn test_nfa_epsilon_loop() {
    let mut nfa = NFAutomata::default();

    nfa.declare_state(3, 0, 2);
    nfa.add_char_transition(0, 1, 'a');
    nfa.add_epsilon_transition(1, 1);
    nfa.add_char_transition(1, 2, 'b');

    assert!(nfa.compute("ab").is_some());
}
