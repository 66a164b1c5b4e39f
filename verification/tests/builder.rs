use rsgex::engine::Engine;
use rsgex::ir::Ir;
use rsgex::matcher::MatcherKind;
use rsgex::nfa::NFAutomata;
use rsgex::nfa_builder::NFAutomataBuilder;

fn lit(text: &str) -> Ir {
    Ir::Literal(text.as_bytes().to_vec())
}

fn targets(nfa: &NFAutomata, state: usize) -> Vec<(MatcherKind, usize)> {
    nfa.states[state].matchers.iter().copied().collect()
}

fn accepts(ir: &Ir, input: &str) -> bool {
    Engine::from_ir(ir).matches(input)
}

fn assert_invariants(nfa: &NFAutomata) {
    assert_eq!(nfa.states.iter().filter(|s| s.is_initial).count(), 1);
    assert!(nfa.states[nfa.initial].is_initial);
    for (k, s) in nfa.states.iter().enumerate() {
        assert_eq!(s.is_ending, nfa.ending.contains(&k));
        for (_, to) in s.matchers.iter() {
            assert!(*to < nfa.states.len());
        }
    }
    for e in nfa.ending.iter() {
        assert!(*e < nfa.states.len());
    }
}

#[test]
fn one_step_makes_two_states_and_one_transition() {
    let mut b = NFAutomataBuilder::default();
    b.one_step(Some('q'));
    assert_eq!(b.nfa.states.len(), 2);
    assert_eq!(b.nfa.initial, 0);
    assert_eq!(b.nfa.ending, vec![1]);
    assert_eq!(targets(&b.nfa, 0), vec![(MatcherKind::Char('q'), 1)]);
    b.one_step(None);
    assert_eq!(targets(&b.nfa, 0), vec![(MatcherKind::Epsilon, 1)]);
    assert!(b.nfa.compute("").is_some());
    assert!(b.nfa.compute("q").is_none());
}

#[test]
fn builder_append_splices_into_its_automaton() {
    let mut b = NFAutomataBuilder::default();
    b.one_step(Some('a'));
    let mut other = NFAutomataBuilder::default();
    other.one_step(Some('b'));
    b.append(other.nfa, 1);
    assert_eq!(b.nfa.states.len(), 3);
    assert_eq!(b.nfa.ending, vec![2]);
    assert!(b.nfa.compute("ab").is_some());
    assert!(b.nfa.compute("a").is_none());
}

#[test]
fn a_literal_is_a_chain_with_one_state_more_than_bytes() {
    let b = NFAutomataBuilder::ast_to_nfa(&lit("abc"));
    assert_eq!(b.nfa.states.len(), 4);
    assert_eq!(b.nfa.initial, 0);
    assert_eq!(b.nfa.ending, vec![3]);
    assert_eq!(targets(&b.nfa, 0), vec![(MatcherKind::Char('a'), 1)]);
    assert_eq!(targets(&b.nfa, 1), vec![(MatcherKind::Char('b'), 2)]);
    assert_eq!(targets(&b.nfa, 2), vec![(MatcherKind::Char('c'), 3)]);
    assert!(targets(&b.nfa, 3).is_empty());
    assert_invariants(&b.nfa);

    let empty = NFAutomataBuilder::ast_to_nfa(&lit(""));
    assert_eq!(empty.nfa.states.len(), 1);
    assert_eq!(empty.nfa.ending, vec![0]);
}

#[test]
fn a_literal_byte_stands_for_the_character_with_its_code() {
    let ir = Ir::Literal(vec![0xe9]);
    assert!(accepts(&ir, "\u{e9}"));
    assert!(!accepts(&ir, "e"));
}

#[test]
fn a_class_has_one_transition_for_each_range_between_two_states() {
    let b = NFAutomataBuilder::ast_to_nfa(&Ir::Class(vec![('a', 'c'), ('x', 'x'), ('0', '9')]));
    assert_eq!(b.nfa.states.len(), 2);
    assert_eq!(b.nfa.ending, vec![1]);
    assert_eq!(
        targets(&b.nfa, 0),
        vec![
            (MatcherKind::Range('a', 'c'), 1),
            (MatcherKind::Range('x', 'x'), 1),
            (MatcherKind::Range('0', '9'), 1),
        ]
    );
    assert_invariants(&b.nfa);
    for (input, expected) in [("a", true), ("c", true), ("x", true), ("5", true), ("d", false), ("", false), ("ab", false)] {
        assert_eq!(b.nfa.compute(input).is_some(), expected, "{input}");
    }
    let none = Ir::Class(vec![]);
    assert!(!accepts(&none, ""));
    assert!(!accepts(&none, "a"));
}

#[test]
fn a_concatenation_splices_its_children_in_order() {
    let ir = Ir::Concat(vec![lit("ab"), lit(""), Ir::Unsupported, lit("c")]);
    let b = NFAutomataBuilder::ast_to_nfa(&ir);
    assert_eq!(b.nfa.states.len(), 4);
    assert_eq!(b.nfa.ending, vec![3]);
    assert_invariants(&b.nfa);
    assert!(accepts(&ir, "abc"));
    assert!(!accepts(&ir, "ab"));
    assert!(!accepts(&ir, "abcc"));
    assert!(accepts(&Ir::Concat(vec![]), ""));
    assert!(!accepts(&Ir::Concat(vec![]), "a"));
}

#[test]
fn an_alternation_joins_its_children_at_one_initial_and_one_ending_state() {
    let ir = Ir::Alternation(vec![lit("ab"), lit("c")]);
    let b = NFAutomataBuilder::ast_to_nfa(&ir);
    // State 0, two states for "ab", one for "c", and the new ending state.
    assert_eq!(b.nfa.states.len(), 5);
    assert_eq!(b.nfa.ending, vec![4]);
    assert_eq!(
        targets(&b.nfa, 0),
        vec![(MatcherKind::Char('a'), 1), (MatcherKind::Char('c'), 3)]
    );
    assert_eq!(targets(&b.nfa, 2), vec![(MatcherKind::Epsilon, 4)]);
    assert_eq!(targets(&b.nfa, 3), vec![(MatcherKind::Epsilon, 4)]);
    assert_invariants(&b.nfa);
    assert!(accepts(&ir, "ab"));
    assert!(accepts(&ir, "c"));
    assert!(!accepts(&ir, "abc"));
    assert!(!accepts(&ir, ""));
    assert!(!accepts(&Ir::Alternation(vec![]), ""));
}

#[test]
fn the_first_alternative_that_matches_gives_the_captures() {
    let ir = Ir::Alternation(vec![
        Ir::Capture { index: 1, name: None, sub: Box::new(lit("a")) },
        Ir::Capture { index: 2, name: None, sub: Box::new(lit("a")) },
    ]);
    let found = Engine::from_ir(&ir).execute("a").unwrap();
    assert_eq!(found.get("1").map(|s| s.as_str()), Some("a"));
    assert!(found.get("2").is_none());
}

fn rep(min: usize, max: Option<usize>, sub: Ir) -> Ir {
    Ir::Repetition { min, max, sub: Box::new(sub) }
}

#[test]
fn an_exact_repetition_is_a_chain_of_copies() {
    let ir = rep(3, Some(3), lit("ab"));
    let b = NFAutomataBuilder::ast_to_nfa(&ir);
    assert_eq!(b.nfa.states.len(), 7);
    assert_eq!(b.nfa.ending, vec![6]);
    assert_invariants(&b.nfa);
    assert!(accepts(&ir, "ababab"));
    assert!(!accepts(&ir, "abab"));
    assert!(!accepts(&ir, "abababab"));
}

#[test]
fn a_bounded_repetition_lets_each_optional_copy_be_left() {
    let ir = rep(1, Some(3), lit("a"));
    let b = NFAutomataBuilder::ast_to_nfa(&ir);
    assert_eq!(b.nfa.states.len(), 4);
    assert_eq!(b.nfa.ending, vec![3]);
    assert_eq!(
        targets(&b.nfa, 1),
        vec![(MatcherKind::Char('a'), 2), (MatcherKind::Epsilon, 3)]
    );
    assert_eq!(
        targets(&b.nfa, 2),
        vec![(MatcherKind::Char('a'), 3), (MatcherKind::Epsilon, 3)]
    );
    assert_invariants(&b.nfa);
    for (input, expected) in [("", false), ("a", true), ("aa", true), ("aaa", true), ("aaaa", false)] {
        assert_eq!(accepts(&ir, input), expected, "{input}");
    }
    let optional = rep(0, Some(1), lit("a"));
    assert!(accepts(&optional, ""));
    assert!(accepts(&optional, "a"));
    assert!(!accepts(&optional, "aa"));
    // An upper bound below the lower bound leaves the lower bound alone.
    let odd = rep(2, Some(1), lit("a"));
    assert!(accepts(&odd, "aa"));
    assert!(!accepts(&odd, "a"));
}

#[test]
fn an_unbounded_repetition_loops_on_its_last_copy() {
    let star = rep(0, None, lit("a"));
    let b = NFAutomataBuilder::ast_to_nfa(&star);
    assert_eq!(b.nfa.states.len(), 3);
    assert_eq!(b.nfa.ending, vec![2]);
    assert_eq!(
        targets(&b.nfa, 0),
        vec![(MatcherKind::Char('a'), 1), (MatcherKind::Epsilon, 1)]
    );
    assert_eq!(
        targets(&b.nfa, 1),
        vec![(MatcherKind::Epsilon, 0), (MatcherKind::Epsilon, 2)]
    );
    assert_invariants(&b.nfa);
    for input in ["", "a", "aa", "aaaaaaa"] {
        assert!(accepts(&star, input), "{input}");
    }
    assert!(!accepts(&star, "ab"));
    let plus = rep(1, None, lit("a"));
    assert!(!accepts(&plus, ""));
    assert!(accepts(&plus, "a"));
    assert!(accepts(&plus, "aaaa"));
    let two_or_more = rep(2, None, lit("ab"));
    assert!(!accepts(&two_or_more, "ab"));
    assert!(accepts(&two_or_more, "abab"));
    assert!(accepts(&two_or_more, "ababab"));
}

#[test]
fn a_capture_marks_the_initial_and_the_ending_state() {
    let ir = Ir::Capture { index: 3, name: Some("word".to_string()), sub: Box::new(lit("ab")) };
    let b = NFAutomataBuilder::ast_to_nfa(&ir);
    assert_eq!(b.nfa.states.len(), 3);
    assert_eq!(b.nfa.states[0].start_group, vec![(3, Some("word".to_string()))]);
    assert_eq!(b.nfa.states[2].end_group, vec![(3, Some("word".to_string()))]);
    assert!(b.nfa.states[1].start_group.is_empty() && b.nfa.states[1].end_group.is_empty());
    let found = Engine::from_ir(&ir).execute("ab").unwrap();
    assert_eq!(found.get("3").map(|s| s.as_str()), Some("ab"));
    assert_eq!(found.get("word").map(|s| s.as_str()), Some("ab"));
    assert_eq!(found.get("0").map(|s| s.as_str()), Some("ab"));
}

#[test]
fn an_unsupported_node_matches_the_empty_string() {
    let b = NFAutomataBuilder::ast_to_nfa(&Ir::Unsupported);
    assert_eq!(b.nfa.states.len(), 1);
    assert_eq!(b.nfa.ending, vec![0]);
    assert_invariants(&b.nfa);
    assert!(accepts(&Ir::Unsupported, ""));
    assert!(!accepts(&Ir::Unsupported, "a"));
    let around = Ir::Concat(vec![Ir::Unsupported, lit("abc"), Ir::Unsupported]);
    assert!(accepts(&around, "abc"));
}

#[test]
fn the_engine_of_a_tree_wraps_it_in_group_zero() {
    let e = Engine::from_ir(&lit("ab"));
    assert_eq!(e.nfa.states[0].start_group, vec![(0, None)]);
    assert_eq!(e.nfa.states[2].end_group, vec![(0, None)]);
    assert_invariants(&e.nfa);
}

#[test]
fn a_group_inside_a_repetition_holds_its_first_round() {
    let ir = rep(2, Some(2), Ir::Capture { index: 1, name: None, sub: Box::new(Ir::Class(vec![('a', 'z')])) });
    let found = Engine::from_ir(&ir).execute("xy").unwrap();
    assert_eq!(found.get("0").map(|s| s.as_str()), Some("xy"));
    assert_eq!(found.get("1").map(|s| s.as_str()), Some("x"));
}

#[test]
fn a_group_that_closed_before_it_first_opened_is_left_out() {
    // The first branch opens group 1 after two characters and fails; the
    // branch that matches closes it after one.
    let ir = Ir::Concat(vec![
        rep(0, Some(2), lit("x")),
        Ir::Capture { index: 1, name: None, sub: Box::new(Ir::Class(vec![('a', 'z')])) },
        lit("xb"),
    ]);
    let found = Engine::from_ir(&ir).execute("xxb").unwrap();
    assert_eq!(found.get("0").map(|s| s.as_str()), Some("xxb"));
    assert!(found.get("1").is_none());
}
