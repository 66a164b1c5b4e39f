use rsgex::engine::Engine;
use rsgex::ir::Ir;
use rsgex::nfa::NFAutomata;

const INPUTS: [&str; 14] = [
    "", "a", "b", "c", "ab", "ba", "abc", "abcc", "aabc", "x", "xx", "xxx", "xxxx", "abcabc",
];

fn lit(text: &str) -> Ir {
    Ir::Literal(text.as_bytes().to_vec())
}

fn capture(index: u32, sub: Ir) -> Ir {
    Ir::Capture { index, name: None, sub: Box::new(sub) }
}

fn rep(min: usize, max: Option<usize>, sub: Ir) -> Ir {
    Ir::Repetition { min, max, sub: Box::new(sub) }
}

fn samples() -> Vec<Engine> {
    let mut engines: Vec<Engine> = [
        "123", "123|456", "1+", "01*", "1+2+3+4{2}", "1234{1,5}", "(?<all>e(a)e)", "[1-9]+", "[^1-9]",
        "123+|456+|7{3}|888", "(a|b)*c?", "((a)(b(c)))+", "x{0,0}", "a{3}", "(a*)*", "", "^a$",
    ]
    .iter()
    .map(|p| Engine::compile(p).unwrap())
    .collect();
    engines.push(Engine::from_ir(&Ir::Alternation(vec![rep(0, None, lit("a")), lit("b")])));
    engines.push(Engine::from_ir(&Ir::Concat(vec![capture(1, Ir::Unsupported), lit("a")])));
    engines.push(Engine::from_ir(&rep(2, Some(4), capture(1, rep(0, Some(1), lit("ab"))))));
    engines
}

fn reachable(nfa: &NFAutomata, from: usize) -> Vec<bool> {
    let mut seen = vec![false; nfa.states.len()];
    let mut stack = vec![from];
    seen[from] = true;
    while let Some(s) = stack.pop() {
        for (_, to) in nfa.states[s].matchers.iter() {
            if !seen[*to] {
                seen[*to] = true;
                stack.push(*to);
            }
        }
    }
    seen
}

#[test]
fn every_built_automaton_has_exactly_one_initial_state() {
    for e in samples() {
        assert_eq!(e.nfa.states.iter().filter(|s| s.is_initial).count(), 1);
        assert!(e.nfa.states[e.nfa.initial].is_initial);
    }
}

#[test]
fn the_ending_list_is_the_set_of_states_flagged_ending() {
    for e in samples() {
        for (k, s) in e.nfa.states.iter().enumerate() {
            assert_eq!(s.is_ending, e.nfa.ending.contains(&k));
        }
        for (i, x) in e.nfa.ending.iter().enumerate() {
            assert!(*x < e.nfa.states.len());
            assert!(!e.nfa.ending[..i].contains(x));
        }
    }
}

#[test]
fn every_transition_leads_to_a_state() {
    for e in samples() {
        for s in e.nfa.states.iter() {
            for (_, to) in s.matchers.iter() {
                assert!(*to < e.nfa.states.len());
            }
        }
    }
}

#[test]
fn every_group_that_opens_can_close() {
    for e in samples() {
        for (k, s) in e.nfa.states.iter().enumerate() {
            let seen = reachable(&e.nfa, k);
            for (g, _) in s.start_group.iter() {
                let closes = e.nfa.states.iter().enumerate().any(|(t, state)| {
                    seen[t] && state.end_group.iter().any(|(h, _)| h == g)
                });
                assert!(closes, "group {g} opens at state {k}");
            }
        }
    }
}

#[test]
fn a_group_of_an_empty_class_cannot_close() {
    let e = Engine::from_ir(&Ir::Class(vec![]));
    let seen = reachable(&e.nfa, 0);
    assert_eq!(e.nfa.states[0].start_group, vec![(0, None)]);
    assert_eq!(e.nfa.states[1].end_group, vec![(0, None)]);
    assert!(!seen[1]);
}

#[test]
fn a_literal_matches_its_own_text_as_group_zero() {
    for text in ["", "a", "abc", "hello world", "123", "(.*)+?"] {
        let e = Engine::from_ir(&lit(text));
        let found = e.execute(text).unwrap();
        assert_eq!(found.get("0").map(|s| s.as_str()), Some(text));
        assert_eq!(found.len(), 1);
    }
    for text in ["a", "abc", "123", "hello"] {
        let e = Engine::compile(text).unwrap();
        assert_eq!(e.exec(text), text);
    }
}

#[test]
fn alternation_accepts_the_same_in_either_order() {
    let pairs = [
        (lit("a"), lit("b")),
        (lit("ab"), lit("a")),
        (lit(""), lit("x")),
        (rep(0, None, lit("a")), lit("b")),
        (rep(1, Some(3), lit("x")), capture(1, lit("xx"))),
        (Ir::Class(vec![('a', 'b')]), Ir::Alternation(vec![lit("c"), lit("ab")])),
    ];
    for (p, q) in pairs {
        let there = Engine::from_ir(&Ir::Alternation(vec![copy(&p), copy(&q)]));
        let back = Engine::from_ir(&Ir::Alternation(vec![q, p]));
        for input in INPUTS {
            assert_eq!(there.matches(input), back.matches(input), "{input}");
        }
    }
    let there = Engine::compile("a|b").unwrap();
    let back = Engine::compile("b|a").unwrap();
    for input in INPUTS {
        assert_eq!(there.matches(input), back.matches(input), "{input}");
        assert_eq!(there.matches(input), input == "a" || input == "b");
    }
}

fn copy(ir: &Ir) -> Ir {
    match ir {
        Ir::Literal(b) => Ir::Literal(b.clone()),
        Ir::Class(r) => Ir::Class(r.clone()),
        Ir::Concat(c) => Ir::Concat(c.iter().map(copy).collect()),
        Ir::Alternation(c) => Ir::Alternation(c.iter().map(copy).collect()),
        Ir::Repetition { min, max, sub } => Ir::Repetition { min: *min, max: *max, sub: Box::new(copy(sub)) },
        Ir::Capture { index, name, sub } => {
            Ir::Capture { index: *index, name: name.clone(), sub: Box::new(copy(sub)) }
        }
        Ir::Unsupported => Ir::Unsupported,
    }
}

#[test]
fn grouping_of_a_concatenation_does_not_change_what_is_accepted() {
    let left = Engine::compile("(ab)c").unwrap();
    let right = Engine::compile("a(bc)").unwrap();
    for input in INPUTS {
        assert_eq!(left.matches(input), right.matches(input), "{input}");
        assert_eq!(left.matches(input), input == "abc");
    }
    let left = Engine::from_ir(&Ir::Concat(vec![Ir::Concat(vec![lit("a"), lit("b")]), lit("c")]));
    let right = Engine::from_ir(&Ir::Concat(vec![lit("a"), Ir::Concat(vec![lit("b"), lit("c")])]));
    for input in INPUTS {
        assert_eq!(left.matches(input), right.matches(input), "{input}");
    }
}

#[test]
fn repetition_at_its_extremes() {
    let none = Engine::compile("x{0,0}").unwrap();
    for input in INPUTS {
        assert_eq!(none.matches(input), input.is_empty(), "{input}");
    }
    let none = Engine::from_ir(&rep(0, Some(0), lit("x")));
    for input in INPUTS {
        assert_eq!(none.matches(input), input.is_empty(), "{input}");
    }
    for n in 1..5usize {
        let exact = Engine::from_ir(&rep(n, Some(n), lit("x")));
        for input in INPUTS {
            assert_eq!(exact.matches(input), input == "x".repeat(n), "{n} {input}");
        }
        let word = Engine::from_ir(&rep(n, Some(n), lit("abc")));
        assert!(word.matches(&"abc".repeat(n)));
        assert!(!word.matches(&"abc".repeat(n + 1)));
        assert!(!word.matches(&"abc".repeat(n - 1)));
    }
    let three = Engine::compile("x{3}").unwrap();
    assert!(three.matches("xxx") && !three.matches("xx") && !three.matches("xxxx"));
}

#[test]
fn group_zero_of_a_match_is_the_whole_input() {
    let patterns = [
        "(a|b)*c?", "((a)(b(c)))+", "a*b*c*", "(x{1,3}){2}", "[a-c]+|x+", "(?<n>ab)(?<m>c)*", "",
    ];
    for p in patterns {
        let e = Engine::compile(p).unwrap();
        for input in INPUTS {
            if let Some(found) = e.execute(input) {
                assert_eq!(found.get("0").map(|s| s.as_str()), Some(input), "{p} {input}");
            }
        }
    }
}

#[test]
fn a_group_zero_inside_the_pattern_takes_the_place_of_the_whole() {
    let ir = Ir::Concat(vec![capture(0, lit("a")), lit("b")]);
    let found = Engine::from_ir(&ir).execute("ab").unwrap();
    assert_eq!(found.get("0").map(|s| s.as_str()), Some("a"));
}
