use rsgex::engine::Engine;
use rsgex::ir::Ir;
use rsgex::parser::ir_of_hir;
use rsgex::parser::parse_by_regex_syntax;

fn group<'a>(e: &Engine, input: &str, key: &str) -> Option<String> {
    e.execute(input).and_then(|m| m.get(key).cloned())
}

#[test]
fn test_parse_by_regex_syntax() {
    println!("{:?}", parse_by_regex_syntax("@(?<region>.+).com"));
}

#[test]
fn a_pattern_that_does_not_parse_gives_the_error_of_the_parser() {
    assert!(parse_by_regex_syntax("(").is_err());
    assert!(Engine::compile("(").is_err());
    assert!(Engine::try_from("a{2,1}").is_err());
    let e = Engine::compile("[z-a]").err().unwrap();
    assert_eq!(e.error.to_string(), parse_by_regex_syntax("[z-a]").err().unwrap().to_string());
}

#[test]
fn the_tree_of_a_pattern_is_copied_node_by_node() {
    let hir = parse_by_regex_syntax("ab(?<n>c{2,5})|[x-z0-4]*").unwrap();
    let ir = ir_of_hir(&hir);
    let Ir::Alternation(alternatives) = ir else { panic!("no alternation") };
    assert_eq!(alternatives.len(), 2);
    let Ir::Concat(parts) = &alternatives[0] else { panic!("no concatenation") };
    assert_eq!(parts.len(), 2);
    assert!(matches!(&parts[0], Ir::Literal(b) if b == b"ab"));
    let Ir::Capture { index, name, sub } = &parts[1] else { panic!("no group") };
    assert_eq!(*index, 1);
    assert_eq!(name.as_deref(), Some("n"));
    let Ir::Repetition { min, max, sub } = &**sub else { panic!("no repetition") };
    assert_eq!((*min, *max), (2, Some(5)));
    assert!(matches!(&**sub, Ir::Literal(b) if b == b"c"));
    let Ir::Repetition { min, max, sub } = &alternatives[1] else { panic!("no repetition") };
    assert_eq!((*min, *max), (0, None));
    assert!(matches!(&**sub, Ir::Class(r) if r == &vec![('0', '4'), ('x', 'z')]));
}

#[test]
fn nodes_without_support_are_copied_as_such() {
    assert!(matches!(ir_of_hir(&parse_by_regex_syntax("").unwrap()), Ir::Unsupported));
    assert!(matches!(ir_of_hir(&parse_by_regex_syntax("^").unwrap()), Ir::Unsupported));
    assert!(matches!(ir_of_hir(&parse_by_regex_syntax("(?-u:[a-c])").unwrap()), Ir::Unsupported));
    let e = Engine::compile("^abc$").unwrap();
    assert!(e.matches("abc"));
    assert!(!e.matches("ab"));
    assert!(Engine::compile("").unwrap().matches(""));
    assert!(!Engine::compile("").unwrap().matches("a"));
}

#[test]
fn literal_matches_itself_and_nothing_else() {
    let e = Engine::compile("123").unwrap();
    assert_eq!(group(&e, "123", "0").as_deref(), Some("123"));
    assert!(e.execute("124").is_none());
    assert!(!e.matches("12"));
    assert!(!e.matches("1234"));
}

#[test]
fn alternation_takes_either_side() {
    let e = Engine::compile("123|456").unwrap();
    assert_eq!(group(&e, "456", "0").as_deref(), Some("456"));
    assert_eq!(group(&e, "123", "0").as_deref(), Some("123"));
    assert!(!e.matches("345"));
}

#[test]
fn repetitions_of_every_form() {
    assert!(Engine::compile("1+").unwrap().matches("111"));
    assert!(!Engine::compile("1+").unwrap().matches(""));
    let e = Engine::compile("01*").unwrap();
    assert_eq!(group(&e, "011", "0").as_deref(), Some("011"));
    assert_eq!(group(&e, "0", "0").as_deref(), Some("0"));
    let e = Engine::compile("1+2+3+4{2}").unwrap();
    assert!(e.matches("11122233344"));
    assert!(!e.matches("22244"));
    assert!(!e.matches("1112223334"));
    let e = Engine::compile("ab?c").unwrap();
    assert!(e.matches("ac") && e.matches("abc") && !e.matches("abbc"));
    let e = Engine::compile("a{2,}").unwrap();
    assert!(!e.matches("a") && e.matches("aa") && e.matches("aaaaa"));
}

#[test]
fn bounded_repetition_with_input_left_over() {
    let e = Engine::compile("1234{1,5}").unwrap();
    // The beginning of the input matches, with as many 4s as there are.
    let found = e.nfa.compute_prefix("123444455").unwrap();
    assert_eq!(found.get("0").map(|s| s.as_str()), Some("1234444"));
    // The whole of it does not.
    assert!(!e.matches("123444455"));
    assert!(e.execute("123444455").is_none());
    assert!(e.matches("1234"));
    assert!(e.matches("1234444"));
    assert!(e.matches("12344444"));
    assert!(!e.matches("123444444"));
    assert!(!e.matches("123"));
}

#[test]
fn named_and_numbered_groups() {
    let e = Engine::compile("(?<all>e(a)e)").unwrap();
    let found = e.execute("eae").unwrap();
    assert_eq!(found.get("0").map(|s| s.as_str()), Some("eae"));
    assert_eq!(found.get("all").map(|s| s.as_str()), Some("eae"));
    assert_eq!(found.get("1").map(|s| s.as_str()), Some("eae"));
    assert_eq!(found.get("2").map(|s| s.as_str()), Some("a"));
    assert_eq!(found.len(), 4);
}

#[test]
fn classes_and_their_complements() {
    let e = Engine::compile("[1-9]+").unwrap();
    assert_eq!(group(&e, "1", "0").as_deref(), Some("1"));
    assert_eq!(e.exec("917"), "917");
    assert!(!e.matches("10"));
    let e = Engine::compile("[^1-9]").unwrap();
    assert!(e.matches("0"));
    assert!(e.matches("a"));
    assert!(e.matches("\u{4e2d}"));
    assert!(!e.matches("5"));
    assert!(!e.matches("00"));
}

#[test]
fn matches_is_execute_without_the_captures() {
    let e = Engine::compile("a(b|c)*d").unwrap();
    for input in ["ad", "abd", "acbd", "abcbcd", "a", "abx", "", "dd"] {
        assert_eq!(e.matches(input), e.execute(input).is_some(), "{input}");
    }
    assert_eq!(e.exec("abcd"), "abcd");
}

#[test]
fn an_engine_by_default_has_no_state() {
    let e = Engine::default();
    assert!(e.nfa.states.is_empty());
}
