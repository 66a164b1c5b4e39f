use rsgex::engine::Engine;

#[test]
fn test_literal() {
    let e = Engine::try_from("123").unwrap();
    assert!(e.nfa.compute("123").is_some());
    assert!(e.nfa.compute("124").is_none());
}

#[test]
fn test_alternation() {
    let e = Engine::try_from("123|456").unwrap();
    assert!(e.nfa.compute("123").is_some());
    assert!(e.nfa.compute("456").is_some());
    assert!(e.nfa.compute("345").is_none());
}

#[test]
fn test_repetition() {
    let e = Engine::try_from("1+").unwrap();

    assert!(e.nfa.compute("1").is_some());
    assert!(e.nfa.compute("11").is_some());
    assert!(e.nfa.compute("111").is_some());
}

#[test]
fn test_repetition_0_any() {
    let e = Engine::try_from("01*").unwrap();

    assert_eq!(e.exec("0"), "0");
    assert_eq!(e.exec("01"), "01");
    assert_eq!(e.exec("011"), "011");
}

#[test]
fn test_repetition_complex() {
    let e = Engine::try_from("1+2+3+4{2}").unwrap();

    assert!(e.nfa.compute("11122233344").is_some());
    // A match that leaves input over is one of the beginning of the input.
    assert!(e.nfa.compute_prefix("111222333445").is_some());
    assert!(e.nfa.compute("111222333445").is_none());
    assert!(e.nfa.compute("22244").is_none());
    assert!(e.nfa.compute("11122233345").is_none());

    let e2 = Engine::try_from("1234{1,5}").unwrap();

    assert!(e2.nfa.compute_prefix("123444455").is_some());
    assert!(e2.nfa.compute("123444455").is_none());
}

#[test]
fn test_accepter() {
    let e = Engine::try_from("123+|456+|7{3}|888").unwrap();

    assert!(e.nfa.compute("888").is_some());
}

#[test]
fn test_capture_group() {
    let e = Engine::try_from("(?<all>e(a)e)").unwrap();

    let res = e.nfa.compute("eae");
    assert!(res.is_some());

    assert_eq!(
        Some("eae"),
        res.as_ref()
            .unwrap()
            .get(&0.to_string())
            .map(|s| s.as_str())
    );
    assert_eq!(
        Some("eae"),
        res.as_ref()
            .unwrap()
            .get(&"all".to_string())
            .map(|s| s.as_str())
    );
    assert_eq!(
        Some("a"),
        res.as_ref()
            .unwrap()
            .get(&2.to_string())
            .map(|s| s.as_str())
    );
}

#[test]
fn test_class() {
    let e = Engine::try_from("[1-9]+").unwrap();

    assert_eq!(e.exec("1"), "1");

    let e = Engine::try_from("[^1-9]").unwrap();

    // A class is one step wide, whatever the number of its ranges.
    assert!(e.nfa.compute("0").is_some());
}
