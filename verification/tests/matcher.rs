use rsgex::matcher::CharacterMatcher;
use rsgex::matcher::ClassUnicodeMatcher;
use rsgex::matcher::EpsilonMatcher;
use rsgex::matcher::Matcher;
use rsgex::matcher::MatcherKind;

#[test]
fn character_matcher_holds_of_its_character_alone() {
    let m = CharacterMatcher { c: 'a' };
    assert!(m.matches('a'));
    assert!(!m.matches('b'));
    assert!(!m.is_epsilon());
    assert_eq!(m.label(), "a");
}

#[test]
fn range_matcher_includes_both_ends() {
    let m = ClassUnicodeMatcher { start: 'b', end: 'd' };
    assert!(!m.matches('a'));
    assert!(m.matches('b'));
    assert!(m.matches('c'));
    assert!(m.matches('d'));
    assert!(!m.matches('e'));
    assert!(!m.is_epsilon());
    assert_eq!(m.label(), "b-d");
}

#[test]
fn range_matcher_orders_by_scalar_value() {
    let m = ClassUnicodeMatcher { start: '\u{e000}', end: '\u{10ffff}' };
    assert!(!m.matches('\u{d7ff}'));
    assert!(m.matches('\u{e000}'));
    assert!(m.matches('\u{10ffff}'));
}

#[test]
fn epsilon_matcher_holds_of_every_character() {
    let m = EpsilonMatcher {};
    assert!(m.matches('a'));
    assert!(m.matches('\u{0}'));
    assert!(m.is_epsilon());
    assert_eq!(m.label(), "\u{3b5}");
}

#[test]
fn matcher_kind_behaves_as_the_matcher_it_names() {
    assert!(MatcherKind::Epsilon.is_epsilon());
    assert!(MatcherKind::Epsilon.matches('x'));
    assert_eq!(MatcherKind::Epsilon.label(), "\u{3b5}");

    assert!(!MatcherKind::Char('x').is_epsilon());
    assert!(MatcherKind::Char('x').matches('x'));
    assert!(!MatcherKind::Char('x').matches('y'));
    assert_eq!(MatcherKind::Char('x').label(), "x");

    assert!(!MatcherKind::Range('0', '9').is_epsilon());
    assert!(MatcherKind::Range('0', '9').matches('0'));
    assert!(MatcherKind::Range('0', '9').matches('9'));
    assert!(!MatcherKind::Range('0', '9').matches('a'));
    assert_eq!(MatcherKind::Range('0', '9').label(), "0-9");
}
