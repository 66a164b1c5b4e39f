//! Predicates over a single input character, the labels of the automaton's
//! transitions.
use vstd::prelude::*;
use vstd::string::StringExecFns;

verus! {

/// A predicate on one input character.
pub trait Matcher {
    /// The characters that satisfy the predicate.
    spec fn accepts(&self, c: char) -> bool;

    /// Whether a transition with this label is taken without reading input.
    spec fn epsilon(&self) -> bool;

    /// The text shown for this label.
    spec fn label_text(&self) -> Seq<char>;

    fn matches(&self, c: char) -> (r: bool)
        ensures
            r == self.accepts(c),
    ;

    fn is_epsilon(&self) -> (r: bool)
        ensures
            r == self.epsilon(),
    ;

    fn label(&self) -> (s: String)
        ensures
            s@ == self.label_text(),
    ;
}

/// `char::to_string` of std: the string that holds exactly the character `c`.
#[verifier::external_body]
fn char_to_string(c: char) -> (s: String)
    ensures
        s@ == seq![c],
{
    c.to_string()
}

/// Matches every character from `start` to `end`, both included.
#[derive(Clone, Copy, Debug, PartialEq, Eq, Structural)]
pub struct ClassUnicodeMatcher {
    pub start: char,
    pub end: char,
}

impl Matcher for ClassUnicodeMatcher {
    open spec fn accepts(&self, c: char) -> bool {
        self.start <= c && c <= self.end
    }

    open spec fn epsilon(&self) -> bool {
        false
    }

    open spec fn label_text(&self) -> Seq<char> {
        seq![self.start, '-', self.end]
    }

    fn matches(&self, c: char) -> (r: bool) {
        c >= self.start && c <= self.end
    }

    fn is_epsilon(&self) -> (r: bool) {
        false
    }

    fn label(&self) -> (s: String) {
        let mut s = char_to_string(self.start);
        proof {
            reveal_strlit("-");
        }
        s.append("-");
        let e = char_to_string(self.end);
        s.append(e.as_str());
        assert(s@ =~= seq![self.start, '-', self.end]);
        s
    }
}

/// Matches the one character `c`.
#[derive(Clone, Copy, Debug, PartialEq, Eq, Structural)]
pub struct CharacterMatcher {
    pub c: char,
}

impl Matcher for CharacterMatcher {
    open spec fn accepts(&self, c: char) -> bool {
        self.c == c
    }

    open spec fn epsilon(&self) -> bool {
        false
    }

    open spec fn label_text(&self) -> Seq<char> {
        seq![self.c]
    }

    fn matches(&self, c: char) -> (r: bool) {
        self.c == c
    }

    fn is_epsilon(&self) -> (r: bool) {
        false
    }

    fn label(&self) -> (s: String) {
        char_to_string(self.c)
    }
}

/// The label of a transition that reads nothing. As a predicate it holds of
/// every character.
#[derive(Clone, Copy, Debug, PartialEq, Eq, Structural)]
pub struct EpsilonMatcher {}

impl Matcher for EpsilonMatcher {
    open spec fn accepts(&self, c: char) -> bool {
        true
    }

    open spec fn epsilon(&self) -> bool {
        true
    }

    open spec fn label_text(&self) -> Seq<char> {
        seq!['\u{3b5}']
    }

    fn matches(&self, c: char) -> (r: bool) {
        true
    }

    fn is_epsilon(&self) -> (r: bool) {
        true
    }

    fn label(&self) -> (s: String) {
        char_to_string('\u{3b5}')
    }
}

/// The closed set of labels a transition can carry.
#[derive(Clone, Copy, Debug, PartialEq, Eq, Structural)]
pub enum MatcherKind {
    Epsilon,
    Char(char),
    Range(char, char),
}

/// The characters that a label holds of. The label epsilon holds of all.
pub open spec fn holds_of(m: MatcherKind, c: char) -> bool {
    match m {
        MatcherKind::Epsilon => true,
        MatcherKind::Char(x) => x == c,
        MatcherKind::Range(lo, hi) => lo <= c && c <= hi,
    }
}

/// Whether a label is the label of a transition that reads nothing.
pub open spec fn reads_nothing(m: MatcherKind) -> bool {
    m == MatcherKind::Epsilon
}

impl Matcher for MatcherKind {
    open spec fn accepts(&self, c: char) -> bool {
        holds_of(*self, c)
    }

    open spec fn epsilon(&self) -> bool {
        reads_nothing(*self)
    }

    open spec fn label_text(&self) -> Seq<char> {
        match *self {
            MatcherKind::Epsilon => seq!['\u{3b5}'],
            MatcherKind::Char(x) => seq![x],
            MatcherKind::Range(lo, hi) => seq![lo, '-', hi],
        }
    }

    fn matches(&self, c: char) -> (r: bool) {
        match *self {
            MatcherKind::Epsilon => EpsilonMatcher {  }.matches(c),
            MatcherKind::Char(x) => CharacterMatcher { c: x }.matches(c),
            MatcherKind::Range(lo, hi) => ClassUnicodeMatcher { start: lo, end: hi }.matches(c),
        }
    }

    fn is_epsilon(&self) -> (r: bool) {
        match *self {
            MatcherKind::Epsilon => true,
            MatcherKind::Char(_) => false,
            MatcherKind::Range(_, _) => false,
        }
    }

    fn label(&self) -> (s: String) {
        match *self {
            MatcherKind::Epsilon => EpsilonMatcher {  }.label(),
            MatcherKind::Char(x) => CharacterMatcher { c: x }.label(),
            MatcherKind::Range(lo, hi) => ClassUnicodeMatcher { start: lo, end: hi }.label(),
        }
    }
}

} // verus!
