//! The pattern tree that the builder turns into an automaton.
use vstd::prelude::*;

verus! {

/// A parsed pattern.
#[derive(Debug)]
pub enum Ir {
    /// The bytes of a literal, one character each.
    Literal(Vec<u8>),
    /// A character class: any character in one of the ranges, whose two ends
    /// are included.
    Class(Vec<(char, char)>),
    /// The children one after the other.
    Concat(Vec<Ir>),
    /// One of the children.
    Alternation(Vec<Ir>),
    /// At least `min` and, where `max` is given, at most `max` times `sub`.
    Repetition { min: usize, max: Option<usize>, sub: Box<Ir> },
    /// The group `index`, optionally named, around `sub`.
    Capture { index: u32, name: Option<String>, sub: Box<Ir> },
    /// A node that the builder has no automaton for. It is treated as the
    /// pattern that matches the empty string.
    Unsupported,
}

} // verus!
