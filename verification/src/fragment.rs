//! The fragments that the builder makes for each kind of pattern node, and
//! what holds of all of them.
use crate::ir::Ir;
use crate::matcher::MatcherKind;
use crate::nfa::blank_state;
use crate::nfa::name_view;
use crate::nfa::without;
use crate::nfa::NfaView;
use crate::nfa::StateView;
use vstd::prelude::*;

verus! {

/// A fragment as the builder makes them: ready to run, with its initial
/// state first, with one ending state, which is not the initial state
/// unless the fragment has no other state.
pub open spec fn is_fragment(a: NfaView) -> bool {
    &&& a.wf()
    &&& a.initial == 0
    &&& a.ending.len() == 1
    &&& (a.states.len() == 1 || a.ending[0] != 0)
    &&& a.states.len() <= usize::MAX
}

/// The fragment of one state, initial and ending: it accepts the empty
/// string.
pub open spec fn unit() -> NfaView {
    NfaView {
        states: seq![StateView { is_initial: true, is_ending: true, ..blank_state() }],
        initial: 0,
        ending: seq![0usize],
    }
}

/// The label of a step: the character given, or else epsilon.
pub open spec fn step_label(c: Option<char>) -> MatcherKind {
    match c {
        Some(x) => MatcherKind::Char(x),
        None => MatcherKind::Epsilon,
    }
}

/// An initial state with the transitions `trs`.
pub open spec fn entry_state(trs: Seq<(MatcherKind, usize)>) -> StateView {
    StateView { transitions: trs, is_initial: true, ..blank_state() }
}

/// An ending state without transitions.
pub open spec fn exit_state() -> StateView {
    StateView { is_ending: true, ..blank_state() }
}

/// The fragment of two states with one transition between them, on the
/// character given or else on nothing.
pub open spec fn step_frag(c: Option<char>) -> NfaView {
    NfaView {
        states: seq![entry_state(seq![(step_label(c), 1usize)]), exit_state()],
        initial: 0,
        ending: seq![1usize],
    }
}

/// The label of a transition for the byte `b` of a literal: the character
/// with the code `b`.
pub open spec fn byte_label(b: u8) -> MatcherKind {
    MatcherKind::Char(b as char)
}

/// The chain for the first `n` bytes of a literal, before its end is marked.
pub open spec fn literal_chain(bytes: Seq<u8>, n: nat) -> NfaView {
    NfaView {
        states: Seq::new(
            n + 1,
            |i: int|
                StateView {
                    transitions: if i < n {
                        seq![(byte_label(bytes[i]), (i + 1) as usize)]
                    } else {
                        Seq::empty()
                    },
                    is_initial: i == 0,
                    ..blank_state()
                },
        ),
        initial: 0,
        ending: Seq::empty(),
    }
}

/// The fragment of a literal: a chain with one state more than the literal
/// has bytes, the first initial, the last ending, and a transition from
/// each state to the next on the character with the code of the byte.
pub open spec fn literal_frag(bytes: Seq<u8>) -> NfaView {
    literal_chain(bytes, bytes.len()).add_ending(bytes.len() as usize)
}

/// The label of a transition for the range `r`.
pub open spec fn range_label(r: (char, char)) -> MatcherKind {
    MatcherKind::Range(r.0, r.1)
}

/// The transitions of a class: one for each range, all to state 1.
pub open spec fn class_transitions(ranges: Seq<(char, char)>, n: nat) -> Seq<(MatcherKind, usize)> {
    Seq::new(n, |i: int| (range_label(ranges[i]), 1usize))
}

/// The two states of a class with the transitions for its first `n` ranges.
pub open spec fn class_partial(ranges: Seq<(char, char)>, n: nat) -> NfaView {
    NfaView {
        states: seq![entry_state(class_transitions(ranges, n)), exit_state()],
        initial: 0,
        ending: seq![1usize],
    }
}

/// The fragment of a character class: an initial and an ending state, and
/// between them one transition for each range.
pub open spec fn class_frag(ranges: Seq<(char, char)>) -> NfaView {
    class_partial(ranges, ranges.len())
}

/// `child` spliced in at the last ending state of `a`.
pub open spec fn splice(a: NfaView, child: NfaView) -> NfaView {
    a.append(child, a.ending.last())
}

/// The first `n` of `frags` spliced one after the other onto the fragment of
/// one state.
pub open spec fn concat_all(frags: Seq<NfaView>, n: nat) -> NfaView
    decreases n,
{
    if n == 0 || n > frags.len() {
        unit()
    } else {
        splice(concat_all(frags, (n - 1) as nat), frags[n - 1])
    }
}

/// One initial state with the first `n` of `frags` spliced in at it.
pub open spec fn alternate_from(frags: Seq<NfaView>, n: nat) -> NfaView
    decreases n,
{
    if n == 0 || n > frags.len() {
        NfaView { states: seq![entry_state(Seq::empty())], initial: 0, ending: Seq::empty() }
    } else {
        alternate_from(frags, (n - 1) as nat).append(frags[n - 1], 0)
    }
}

/// The first `n` of `endings` joined to state `t`: each gets an epsilon
/// transition to `t` and stops being an ending state.
pub open spec fn join_endings(a: NfaView, endings: Seq<usize>, t: usize, n: nat) -> NfaView
    decreases n,
{
    if n == 0 || n > endings.len() {
        a
    } else {
        join_endings(a, endings, t, (n - 1) as nat).add_transition(
            endings[n - 1],
            t,
            MatcherKind::Epsilon,
        ).remove_ending(endings[n - 1])
    }
}

/// The junction `spliced` closed: a new state that every ending state leads
/// to through an epsilon transition and that is the only ending state.
pub open spec fn close_junction(spliced: NfaView) -> NfaView {
    let t = spliced.states.len() as usize;
    join_endings(spliced.add_state(), spliced.ending, t, spliced.ending.len()).add_ending(t)
}

/// The fragment of an alternation: the children spliced in at one initial
/// state, and a new state that every ending state leads to and that is the
/// only ending state.
pub open spec fn alternate(frags: Seq<NfaView>) -> NfaView {
    close_junction(alternate_from(frags, frags.len()))
}

/// `n` copies of `s` spliced one after the other onto `a`.
pub open spec fn repeat_splice(a: NfaView, s: NfaView, n: nat) -> NfaView
    decreases n,
{
    if n == 0 {
        a
    } else {
        splice(repeat_splice(a, s, (n - 1) as nat), s)
    }
}

/// An epsilon transition to `t` from the state at which each of the first
/// `n` optional copies begins.
pub open spec fn bypass(a: NfaView, s: NfaView, min: nat, t: usize, n: nat) -> NfaView
    decreases n,
{
    if n == 0 {
        a
    } else {
        bypass(a, s, min, t, (n - 1) as nat).add_transition(
            repeat_splice(unit(), s, (min + n - 1) as nat).ending.last(),
            t,
            MatcherKind::Epsilon,
        )
    }
}

/// The number of optional copies of a bounded repetition.
pub open spec fn optional_copies(min: nat, max: nat) -> nat {
    if max >= min {
        (max - min) as nat
    } else {
        0
    }
}

/// The fragment of a repetition with an upper bound: `min` copies, then the
/// optional copies, each of which can be left for the ending state.
pub open spec fn repeat_bounded(s: NfaView, min: nat, max: nat) -> NfaView {
    let count = optional_copies(min, max);
    let full = repeat_splice(unit(), s, min + count);
    bypass(full, s, min, full.ending.last(), count)
}

/// The loop closed on the last copy of a repetition: that copy runs from
/// `e0` to the last ending state `e1`; it can be taken again, left out, or
/// left for a new state, which is the only ending state.
pub open spec fn close_loop(b: NfaView, e0: usize) -> NfaView {
    let e1 = b.ending.last();
    let t = b.states.len() as usize;
    b.remove_ending(e1).add_state().add_transition(e1, e0, MatcherKind::Epsilon).add_transition(
        e1,
        t,
        MatcherKind::Epsilon,
    ).add_transition(e0, e1, MatcherKind::Epsilon).add_ending(t)
}

/// The fragment of a repetition without an upper bound: `min` copies, then
/// one more that can be repeated or left out, and a new ending state.
pub open spec fn repeat_unbounded(s: NfaView, min: nat) -> NfaView {
    let a = repeat_splice(unit(), s, min);
    close_loop(splice(a, s), a.ending.last())
}

/// The fragment of a repetition.
pub open spec fn repeat(s: NfaView, min: usize, max: Option<usize>) -> NfaView {
    match max {
        Some(m) => repeat_bounded(s, min as nat, m as nat),
        None => repeat_unbounded(s, min as nat),
    }
}

/// The fragment that the builder makes for a pattern.
pub open spec fn build(ir: Ir) -> NfaView
    decreases ir, 0nat,
{
    match ir {
        Ir::Literal(bytes) => literal_frag(bytes@),
        Ir::Class(ranges) => class_frag(ranges@),
        Ir::Concat(children) => concat_all(build_each(children@, children@.len()), children@.len()),
        Ir::Alternation(children) => alternate(build_each(children@, children@.len())),
        Ir::Repetition { min, max, sub } => repeat(build(*sub), min, max),
        Ir::Capture { index, name, sub } => build(*sub).mark_capture_group(index, name_view(name)),
        Ir::Unsupported => unit(),
    }
}

/// The fragments of the first `n` of `children`.
pub open spec fn build_each(children: Seq<Ir>, n: nat) -> Seq<NfaView>
    decreases children, n,
{
    if n == 0 || n > children.len() {
        Seq::empty()
    } else {
        build_each(children, (n - 1) as nat).push(build(children[n - 1]))
    }
}

/// The automaton of a whole pattern: its fragment inside group 0.
pub open spec fn compiled(ir: Ir) -> NfaView {
    build(ir).mark_capture_group(0, None)
}

} // verus!
