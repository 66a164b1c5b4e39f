//! What holds of every automaton that the builder makes, and of the
//! patterns that spell one word.
use crate::chains::is_chain;
use crate::chains::lemma_chain_same_graph;
use crate::chains::lemma_literal_chain;
use crate::chains::lemma_word_accepts;
use crate::chains::link;
use crate::chains::power;
use crate::chains::text;
use crate::chains::word;
use crate::fragment::build;
use crate::fragment::compiled;
use crate::fragment::is_fragment;
use crate::fragment::literal_frag;
use crate::ir::Ir;
use crate::language::accepts;
use crate::nfa::listed;
use crate::nfa::NfaView;
use crate::search::captures;
use crate::search::close_all;
use crate::search::close_group;
use crate::search::decimal;
use crate::search::explore;
use crate::search::explore_from;
use crate::search::first_frame;
use crate::search::open_all;
use crate::search::open_group;
use crate::search::search;
use crate::search::successor;
use crate::search::FrameView;
use crate::search::GroupSpan;
use crate::wellformed::lemma_mark_capture_group;
use vstd::prelude::*;

verus! {

/// Of a fragment as the builder makes them: one state, and one only, is
/// flagged initial; the ending states are the states flagged ending; and
/// every transition leads to a state of the fragment.
pub proof fn lemma_fragment_invariants(a: NfaView)
    requires
        is_fragment(a),
    ensures
        a.initial < a.states.len(),
        forall|k: int| 0 <= k < a.states.len() ==> (#[trigger] a.states[k].is_initial <==> k == a.initial),
        forall|k: int| 0 <= k < a.states.len() ==> (#[trigger] a.states[k].is_ending <==> listed(a.ending, k)),
        forall|i: int| 0 <= i < a.ending.len() ==> #[trigger] a.ending[i] < a.states.len(),
        forall|k: int, j: int|
            0 <= k < a.states.len() && 0 <= j < a.states[k].transitions.len() ==> (
            #[trigger] a.states[k].transitions[j]).1 < a.states.len(),
{
    assert forall|k: int| 0 <= k < a.states.len() implies (#[trigger] a.states[k].is_initial <==> k
        == a.initial) by {
        if a.states[k].is_initial {
            assert(k == a.initial);
        }
    }
    assert forall|k: int| 0 <= k < a.states.len() implies (#[trigger] a.states[k].is_ending <==> listed(
        a.ending,
        k,
    )) by {
        assert(a.states[k].is_ending <==> listed(a.ending, k));
    }
}

/// The record of groups once group 0 has opened at the beginning of the
/// input.
pub open spec fn opened() -> Seq<GroupSpan> {
    seq![GroupSpan { index: 0, left: 0, right: None, name: None }]
}

/// The captures of a match that holds nothing but the whole input as group 0.
pub open spec fn whole_match(input: Seq<char>) -> Map<Seq<char>, Seq<char>> {
    Map::<Seq<char>, Seq<char>>::empty().insert(decimal(0), input)
}

/// A chain for the word `w` that opens group 0 at its first state, closes it
/// at its last, and has no other marker.
pub open spec fn is_marked_chain(a: NfaView, w: Seq<char>) -> bool {
    &&& is_chain(a, w)
    &&& forall|i: int|
        0 <= i <= w.len() ==> (#[trigger] a.states[i]).start_groups == if i == 0 {
            seq![(0u32, None::<Seq<char>>)]
        } else {
            Seq::empty()
        }
    &&& forall|i: int|
        0 <= i <= w.len() ==> (#[trigger] a.states[i]).end_groups == if i == w.len() {
            seq![(0u32, None::<Seq<char>>)]
        } else {
            Seq::empty()
        }
}

/// The frame of the search at place `i` of a chain, with group 0 open.
pub open spec fn chain_frame(i: nat) -> FrameView {
    FrameView {
        pos: i,
        state: i as usize,
        visited: Seq::empty(),
        open: Set::<u32>::empty().insert(0),
    }
}

/// The search along a marked chain, from any place after the first, finds
/// the word as group 0.
pub proof fn lemma_marked_chain_explore(a: NfaView, w: Seq<char>, i: nat)
    requires
        is_marked_chain(a, w),
        1 <= i <= w.len(),
    ensures
        explore(a, w, true, chain_frame(i), opened()).found == Some(whole_match(w)),
    decreases w.len() - i,
{
    reveal_with_fuel(open_all, 2);
    reveal_with_fuel(close_all, 2);
    reveal_with_fuel(captures, 2);
    let f = chain_frame(i);
    let s = a.states[i as int];
    assert(s.start_groups == Seq::<(u32, Option<Seq<char>>)>::empty());
    if i == w.len() {
        assert(s.end_groups == seq![(0u32, None::<Seq<char>>)]);
        assert(s.is_ending);
        let closed = close_group(opened(), 0, i);
        assert(closed[0] == GroupSpan { index: 0, left: 0, right: Some(i), name: None });
        assert(w.subrange(0, i as int) =~= w);
        assert(captures(closed, 1, w) =~= whole_match(w));
    } else {
        assert(s.end_groups == Seq::<(u32, Option<Seq<char>>)>::empty());
        assert(!s.is_ending);
        assert(s.transitions == link(w[i as int], i as int + 1));
        let tr = s.transitions[0];
        let child = successor(a, w, f, f.open, tr);
        assert(child == Some(chain_frame(i + 1)));
        lemma_marked_chain_explore(a, w, i + 1);
        let rest = explore_from(a, w, true, f, f.open, opened(), 0);
        assert(rest.found == Some(whole_match(w)));
    }
}

/// The search of a marked chain for its own word finds the word as group 0.
pub proof fn lemma_marked_chain_search(a: NfaView, w: Seq<char>)
    requires
        is_marked_chain(a, w),
    ensures
        search(a, w, true) == Some(whole_match(w)),
{
    reveal_with_fuel(open_all, 2);
    reveal_with_fuel(close_all, 2);
    reveal_with_fuel(captures, 2);
    let f = first_frame(a);
    let s = a.states[0];
    let empty = Seq::<GroupSpan>::empty();
    assert(s.start_groups == seq![(0u32, None::<Seq<char>>)]);
    let o1 = f.open.insert(0u32);
    let s1 = open_group(empty, 0, None, 0);
    assert(s1 =~= opened());
    assert(o1 =~= Set::<u32>::empty().insert(0));
    if w.len() == 0 {
        assert(s.end_groups == seq![(0u32, None::<Seq<char>>)]);
        assert(s.is_ending);
        let closed = close_group(opened(), 0, 0);
        assert(closed[0] == GroupSpan { index: 0, left: 0, right: Some(0nat), name: None });
        assert(w.subrange(0, 0) =~= w);
        assert(captures(closed, 1, w) =~= whole_match(w));
    } else {
        assert(s.end_groups == Seq::<(u32, Option<Seq<char>>)>::empty());
        assert(!s.is_ending);
        assert(s.transitions == link(w[0], 1));
        let tr = s.transitions[0];
        let child = successor(a, w, f, o1, tr);
        assert(child == Some(chain_frame(1)));
        lemma_marked_chain_explore(a, w, 1);
        let rest = explore_from(a, w, true, f, o1, opened(), 0);
        assert(rest.found == Some(whole_match(w)));
    }
}

/// The automaton of a literal is a chain marked with group 0.
pub proof fn lemma_literal_marked(bytes: Seq<u8>)
    requires
        bytes.len() < usize::MAX,
    ensures
        is_marked_chain(literal_frag(bytes).mark_capture_group(0, None), text(bytes)),
{
    let plain = literal_frag(bytes);
    let a = plain.mark_capture_group(0, None);
    let w = text(bytes);
    let n = bytes.len();
    lemma_literal_chain(bytes);
    lemma_mark_capture_group(plain, 0, None);
    lemma_chain_same_graph(plain, a, w);
    reveal_with_fuel(NfaView::mark_endings, 2);
    let started = plain.mark_start(0, 0, None);
    assert(plain.ending =~= seq![n as usize]);
    assert(a == started.mark_end(n as usize, 0, None));
    assert forall|i: int| 0 <= i <= w.len() implies (#[trigger] a.states[i]).start_groups == if i
        == 0 {
        seq![(0u32, None::<Seq<char>>)]
    } else {
        Seq::empty()
    } by {
        assert(plain.states[i].start_groups == Seq::<(u32, Option<Seq<char>>)>::empty());
        if i == 0 {
            assert(a.states[i].start_groups =~= seq![(0u32, None::<Seq<char>>)]);
        }
    }
    assert forall|i: int| 0 <= i <= w.len() implies (#[trigger] a.states[i]).end_groups == if i
        == w.len() {
        seq![(0u32, None::<Seq<char>>)]
    } else {
        Seq::empty()
    } by {
        assert(plain.states[i].end_groups == Seq::<(u32, Option<Seq<char>>)>::empty());
        if i == w.len() {
            assert(a.states[i].end_groups =~= seq![(0u32, None::<Seq<char>>)]);
        }
    }
}

/// A literal matches its own text, and the match holds that text as group
/// 0 and nothing else.
pub proof fn lemma_literal_round_trip(literal: Vec<u8>)
    requires
        literal@.len() < usize::MAX,
    ensures
        search(compiled(Ir::Literal(literal)), text(literal@), true) == Some(
            whole_match(text(literal@)),
        ),
        accepts(compiled(Ir::Literal(literal)), text(literal@)),
{
    lemma_literal_marked(literal@);
    lemma_marked_chain_search(compiled(Ir::Literal(literal)), text(literal@));
    lemma_word_accepts(Ir::Literal(literal), text(literal@));
}

/// Two patterns that spell the same word accept the same inputs, however
/// the word is divided among concatenations and groups.
pub proof fn lemma_same_word_same_inputs(left: Ir, right: Ir, input: Seq<char>)
    requires
        word(left) is Some,
        word(left) == word(right),
        word(left)->0.len() < usize::MAX,
    ensures
        accepts(compiled(left), input) == accepts(compiled(right), input),
{
    lemma_word_accepts(left, input);
    lemma_word_accepts(right, input);
}

/// A pattern that spells a word, repeated exactly `n` times, accepts the
/// word written `n` times and nothing else: with `n` zero, the empty input
/// alone.
pub proof fn lemma_exact_repetition(sub: Ir, n: usize, input: Seq<char>)
    requires
        word(sub) is Some,
        power(word(sub)->0, n as nat).len() < usize::MAX,
    ensures
        accepts(compiled(Ir::Repetition { min: n, max: Some(n), sub: Box::new(sub) }), input)
            <==> input == power(word(sub)->0, n as nat),
{
    let ir = Ir::Repetition { min: n, max: Some(n), sub: Box::new(sub) };
    assert(word(ir) == Some(power(word(sub)->0, n as nat)));
    lemma_word_accepts(ir, input);
}

/// An alternation of two patterns accepts the inputs that the alternation
/// of the same two in the other order accepts.
pub proof fn lemma_alternation_commutes(left: Vec<Ir>, right: Vec<Ir>, input: Seq<char>)
    requires
        left@.len() == 2,
        right@ == seq![left@[1], left@[0]],
        build(Ir::Alternation(left)).states.len() <= usize::MAX,
    ensures
        accepts(compiled(Ir::Alternation(left)), input) == accepts(
            compiled(Ir::Alternation(right)),
            input,
        ),
{
    let a = build(left@[0]);
    let b = build(left@[1]);
    reveal_with_fuel(crate::fragment::build_each, 3);
    let frags = crate::fragment::build_each(left@, 2);
    assert(frags =~= seq![a, b]);
    assert(crate::fragment::build_each(right@, 2) =~= seq![b, a]);
    let plain_left = build(Ir::Alternation(left));
    let plain_right = build(Ir::Alternation(right));
    assert(plain_left == crate::fragment::alternate(seq![a, b]));
    assert(plain_right == crate::fragment::alternate(seq![b, a]));
    crate::built::lemma_junction_len(frags, 1);
    crate::built::lemma_junction_len(frags, 2);
    crate::built::lemma_close_len(crate::fragment::alternate_from(frags, 2));
    crate::built::lemma_build_fragment(left@[0]);
    crate::built::lemma_build_fragment(left@[1]);
    crate::alternation::lemma_alternate_two(a, b);
    crate::alternation::lemma_alternate_two(b, a);
    crate::alternation::lemma_alternate_commutes(a, b, input, true);
    lemma_mark_capture_group(plain_left, 0, None);
    lemma_mark_capture_group(plain_right, 0, None);
    crate::alternation::lemma_same_graph_accepts(plain_left, compiled(Ir::Alternation(left)), input, true);
    crate::alternation::lemma_same_graph_accepts(
        plain_right,
        compiled(Ir::Alternation(right)),
        input,
        true,
    );
}

/// Of the automaton of every pattern: one state, and one only, is flagged
/// initial; the ending states are the states flagged ending; and every
/// transition leads to a state of the automaton.
pub proof fn lemma_compiled_invariants(ir: Ir)
    requires
        build(ir).states.len() <= usize::MAX,
    ensures
        ({
            let a = compiled(ir);
            &&& a.initial < a.states.len()
            &&& forall|k: int|
                0 <= k < a.states.len() ==> (#[trigger] a.states[k].is_initial <==> k == a.initial)
            &&& forall|k: int|
                0 <= k < a.states.len() ==> (#[trigger] a.states[k].is_ending <==> listed(
                    a.ending,
                    k,
                ))
            &&& forall|i: int| 0 <= i < a.ending.len() ==> #[trigger] a.ending[i] < a.states.len()
            &&& forall|k: int, j: int|
                0 <= k < a.states.len() && 0 <= j < a.states[k].transitions.len() ==> (
                #[trigger] a.states[k].transitions[j]).1 < a.states.len()
        }),
{
    crate::built::lemma_compiled_fragment(ir);
    lemma_fragment_invariants(compiled(ir));
}

/// In the automaton of a pattern that can be passed, and in which the inside
/// of every group can be passed, a state that closes a group can be reached
/// from every state that opens it.
pub proof fn lemma_groups_can_close(ir: Ir, s: usize, g: u32)
    requires
        crate::groups::closable(ir),
        crate::groups::linked(build(ir)),
        build(ir).states.len() <= usize::MAX,
        crate::groups::opens_at(compiled(ir), s, g),
    ensures
        exists|t: usize|
            crate::groups::reaches(compiled(ir), s, t) && crate::groups::closes_at(
                compiled(ir),
                t,
                g,
            ),
{
    crate::groups::lemma_compiled_groups_close(ir);
    assert(crate::groups::can_close(compiled(ir), s, g));
}

/// A pattern whose classes have a range each, and whose alternations have a
/// child each that adds a state, can be passed, and so can the inside of
/// each of its groups.
pub proof fn lemma_passable_can_close(ir: Ir)
    requires
        crate::groups::passable(ir),
        build(ir).states.len() <= usize::MAX,
    ensures
        crate::groups::closable(ir),
        crate::groups::linked(build(ir)),
        crate::groups::groups_close(compiled(ir)),
{
    crate::groups::lemma_passable_closable(ir);
    crate::groups::lemma_build_sound(ir);
    crate::groups::lemma_compiled_groups_close(ir);
}

} // verus!
