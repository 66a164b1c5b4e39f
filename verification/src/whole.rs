//! Group 0 of a match of a whole pattern is the whole input.
use crate::alternation::lemma_close_form;
use crate::built::lemma_bypass_fragment;
use crate::built::lemma_bypass_len;
use crate::built::lemma_close_len;
use crate::built::lemma_concat_len;
use crate::built::lemma_junction_len;
use crate::built::lemma_loop_len;
use crate::built::lemma_repeat_fragment;
use crate::built::lemma_repeat_len;
use crate::fragment::alternate_from;
use crate::fragment::build;
use crate::fragment::build_each;
use crate::fragment::bypass;
use crate::fragment::class_frag;
use crate::fragment::class_transitions;
use crate::fragment::close_junction;
use crate::fragment::close_loop;
use crate::fragment::concat_all;
use crate::fragment::entry_state;
use crate::fragment::exit_state;
use crate::fragment::is_fragment;
use crate::fragment::join_endings;
use crate::fragment::literal_chain;
use crate::fragment::literal_frag;
use crate::fragment::optional_copies;
use crate::fragment::repeat_splice;
use crate::fragment::splice;
use crate::fragment::unit;
use crate::ir::Ir;
use crate::matcher::MatcherKind;
use crate::nfa::name_view;
use crate::nfa::NfaView;
use crate::nfa_builder::lemma_build_each;
use crate::fragment::compiled;
use crate::search::accepting;
use crate::search::captures;
use crate::search::close_all;
use crate::search::close_group;
use crate::search::decimal;
use crate::search::explore;
use crate::search::explore_from;
use crate::search::first_frame;
use crate::search::lemma_unvisited_push;
use crate::search::open_all;
use crate::search::open_group;
use crate::search::search;
use crate::search::span_text;
use crate::search::store_has;
use crate::search::successor;
use crate::search::unvisited;
use crate::search::FrameView;
use crate::search::GroupSpan;
use crate::splice::lemma_append;
use crate::splice::remap;
use crate::wellformed::is_junction;
use crate::wellformed::lemma_append_inv;
use crate::wellformed::lemma_append_len;
use crate::wellformed::lemma_class_fragment;
use crate::wellformed::lemma_close_junction;
use crate::wellformed::lemma_close_loop;
use crate::wellformed::lemma_fragment_rooted;
use crate::wellformed::lemma_junction_start;
use crate::wellformed::lemma_junction_step;
use crate::wellformed::lemma_literal_fragment;
use crate::wellformed::lemma_mark_capture_group;
use crate::wellformed::lemma_same_graph;
use crate::wellformed::lemma_splice_fragment;
use crate::wellformed::lemma_unit_fragment;
use vstd::prelude::*;

verus! {

/// A marker of a group other than group 0, with a name, if it has one, other
/// than the key of group 0.
pub open spec fn mark_ok(m: (u32, Option<Seq<char>>)) -> bool {
    m.0 != 0 && m.1 != Some(decimal(0))
}

/// No marker of the automaton is one of group 0 or has the key of group 0
/// for its name.
pub open spec fn zero_free(a: NfaView) -> bool {
    &&& forall|s: int, i: int|
        0 <= s < a.states.len() && 0 <= i < a.states[s].start_groups.len() ==> mark_ok(
            #[trigger] a.states[s].start_groups[i],
        )
    &&& forall|s: int, i: int|
        0 <= s < a.states.len() && 0 <= i < a.states[s].end_groups.len() ==> mark_ok(
            #[trigger] a.states[s].end_groups[i],
        )
}

/// No transition leaves the ending state, unless it is the only state.
pub open spec fn tailed(a: NfaView) -> bool {
    a.states.len() == 1 || a.states[a.ending.last() as int].transitions.len() == 0
}

/// A fragment without a marker of group 0 and without a way out of its
/// ending state.
pub open spec fn neat(a: NfaView) -> bool {
    &&& is_fragment(a)
    &&& zero_free(a)
    &&& tailed(a)
}

/// The states of `b` carry the markers that the states of `a` carry, and no
/// others.
pub open spec fn same_marks(a: NfaView, b: NfaView) -> bool {
    &&& a.states.len() <= b.states.len()
    &&& forall|s: int|
        0 <= s < a.states.len() ==> (#[trigger] b.states[s]).start_groups == a.states[s].start_groups
            && b.states[s].end_groups == a.states[s].end_groups
    &&& forall|s: int|
        a.states.len() <= s < b.states.len() ==> (#[trigger] b.states[s]).start_groups.len() == 0
            && b.states[s].end_groups.len() == 0
}

/// Markers that are kept stay free of group 0.
pub proof fn lemma_same_marks_free(a: NfaView, b: NfaView)
    requires
        same_marks(a, b),
        zero_free(a),
    ensures
        zero_free(b),
{
    assert forall|s: int, i: int|
        0 <= s < b.states.len() && 0 <= i < b.states[s].start_groups.len() implies mark_ok(
        #[trigger] b.states[s].start_groups[i],
    ) by {
        assert(b.states[s].start_groups.len() > 0);
        assert(s < a.states.len());
        assert(mark_ok(a.states[s].start_groups[i]));
    }
    assert forall|s: int, i: int|
        0 <= s < b.states.len() && 0 <= i < b.states[s].end_groups.len() implies mark_ok(
        #[trigger] b.states[s].end_groups[i],
    ) by {
        assert(b.states[s].end_groups.len() > 0);
        assert(s < a.states.len());
        assert(mark_ok(a.states[s].end_groups[i]));
    }
}

/// Keeping the markers twice is keeping them.
pub proof fn lemma_same_marks_trans(a: NfaView, b: NfaView, c: NfaView)
    requires
        same_marks(a, b),
        same_marks(b, c),
    ensures
        same_marks(a, c),
{
    assert forall|s: int| 0 <= s < a.states.len() implies (#[trigger] c.states[s]).start_groups
        == a.states[s].start_groups && c.states[s].end_groups == a.states[s].end_groups by {
        assert(b.states[s].start_groups == a.states[s].start_groups);
    }
    assert forall|s: int| a.states.len() <= s < c.states.len() implies (
    #[trigger] c.states[s]).start_groups.len() == 0 && c.states[s].end_groups.len() == 0 by {
        if s < b.states.len() {
            assert(b.states[s].start_groups.len() == 0);
            assert(c.states[s].start_groups == b.states[s].start_groups);
        }
    }
}

/// A new state, a new transition and a changed ending flag keep the markers.
pub proof fn lemma_steps_keep_marks(a: NfaView, x: usize, y: usize, m: MatcherKind)
    ensures
        same_marks(a, a.add_state()),
        same_marks(a, a.add_transition(x, y, m)),
        same_marks(a, a.add_ending(x)),
        same_marks(a, a.remove_ending(x)),
{
}

/// A fragment without markers is free of group 0.
pub proof fn lemma_no_marks_free(a: NfaView)
    requires
        forall|s: int|
            0 <= s < a.states.len() ==> (#[trigger] a.states[s]).start_groups.len() == 0
                && a.states[s].end_groups.len() == 0,
    ensures
        zero_free(a),
{
    assert forall|s: int, i: int|
        0 <= s < a.states.len() && 0 <= i < a.states[s].start_groups.len() implies mark_ok(
        #[trigger] a.states[s].start_groups[i],
    ) by {
        assert(a.states[s].start_groups.len() == 0);
    }
    assert forall|s: int, i: int|
        0 <= s < a.states.len() && 0 <= i < a.states[s].end_groups.len() implies mark_ok(
        #[trigger] a.states[s].end_groups[i],
    ) by {
        assert(a.states[s].end_groups.len() == 0);
    }
}

/// The fragment of one state is neat.
pub proof fn lemma_unit_neat()
    ensures
        neat(unit()),
{
    lemma_unit_fragment();
    lemma_no_marks_free(unit());
}

/// The fragment of a literal is neat.
pub proof fn lemma_literal_neat(bytes: Seq<u8>)
    requires
        bytes.len() < usize::MAX,
    ensures
        neat(literal_frag(bytes)),
{
    let a = literal_frag(bytes);
    lemma_literal_fragment(bytes);
    lemma_no_marks_free(a);
    assert(a.ending =~= seq![bytes.len() as usize]);
    assert(literal_chain(bytes, bytes.len()).states[bytes.len() as int].transitions.len() == 0);
}

/// The fragment of a class is neat.
pub proof fn lemma_class_neat(ranges: Seq<(char, char)>)
    ensures
        neat(class_frag(ranges)),
{
    let a = class_frag(ranges);
    lemma_class_fragment(ranges);
    assert(a.states[0] == entry_state(class_transitions(ranges, ranges.len())));
    assert(a.states[1] == exit_state());
    lemma_no_marks_free(a);
}

/// A splice of automata free of group 0 is free of group 0.
pub proof fn lemma_append_free(a: NfaView, c: NfaView, union_state: usize)
    requires
        a.inv(),
        union_state < a.states.len(),
        is_fragment(c),
        c.states.len() >= 2,
        a.states.len() + c.states.len() - 1 <= usize::MAX,
        zero_free(a),
        zero_free(c),
    ensures
        zero_free(a.append(c, union_state)),
{
    let r = a.append(c, union_state);
    let base = a.states.len();
    lemma_fragment_rooted(c);
    lemma_append(a, c, union_state);
    assert forall|s: int, i: int|
        0 <= s < r.states.len() && 0 <= i < r.states[s].start_groups.len() implies mark_ok(
        #[trigger] r.states[s].start_groups[i],
    ) by {
        if s < base && s != union_state {
            assert(r.states[s] == a.states[s]);
            assert(mark_ok(a.states[s].start_groups[i]));
        } else if s == union_state {
            let own = a.states[s].start_groups;
            if i < own.len() {
                assert(mark_ok(own[i]));
            } else {
                assert(mark_ok(c.states[0].start_groups[i - own.len()]));
            }
        } else {
            let k = s - base + 1;
            assert(r.states[base + k - 1].start_groups == c.states[k].start_groups);
            assert(mark_ok(c.states[k].start_groups[i]));
        }
    }
    assert forall|s: int, i: int|
        0 <= s < r.states.len() && 0 <= i < r.states[s].end_groups.len() implies mark_ok(
        #[trigger] r.states[s].end_groups[i],
    ) by {
        if s < base && s != union_state {
            assert(r.states[s] == a.states[s]);
            assert(mark_ok(a.states[s].end_groups[i]));
        } else if s == union_state {
            let own = a.states[s].end_groups;
            if i < own.len() {
                assert(mark_ok(own[i]));
            } else {
                assert(mark_ok(c.states[0].end_groups[i - own.len()]));
            }
        } else {
            let k = s - base + 1;
            assert(r.states[base + k - 1].end_groups == c.states[k].end_groups);
            assert(mark_ok(c.states[k].end_groups[i]));
        }
    }
}

/// A neat fragment spliced onto a neat fragment is neat.
pub proof fn lemma_splice_neat(a: NfaView, c: NfaView)
    requires
        neat(a),
        neat(c),
        a.states.len() + c.states.len() - 1 <= usize::MAX,
    ensures
        neat(splice(a, c)),
{
    lemma_splice_fragment(a, c);
    if c.states.len() >= 2 {
        let u = a.ending.last();
        let r = splice(a, c);
        let base = a.states.len();
        lemma_fragment_rooted(a);
        lemma_fragment_rooted(c);
        lemma_append_free(a, c, u);
        lemma_append_inv(a, c, u);
        lemma_append(a, c, u);
        let e = c.ending[0];
        assert(r.ending.last() == base + e - 1);
        assert(r.states[base + e - 1].transitions == remap(
            c,
            base as nat,
            u,
            c.states[e as int].transitions,
        ));
    } else {
        lemma_append_len(a, c, a.ending.last());
    }
}

/// A neat fragment inside a group other than group 0 is neat.
pub proof fn lemma_capture_neat(a: NfaView, index: u32, name: Option<Seq<char>>)
    requires
        neat(a),
        mark_ok((index, name)),
    ensures
        neat(a.mark_capture_group(index, name)),
{
    let b = a.mark_capture_group(index, name);
    lemma_mark_capture_group(a, index, name);
    lemma_same_graph(a, b);
    lemma_fragment_rooted(a);
    reveal_with_fuel(NfaView::mark_endings, 2);
    let e = a.ending[0];
    let b1 = a.mark_start(a.initial, index, name);
    assert(b == b1.mark_end(e, index, name));
    assert forall|s: int, i: int|
        0 <= s < b.states.len() && 0 <= i < b.states[s].start_groups.len() implies mark_ok(
        #[trigger] b.states[s].start_groups[i],
    ) by {
        if i < a.states[s].start_groups.len() {
            assert(mark_ok(a.states[s].start_groups[i]));
        }
    }
    assert forall|s: int, i: int|
        0 <= s < b.states.len() && 0 <= i < b.states[s].end_groups.len() implies mark_ok(
        #[trigger] b.states[s].end_groups[i],
    ) by {
        if i < a.states[s].end_groups.len() {
            assert(mark_ok(a.states[s].end_groups[i]));
        }
    }
    assert(b.states[e as int].transitions == a.states[e as int].transitions);
}

/// Joining ending states to a state keeps the markers.
pub proof fn lemma_join_keeps_marks(a: NfaView, endings: Seq<usize>, t: usize, n: nat)
    ensures
        same_marks(a, join_endings(a, endings, t, n)),
    decreases n,
{
    if n > 0 && n <= endings.len() {
        lemma_join_keeps_marks(a, endings, t, (n - 1) as nat);
        let prev = join_endings(a, endings, t, (n - 1) as nat);
        let linked = prev.add_transition(endings[n - 1], t, MatcherKind::Epsilon);
        let r = linked.remove_ending(endings[n - 1]);
        lemma_steps_keep_marks(prev, endings[n - 1], t, MatcherKind::Epsilon);
        lemma_steps_keep_marks(linked, endings[n - 1], t, MatcherKind::Epsilon);
        lemma_same_marks_trans(prev, linked, r);
        lemma_same_marks_trans(a, prev, r);
    }
}

/// A closed junction free of group 0 is neat.
pub proof fn lemma_close_neat(j: NfaView)
    requires
        is_junction(j),
        zero_free(j),
        j.states.len() < usize::MAX,
    ensures
        neat(close_junction(j)),
{
    let r = close_junction(j);
    let t = j.states.len() as usize;
    lemma_close_junction(j);
    lemma_close_form(j);
    let opened = j.add_state();
    let joined = join_endings(opened, j.ending, t, j.ending.len());
    lemma_steps_keep_marks(j, 0, 0, MatcherKind::Epsilon);
    lemma_join_keeps_marks(opened, j.ending, t, j.ending.len());
    lemma_steps_keep_marks(joined, t, 0, MatcherKind::Epsilon);
    lemma_same_marks_trans(j, opened, joined);
    lemma_same_marks_trans(j, joined, r);
    lemma_same_marks_free(j, r);
    lemma_fragment_rooted(r);
    assert(r.ending.last() == t) by {
        let e = r.ending[0];
        if e != t {
            assert(r.states[e as int].is_ending);
        }
    }
}

/// A fragment spliced in at the initial state of a junction free of group 0
/// leaves it free of group 0.
pub proof fn lemma_junction_neat(j: NfaView, c: NfaView)
    requires
        is_junction(j),
        zero_free(j),
        neat(c),
        j.states.len() + crate::alternation::slots(c) <= usize::MAX,
    ensures
        is_junction(j.append(c, 0)),
        zero_free(j.append(c, 0)),
{
    lemma_append_len(j, c, 0);
    lemma_junction_step(j, c);
    if c.states.len() >= 2 {
        lemma_append_free(j, c, 0);
    }
}

/// The ending state of more copies lies beyond the ending state of fewer.
pub proof fn lemma_repeat_ending(s: NfaView, k: nat, n: nat)
    requires
        is_fragment(s),
        s.states.len() >= 2,
        k < n,
        repeat_splice(unit(), s, n).states.len() <= usize::MAX,
    ensures
        repeat_splice(unit(), s, k).ending.last() < repeat_splice(unit(), s, n).ending.last(),
    decreases n,
{
    let prev = repeat_splice(unit(), s, (n - 1) as nat);
    lemma_repeat_len(s, (n - 1) as nat, n);
    lemma_repeat_fragment(s, (n - 1) as nat);
    lemma_append_len(prev, s, prev.ending.last());
    lemma_fragment_rooted(prev);
    lemma_fragment_rooted(s);
    lemma_append_inv(prev, s, prev.ending.last());
    if k < n - 1 {
        lemma_repeat_ending(s, k, (n - 1) as nat);
    }
}

/// Bypass transitions that leave other states leave the transitions of a
/// state as they are, and keep the markers.
pub proof fn lemma_bypass_keeps(a: NfaView, s: NfaView, min: nat, t: usize, n: nat, e: usize)
    requires
        forall|i: nat| 1 <= i <= n ==> #[trigger] repeat_splice(unit(), s, (min + i - 1) as nat).ending.last() != e,
        e < a.states.len(),
    ensures
        bypass(a, s, min, t, n).states[e as int].transitions == a.states[e as int].transitions,
        same_marks(a, bypass(a, s, min, t, n)),
        bypass(a, s, min, t, n).states.len() == a.states.len(),
    decreases n,
{
    if n > 0 {
        lemma_bypass_keeps(a, s, min, t, (n - 1) as nat, e);
        let prev = bypass(a, s, min, t, (n - 1) as nat);
        let from = repeat_splice(unit(), s, (min + n - 1) as nat).ending.last();
        assert(from != e);
        lemma_steps_keep_marks(prev, from, t, MatcherKind::Epsilon);
        lemma_same_marks_trans(a, prev, prev.add_transition(from, t, MatcherKind::Epsilon));
    }
}

/// Bypass transitions keep the markers.
pub proof fn lemma_bypass_keeps_marks(a: NfaView, s: NfaView, min: nat, t: usize, n: nat)
    ensures
        same_marks(a, bypass(a, s, min, t, n)),
    decreases n,
{
    if n > 0 {
        lemma_bypass_keeps_marks(a, s, min, t, (n - 1) as nat);
        let prev = bypass(a, s, min, t, (n - 1) as nat);
        let from = repeat_splice(unit(), s, (min + n - 1) as nat).ending.last();
        lemma_steps_keep_marks(prev, from, t, MatcherKind::Epsilon);
        lemma_same_marks_trans(a, prev, prev.add_transition(from, t, MatcherKind::Epsilon));
    }
}

/// Copies of a neat fragment spliced one after the other are neat.
pub proof fn lemma_repeat_neat(s: NfaView, n: nat)
    requires
        n > 0 ==> neat(s),
        repeat_splice(unit(), s, n).states.len() <= usize::MAX,
    ensures
        neat(repeat_splice(unit(), s, n)),
    decreases n,
{
    if n == 0 {
        lemma_unit_neat();
    } else {
        lemma_repeat_len(s, (n - 1) as nat, n);
        lemma_repeat_neat(s, (n - 1) as nat);
        let prev = repeat_splice(unit(), s, (n - 1) as nat);
        lemma_append_len(prev, s, prev.ending.last());
        lemma_splice_neat(prev, s);
    }
}

/// A closed loop over a neat fragment is neat.
pub proof fn lemma_loop_neat(b: NfaView, e0: usize)
    requires
        neat(b),
        e0 < b.states.len(),
        b.states.len() < usize::MAX,
    ensures
        neat(close_loop(b, e0)),
{
    let r = close_loop(b, e0);
    lemma_close_loop(b, e0);
    lemma_fragment_rooted(b);
    let e1 = b.ending.last();
    let t = b.states.len() as usize;
    let r0 = b.remove_ending(e1);
    let r1 = r0.add_state();
    let r2 = r1.add_transition(e1, e0, MatcherKind::Epsilon);
    let r3 = r2.add_transition(e1, t, MatcherKind::Epsilon);
    let r4 = r3.add_transition(e0, e1, MatcherKind::Epsilon);
    let r5 = r4.add_ending(t);
    assert(r == r5);
    lemma_steps_keep_marks(b, e1, 0, MatcherKind::Epsilon);
    lemma_steps_keep_marks(r0, 0, 0, MatcherKind::Epsilon);
    lemma_steps_keep_marks(r1, e1, e0, MatcherKind::Epsilon);
    lemma_steps_keep_marks(r2, e1, t, MatcherKind::Epsilon);
    lemma_steps_keep_marks(r3, e0, e1, MatcherKind::Epsilon);
    lemma_steps_keep_marks(r4, t, 0, MatcherKind::Epsilon);
    lemma_same_marks_trans(b, r0, r1);
    lemma_same_marks_trans(b, r1, r2);
    lemma_same_marks_trans(b, r2, r3);
    lemma_same_marks_trans(r3, r4, r5);
    lemma_same_marks_trans(b, r3, r5);
    lemma_same_marks_free(b, r);
    lemma_fragment_rooted(r);
    assert(r.ending =~= seq![t]);
    assert(r.states[t as int].transitions.len() == 0);
}

/// A pattern without a group 0 and without a group named as the key of
/// group 0.
pub open spec fn zero_free_ir(ir: Ir) -> bool
    decreases ir, 0nat,
{
    match ir {
        Ir::Concat(children) => all_zero_free(children@, children@.len()),
        Ir::Alternation(children) => all_zero_free(children@, children@.len()),
        Ir::Repetition { min, max, sub } => zero_free_ir(*sub),
        Ir::Capture { index, name, sub } => mark_ok((index, name_view(name))) && zero_free_ir(*sub),
        _ => true,
    }
}

/// The first `n` of `children` are without a group 0.
pub open spec fn all_zero_free(children: Seq<Ir>, n: nat) -> bool
    decreases children, n,
{
    n == 0 || n > children.len() || (all_zero_free(children, (n - 1) as nat) && zero_free_ir(
        children[n - 1],
    ))
}

/// The fragment of a pattern without a group 0 is neat.
pub proof fn lemma_build_neat(ir: Ir)
    requires
        zero_free_ir(ir),
        build(ir).states.len() <= usize::MAX,
    ensures
        neat(build(ir)),
    decreases ir, 0nat,
{
    match ir {
        Ir::Literal(bytes) => {
            assert(build(ir).states.len() == bytes@.len() + 1);
            lemma_literal_neat(bytes@);
        },
        Ir::Class(ranges) => {
            lemma_class_neat(ranges@);
        },
        Ir::Concat(children) => {
            lemma_concat_neat(children@, children@.len());
        },
        Ir::Alternation(children) => {
            let frags = build_each(children@, children@.len());
            lemma_build_each(children@, children@.len());
            let spliced = alternate_from(frags, children@.len());
            lemma_junction_len(frags, children@.len());
            lemma_close_len(spliced);
            lemma_junction_all_neat(children@, children@.len());
            lemma_close_neat(spliced);
        },
        Ir::Repetition { min, max, sub } => {
            let s = build(*sub);
            match max {
                Some(m) => {
                    let count = optional_copies(min as nat, m as nat);
                    let total = (min + count) as nat;
                    let full = repeat_splice(unit(), s, total);
                    let t = full.ending.last();
                    lemma_bypass_len(full, s, min as nat, t, count);
                    lemma_repeat_len(s, total, total);
                    if total > 0 {
                        lemma_build_neat(*sub);
                    }
                    lemma_repeat_neat(s, total);
                    lemma_fragment_rooted(full);
                    lemma_bypass_fragment(full, s, min as nat, t, count);
                    lemma_bypass_keeps_marks(full, s, min as nat, t, count);
                    lemma_same_marks_free(full, bypass(full, s, min as nat, t, count));
                    if full.states.len() >= 2 {
                        if s.states.len() < 2 {
                            lemma_repeat_trivial(s, total);
                        }
                        assert forall|i: nat| 1 <= i <= count implies #[trigger] repeat_splice(
                            unit(),
                            s,
                            (min + i - 1) as nat,
                        ).ending.last() != t by {
                            lemma_repeat_ending(s, (min + i - 1) as nat, total);
                        }
                        lemma_bypass_keeps(full, s, min as nat, t, count, t);
                    }
                },
                None => {
                    let a = repeat_splice(unit(), s, min as nat);
                    let b = splice(a, s);
                    assert(b == repeat_splice(unit(), s, (min + 1) as nat));
                    lemma_loop_len(b, a.ending.last());
                    lemma_repeat_len(s, min as nat, (min + 1) as nat);
                    lemma_build_neat(*sub);
                    lemma_repeat_neat(s, (min + 1) as nat);
                    lemma_repeat_fragment(s, min as nat);
                    lemma_fragment_rooted(a);
                    lemma_loop_neat(b, a.ending.last());
                },
            }
        },
        Ir::Capture { index, name, sub } => {
            lemma_mark_capture_group(build(*sub), index, name_view(name));
            lemma_build_neat(*sub);
            lemma_capture_neat(build(*sub), index, name_view(name));
        },
        Ir::Unsupported => {
            lemma_unit_neat();
        },
    }
}

/// Copies of a fragment of one state add no state.
pub proof fn lemma_repeat_trivial(s: NfaView, n: nat)
    requires
        s.states.len() < 2,
    ensures
        repeat_splice(unit(), s, n) == unit(),
    decreases n,
{
    if n > 0 {
        lemma_repeat_trivial(s, (n - 1) as nat);
        lemma_append_len(unit(), s, unit().ending.last());
    }
}

/// The fragment of a concatenation of patterns without a group 0 is neat.
pub proof fn lemma_concat_neat(children: Seq<Ir>, n: nat)
    requires
        n <= children.len(),
        all_zero_free(children, n),
        concat_all(build_each(children, children.len()), n).states.len() <= usize::MAX,
    ensures
        neat(concat_all(build_each(children, children.len()), n)),
    decreases children, n,
{
    let frags = build_each(children, children.len());
    lemma_build_each(children, children.len());
    if n == 0 {
        lemma_unit_neat();
    } else {
        lemma_concat_len(frags, n);
        lemma_concat_len(frags, (n - 1) as nat);
        lemma_concat_neat(children, (n - 1) as nat);
        lemma_build_neat(children[n - 1]);
        lemma_splice_neat(concat_all(frags, (n - 1) as nat), frags[n - 1]);
    }
}

/// The junction of an alternation of patterns without a group 0 is free of
/// group 0.
pub proof fn lemma_junction_all_neat(children: Seq<Ir>, n: nat)
    requires
        n <= children.len(),
        all_zero_free(children, n),
        alternate_from(build_each(children, children.len()), n).states.len() <= usize::MAX,
    ensures
        is_junction(alternate_from(build_each(children, children.len()), n)),
        zero_free(alternate_from(build_each(children, children.len()), n)),
    decreases children, n,
{
    let frags = build_each(children, children.len());
    lemma_build_each(children, children.len());
    if n == 0 {
        lemma_junction_start(frags);
        let j = alternate_from(frags, 0);
        assert(j.states[0] == entry_state(Seq::empty()));
        lemma_no_marks_free(j);
    } else {
        lemma_junction_len(frags, n);
        lemma_junction_len(frags, (n - 1) as nat);
        lemma_junction_all_neat(children, (n - 1) as nat);
        lemma_build_neat(children[n - 1]);
        lemma_junction_neat(alternate_from(frags, (n - 1) as nat), frags[n - 1]);
    }
}

/// The decimal numeral of a number has a digit.
pub proof fn lemma_decimal_len(n: nat)
    ensures
        decimal(n).len() >= 1,
    decreases n,
{
    if n >= 10 {
        lemma_decimal_len(n / 10);
    }
}

/// No number but zero has the numeral of zero.
pub proof fn lemma_decimal_zero(g: nat)
    requires
        g != 0,
    ensures
        decimal(g) != decimal(0),
{
    assert(decimal(0).len() == 1);
    assert(decimal(0)[0] == '0');
    if g < 10 {
        assert(decimal(g)[0] != '0');
    } else {
        lemma_decimal_len(g / 10);
        assert(decimal(g).len() >= 2);
    }
}

/// An entry of the record of groups that group 0, if it is its entry,
/// opened at the beginning of the input, and that is not named as the key
/// of group 0.
pub open spec fn ok_entry(e: GroupSpan) -> bool {
    (e.index == 0 ==> e.left == 0) && e.name != Some(decimal(0))
}

/// A record of groups whose entries are all in order.
pub open spec fn ok_store(store: Seq<GroupSpan>) -> bool {
    forall|i: int| 0 <= i < store.len() ==> ok_entry(#[trigger] store[i])
}

/// A marker of a whole pattern: one of group 0 without a name where
/// `zero` says so, else one of another group.
pub open spec fn mark_fits(m: (u32, Option<Seq<char>>), zero: bool) -> bool {
    if zero {
        m == (0u32, None::<Seq<char>>)
    } else {
        mark_ok(m)
    }
}

/// The automaton of a whole pattern: a fragment with no way out of its
/// ending state, whose last start marker at the initial state and whose
/// last end marker at the ending state are those of group 0, and whose
/// other markers are of other groups.
pub open spec fn wrapped(a: NfaView) -> bool {
    &&& is_fragment(a)
    &&& tailed(a)
    &&& a.states[0].start_groups.len() >= 1
    &&& a.states[a.ending.last() as int].end_groups.len() >= 1
    &&& forall|s: int, i: int|
        0 <= s < a.states.len() && 0 <= i < a.states[s].start_groups.len() ==> mark_fits(
            #[trigger] a.states[s].start_groups[i],
            s == 0 && i == a.states[0].start_groups.len() - 1,
        )
    &&& forall|s: int, i: int|
        0 <= s < a.states.len() && 0 <= i < a.states[s].end_groups.len() ==> mark_fits(
            #[trigger] a.states[s].end_groups[i],
            s == a.ending.last() && i == a.states[s].end_groups.len() - 1,
        )
}

/// A neat fragment inside group 0 is the automaton of a whole pattern.
pub proof fn lemma_wrap(a: NfaView)
    requires
        neat(a),
    ensures
        wrapped(a.mark_capture_group(0, None)),
{
    let b = a.mark_capture_group(0, None);
    lemma_mark_capture_group(a, 0, None);
    lemma_same_graph(a, b);
    lemma_fragment_rooted(a);
    reveal_with_fuel(NfaView::mark_endings, 2);
    let e = a.ending[0];
    let b1 = a.mark_start(a.initial, 0, None);
    assert(b == b1.mark_end(e, 0, None));
    assert(b.states[e as int].transitions == a.states[e as int].transitions);
    assert forall|s: int, i: int|
        0 <= s < b.states.len() && 0 <= i < b.states[s].start_groups.len() implies mark_fits(
        #[trigger] b.states[s].start_groups[i],
        s == 0 && i == b.states[0].start_groups.len() - 1,
    ) by {
        if i < a.states[s].start_groups.len() {
            assert(mark_ok(a.states[s].start_groups[i]));
        }
    }
    assert forall|s: int, i: int|
        0 <= s < b.states.len() && 0 <= i < b.states[s].end_groups.len() implies mark_fits(
        #[trigger] b.states[s].end_groups[i],
        s == b.ending.last() && i == b.states[s].end_groups.len() - 1,
    ) by {
        if i < a.states[s].end_groups.len() {
            assert(mark_ok(a.states[s].end_groups[i]));
        }
    }
}

/// Start markers of which only the last may be that of group 0 leave the
/// record of groups in order, with an entry for group 0 if there was one or
/// if the marker of group 0 is among them, and leave open what was open and
/// what they open.
pub proof fn lemma_open_all(
    marks: Seq<(u32, Option<Seq<char>>)>,
    n: nat,
    pos: nat,
    open: Set<u32>,
    store: Seq<GroupSpan>,
    last_zero: bool,
)
    requires
        n <= marks.len(),
        ok_store(store),
        forall|i: int| 0 <= i < marks.len() ==> mark_fits(#[trigger] marks[i], last_zero && i == marks.len() - 1),
        last_zero ==> pos == 0 || store_has(store, 0),
    ensures
        ({
            let (o, s) = open_all(marks, n, pos, open, store);
            &&& ok_store(s)
            &&& (store_has(store, 0) ==> store_has(s, 0))
            &&& (open.contains(0) ==> o.contains(0))
            &&& (last_zero && n == marks.len() && n > 0 ==> o.contains(0) && store_has(s, 0))
        }),
    decreases n,
{
    if n > 0 {
        lemma_open_all(marks, (n - 1) as nat, pos, open, store, last_zero);
        let (o, s) = open_all(marks, (n - 1) as nat, pos, open, store);
        let m = marks[n - 1];
        let grown = open_group(s, m.0, m.1, pos);
        assert(mark_fits(m, last_zero && n - 1 == marks.len() - 1));
        if store_has(s, m.0) {
        } else {
            let e = GroupSpan { index: m.0, left: pos, right: None, name: m.1 };
            assert(grown == s.push(e));
            if m.0 == 0 {
                assert(!store_has(store, 0));
            }
            assert(ok_entry(e));
            assert forall|i: int| 0 <= i < grown.len() implies ok_entry(#[trigger] grown[i]) by {
                if i < s.len() {
                    assert(ok_entry(s[i]));
                }
            }
            if store_has(s, 0) {
                let i = choose|i: int| 0 <= i < s.len() && (#[trigger] s[i]).index == 0;
                assert(grown[i].index == 0);
            }
            if m.0 == 0 {
                assert(grown[s.len() as int].index == 0);
            }
        }
    }
}

/// End markers leave the record of groups in order and with the entries it
/// had; those of other groups than group 0 leave group 0 as it is.
pub proof fn lemma_close_all(
    marks: Seq<(u32, Option<Seq<char>>)>,
    n: nat,
    pos: nat,
    open: Set<u32>,
    store: Seq<GroupSpan>,
)
    requires
        n <= marks.len(),
        ok_store(store),
    ensures
        ({
            let (o, s) = close_all(marks, n, pos, open, store);
            &&& ok_store(s)
            &&& s.len() == store.len()
            &&& forall|i: int| 0 <= i < s.len() ==> (#[trigger] s[i]).index == store[i].index
            &&& ((forall|i: int| 0 <= i < n ==> (#[trigger] marks[i]).0 != 0) ==> o.contains(0)
                == open.contains(0))
        }),
    decreases n,
{
    if n > 0 {
        lemma_close_all(marks, (n - 1) as nat, pos, open, store);
        let (o, s) = close_all(marks, (n - 1) as nat, pos, open, store);
        let g = marks[n - 1].0;
        let closed = close_group(s, g, pos);
        assert forall|i: int| 0 <= i < closed.len() implies ok_entry(#[trigger] closed[i]) by {
            assert(ok_entry(s[i]));
        }
        if forall|i: int| 0 <= i < n ==> (#[trigger] marks[i]).0 != 0 {
            assert(marks[n - 1].0 != 0);
            assert(forall|i: int| 0 <= i < n - 1 ==> (#[trigger] marks[i]).0 != 0);
        }
    }
}

/// A record of groups has an entry for a group if a record with the same
/// groups has.
pub proof fn lemma_store_has_same(a: Seq<GroupSpan>, b: Seq<GroupSpan>, g: u32)
    requires
        a.len() == b.len(),
        forall|i: int| 0 <= i < a.len() ==> (#[trigger] a[i]).index == b[i].index,
        store_has(b, g),
    ensures
        store_has(a, g),
{
    let i = choose|i: int| 0 <= i < b.len() && (#[trigger] b[i]).index == g;
    assert(a[i].index == g);
}

/// The captures of a record in order, in which every entry of group 0
/// spans the whole input, hold the whole input under the key of group 0.
pub proof fn lemma_captures_zero(store: Seq<GroupSpan>, n: nat, input: Seq<char>)
    requires
        n <= store.len(),
        ok_store(store),
        forall|i: int|
            0 <= i < store.len() && (#[trigger] store[i]).index == 0 ==> span_text(input, store[i])
                == Some(input),
    ensures
        (exists|i: int| 0 <= i < n && (#[trigger] store[i]).index == 0) ==> captures(
            store,
            n,
            input,
        ).contains_key(decimal(0)) && captures(store, n, input)[decimal(0)] == input,
    decreases n,
{
    if n > 0 {
        lemma_captures_zero(store, (n - 1) as nat, input);
        let e = store[n - 1];
        assert(ok_entry(e));
        if exists|i: int| 0 <= i < n && (#[trigger] store[i]).index == 0 {
            let i = choose|i: int| 0 <= i < n && (#[trigger] store[i]).index == 0;
            if e.index == 0 {
                assert(span_text(input, e) == Some(input));
            } else {
                assert(i < n - 1);
                assert(store[i].index == 0);
                lemma_decimal_zero(e.index as nat);
            }
        }
    }
}

/// The search from a frame of the automaton of a whole pattern, at which
/// group 0 is open or opens, finds nothing or a match that holds the whole
/// input as group 0.
pub proof fn lemma_explore_whole(a: NfaView, input: Seq<char>, f: FrameView, store: Seq<GroupSpan>)
    requires
        wrapped(a),
        ok_store(store),
        f.state == 0 || f.open.contains(0),
        store_has(store, 0) || (f.state == 0 && f.pos == 0),
    ensures
        ({
            let r = explore(a, input, true, f, store);
            &&& ok_store(r.store)
            &&& (f.state < a.states.len() && f.pos <= input.len() ==> store_has(r.store, 0))
            &&& (store_has(store, 0) ==> store_has(r.store, 0))
            &&& (r.found matches Some(m) ==> m.contains_key(decimal(0)) && m[decimal(0)] == input)
        }),
    decreases input.len() - f.pos, unvisited(f.visited, a.states.len()), a.states[f.state as int].transitions.len()
        + 1,
{
    if f.state < a.states.len() && f.pos <= input.len() {
        lemma_fragment_rooted(a);
        let t = a.ending[0];
        let s = a.states[f.state as int];
        let starts = s.start_groups;
        let ends = s.end_groups;
        let (o1, s1) = open_all(starts, starts.len(), f.pos, f.open, store);
        lemma_open_all(starts, starts.len(), f.pos, f.open, store, f.state == 0);
        assert(o1.contains(0));
        assert(store_has(s1, 0));
        let (o2, s2) = close_all(ends, ends.len(), f.pos, o1, s1);
        lemma_close_all(ends, ends.len(), f.pos, o1, s1);
        lemma_store_has_same(s2, s1, 0);
        if f.state == t {
            let n = ends.len();
            let (o3, s3) = close_all(ends, (n - 1) as nat, f.pos, o1, s1);
            lemma_close_all(ends, (n - 1) as nat, f.pos, o1, s1);
            assert forall|i: int| 0 <= i < n - 1 implies (#[trigger] ends[i]).0 != 0 by {
                assert(mark_fits(ends[i], false));
            }
            assert(mark_fits(ends[n - 1], true));
            assert(o3.contains(0));
            assert(s2 == close_group(s3, 0, f.pos));
            assert(o2 == o3.remove(0));
            if accepting(a, input, true, f) {
                assert forall|i: int|
                    0 <= i < s2.len() && (#[trigger] s2[i]).index == 0 implies span_text(input, s2[i])
                    == Some(input) by {
                    assert(ok_entry(s3[i]));
                    assert(s2[i].right == Some(f.pos));
                    assert(input.subrange(0, input.len() as int) =~= input);
                }
                lemma_captures_zero(s2, s2.len(), input);
            } else {
                lemma_explore_from_whole(a, input, f, o2, s2, 0);
            }
        } else {
            assert(!s.is_ending);
            assert forall|i: int| 0 <= i < ends.len() implies (#[trigger] ends[i]).0 != 0 by {
                assert(mark_fits(ends[i], false));
            }
            assert(o2.contains(0));
            lemma_explore_from_whole(a, input, f, o2, s2, 0);
        }
    }
}

/// The search through the transitions of a frame of the automaton of a
/// whole pattern finds nothing or a match that holds the whole input as
/// group 0.
pub proof fn lemma_explore_from_whole(
    a: NfaView,
    input: Seq<char>,
    f: FrameView,
    open: Set<u32>,
    store: Seq<GroupSpan>,
    k: nat,
)
    requires
        wrapped(a),
        ok_store(store),
        store_has(store, 0),
        open.contains(0) || a.states.len() == 1 || a.states[f.state as int].transitions.len() == 0,
    ensures
        ({
            let r = explore_from(a, input, true, f, open, store, k);
            &&& ok_store(r.store)
            &&& store_has(r.store, 0)
            &&& (r.found matches Some(m) ==> m.contains_key(decimal(0)) && m[decimal(0)] == input)
        }),
    decreases input.len() - f.pos, unvisited(f.visited, a.states.len()), a.states[f.state as int].transitions.len()
        - k,
{
    if f.state < a.states.len() && f.pos <= input.len() && k
        < a.states[f.state as int].transitions.len() {
        let tr = a.states[f.state as int].transitions[k as int];
        match successor(a, input, f, open, tr) {
            None => {
                lemma_explore_from_whole(a, input, f, open, store, k + 1);
            },
            Some(c) => {
                lemma_unvisited_push(f.visited, tr.1, a.states.len());
                lemma_explore_whole(a, input, c, store);
                let first = explore(a, input, true, c, store);
                if first.found is None {
                    lemma_explore_from_whole(a, input, f, open, first.store, k + 1);
                }
            },
        }
    }
}

/// A match of a whole pattern that has no group 0 inside it, and no group
/// named as the key of group 0, holds the whole input under the key of
/// group 0.
pub proof fn lemma_group_zero_is_whole_input(ir: Ir, input: Seq<char>)
    requires
        zero_free_ir(ir),
        build(ir).states.len() <= usize::MAX,
    ensures
        search(compiled(ir), input, true) matches Some(m) ==> m.contains_key(decimal(0)) && m[decimal(
            0,
        )] == input,
{
    lemma_build_neat(ir);
    lemma_wrap(build(ir));
    let a = compiled(ir);
    let empty = Seq::<GroupSpan>::empty();
    lemma_explore_whole(a, input, first_frame(a), empty);
}

} // verus!
