//! Every pattern whose automaton does not outgrow the machine's indices gives
//! a fragment.
use crate::fragment::alternate_from;
use crate::fragment::build;
use crate::fragment::build_each;
use crate::fragment::bypass;
use crate::fragment::close_junction;
use crate::fragment::close_loop;
use crate::fragment::compiled;
use crate::fragment::concat_all;
use crate::fragment::is_fragment;
use crate::fragment::optional_copies;
use crate::fragment::repeat_splice;
use crate::fragment::splice;
use crate::fragment::unit;
use crate::ir::Ir;
use crate::matcher::MatcherKind;
use crate::nfa::name_view;
use crate::nfa::NfaView;
use crate::nfa_builder::lemma_build_each;
use crate::wellformed::is_junction;
use crate::wellformed::lemma_add_transition_fragment;
use crate::wellformed::lemma_append_len;
use crate::wellformed::lemma_class_fragment;
use crate::wellformed::lemma_close_junction;
use crate::wellformed::lemma_close_loop;
use crate::wellformed::lemma_fragment_rooted;
use crate::wellformed::lemma_junction_start;
use crate::wellformed::lemma_junction_step;
use crate::wellformed::lemma_literal_fragment;
use crate::wellformed::lemma_mark_capture_group;
use crate::wellformed::lemma_same_graph;
use crate::wellformed::lemma_splice_fragment;
use crate::wellformed::lemma_unit_fragment;
use vstd::prelude::*;

verus! {

/// The number of states of a concatenation grows with each child, and is
/// never less than that of a child.
pub proof fn lemma_concat_len(frags: Seq<NfaView>, n: nat)
    requires
        n <= frags.len(),
    ensures
        concat_all(frags, n).states.len() >= 1,
        n > 0 ==> concat_all(frags, n).states.len() >= concat_all(frags, (n - 1) as nat).states.len(),
        n > 0 ==> concat_all(frags, n).states.len() >= frags[n - 1].states.len(),
        n > 0 ==> concat_all(frags, n).states.len() == concat_all(
            frags,
            (n - 1) as nat,
        ).states.len() + crate::alternation::slots(frags[n - 1]),
    decreases n,
{
    if n > 0 {
        lemma_concat_len(frags, (n - 1) as nat);
        let prev = concat_all(frags, (n - 1) as nat);
        lemma_append_len(prev, frags[n - 1], prev.ending.last());
    }
}

/// The number of states of a junction grows with each child, and is never
/// less than that of a child.
pub proof fn lemma_junction_len(frags: Seq<NfaView>, n: nat)
    requires
        n <= frags.len(),
    ensures
        alternate_from(frags, n).states.len() >= 1,
        n > 0 ==> alternate_from(frags, n).states.len() >= alternate_from(
            frags,
            (n - 1) as nat,
        ).states.len(),
        n > 0 ==> alternate_from(frags, n).states.len() >= frags[n - 1].states.len(),
        n > 0 ==> alternate_from(frags, n).states.len() == alternate_from(
            frags,
            (n - 1) as nat,
        ).states.len() + crate::alternation::slots(frags[n - 1]),
    decreases n,
{
    if n > 0 {
        lemma_junction_len(frags, (n - 1) as nat);
        let prev = alternate_from(frags, (n - 1) as nat);
        lemma_append_len(prev, frags[n - 1], 0);
    }
}

/// The number of states of copies spliced one after the other grows with
/// each copy.
pub proof fn lemma_repeat_len(s: NfaView, k: nat, n: nat)
    requires
        k <= n,
    ensures
        repeat_splice(unit(), s, k).states.len() >= 1,
        repeat_splice(unit(), s, k).states.len() <= repeat_splice(unit(), s, n).states.len(),
        n > 0 ==> s.states.len() <= repeat_splice(unit(), s, n).states.len(),
    decreases n,
{
    if n > 0 {
        let prev = repeat_splice(unit(), s, (n - 1) as nat);
        lemma_append_len(prev, s, prev.ending.last());
        if k < n {
            lemma_repeat_len(s, k, (n - 1) as nat);
        } else {
            lemma_repeat_len(s, (n - 1) as nat, (n - 1) as nat);
        }
    }
}

/// Bypass transitions add no state.
pub proof fn lemma_bypass_len(a: NfaView, s: NfaView, min: nat, t: usize, n: nat)
    ensures
        bypass(a, s, min, t, n).states.len() == a.states.len(),
    decreases n,
{
    if n > 0 {
        lemma_bypass_len(a, s, min, t, (n - 1) as nat);
    }
}

/// Bypass transitions to a state that exists leave a fragment a fragment.
pub proof fn lemma_bypass_fragment(a: NfaView, s: NfaView, min: nat, t: usize, n: nat)
    requires
        is_fragment(a),
        t < a.states.len(),
    ensures
        is_fragment(bypass(a, s, min, t, n)),
        bypass(a, s, min, t, n).ending == a.ending,
        bypass(a, s, min, t, n).states.len() == a.states.len(),
    decreases n,
{
    if n > 0 {
        lemma_bypass_fragment(a, s, min, t, (n - 1) as nat);
        lemma_add_transition_fragment(
            bypass(a, s, min, t, (n - 1) as nat),
            repeat_splice(unit(), s, (min + n - 1) as nat).ending.last(),
            t,
            MatcherKind::Epsilon,
        );
    }
}

/// Copies of a fragment spliced one after the other give a fragment.
pub proof fn lemma_repeat_fragment(s: NfaView, n: nat)
    requires
        n > 0 ==> is_fragment(s),
        repeat_splice(unit(), s, n).states.len() <= usize::MAX,
    ensures
        is_fragment(repeat_splice(unit(), s, n)),
    decreases n,
{
    if n == 0 {
        lemma_unit_fragment();
    } else {
        lemma_repeat_len(s, (n - 1) as nat, n);
        lemma_repeat_fragment(s, (n - 1) as nat);
        let prev = repeat_splice(unit(), s, (n - 1) as nat);
        lemma_append_len(prev, s, prev.ending.last());
        lemma_splice_fragment(prev, s);
    }
}

/// The fragment of a pattern is a fragment as the builder makes them: it is
/// ready to run, one state and one only is flagged initial, the ending
/// states are the states flagged ending, and every transition leads to a
/// state of the fragment.
pub proof fn lemma_build_fragment(ir: Ir)
    requires
        build(ir).states.len() <= usize::MAX,
    ensures
        is_fragment(build(ir)),
    decreases ir, 0nat,
{
    match ir {
        Ir::Literal(bytes) => {
            assert(build(ir).states.len() == bytes@.len() + 1);
            lemma_literal_fragment(bytes@);
        },
        Ir::Class(ranges) => {
            lemma_class_fragment(ranges@);
        },
        Ir::Concat(children) => {
            lemma_concat_fragment(children@, children@.len());
        },
        Ir::Alternation(children) => {
            let frags = build_each(children@, children@.len());
            lemma_build_each(children@, children@.len());
            let spliced = alternate_from(frags, children@.len());
            lemma_junction_len(frags, children@.len());
            lemma_close_len(spliced);
            lemma_junction_fragment(children@, children@.len());
            lemma_close_junction(spliced);
        },
        Ir::Repetition { min, max, sub } => {
            let s = build(*sub);
            match max {
                Some(m) => {
                    let count = optional_copies(min as nat, m as nat);
                    let total = (min + count) as nat;
                    let full = repeat_splice(unit(), s, total);
                    lemma_bypass_len(full, s, min as nat, full.ending.last(), count);
                    lemma_repeat_len(s, total, total);
                    if total > 0 {
                        lemma_build_fragment(*sub);
                    }
                    lemma_repeat_fragment(s, total);
                    lemma_fragment_rooted(full);
                    lemma_bypass_fragment(full, s, min as nat, full.ending.last(), count);
                },
                None => {
                    let a = repeat_splice(unit(), s, min as nat);
                    let b = splice(a, s);
                    assert(b == repeat_splice(unit(), s, (min + 1) as nat));
                    lemma_loop_len(b, a.ending.last());
                    lemma_repeat_len(s, min as nat, (min + 1) as nat);
                    lemma_build_fragment(*sub);
                    lemma_repeat_fragment(s, (min + 1) as nat);
                    lemma_repeat_fragment(s, min as nat);
                    lemma_fragment_rooted(a);
                    lemma_close_loop(b, a.ending.last());
                },
            }
        },
        Ir::Capture { index, name, sub } => {
            lemma_mark_capture_group(build(*sub), index, name_view(name));
            lemma_build_fragment(*sub);
            lemma_same_graph(build(*sub), build(ir));
        },
        Ir::Unsupported => {
            lemma_unit_fragment();
        },
    }
}

/// A closed junction has one state more than the junction.
pub proof fn lemma_close_len(spliced: NfaView)
    ensures
        close_junction(spliced).states.len() == spliced.states.len() + 1,
{
    let t = spliced.states.len() as usize;
    lemma_join_len(spliced.add_state(), spliced.ending, t, spliced.ending.len());
}

/// Joining ending states to a state adds no state.
pub proof fn lemma_join_len(a: NfaView, endings: Seq<usize>, t: usize, n: nat)
    ensures
        crate::fragment::join_endings(a, endings, t, n).states.len() == a.states.len(),
    decreases n,
{
    if n > 0 && n <= endings.len() {
        lemma_join_len(a, endings, t, (n - 1) as nat);
    }
}

/// A closed loop has one state more than what it closes.
pub proof fn lemma_loop_len(b: NfaView, e0: usize)
    ensures
        close_loop(b, e0).states.len() == b.states.len() + 1,
{
}

/// The fragment of a concatenation is a fragment.
pub proof fn lemma_concat_fragment(children: Seq<Ir>, n: nat)
    requires
        n <= children.len(),
        concat_all(build_each(children, children.len()), n).states.len() <= usize::MAX,
    ensures
        is_fragment(concat_all(build_each(children, children.len()), n)),
    decreases children, n,
{
    let frags = build_each(children, children.len());
    lemma_build_each(children, children.len());
    if n == 0 {
        lemma_unit_fragment();
    } else {
        lemma_concat_len(frags, n);
        lemma_concat_len(frags, (n - 1) as nat);
        lemma_concat_fragment(children, (n - 1) as nat);
        lemma_build_fragment(children[n - 1]);
        lemma_splice_fragment(concat_all(frags, (n - 1) as nat), frags[n - 1]);
    }
}

/// The junction of an alternation is a junction.
pub proof fn lemma_junction_fragment(children: Seq<Ir>, n: nat)
    requires
        n <= children.len(),
        alternate_from(build_each(children, children.len()), n).states.len() <= usize::MAX,
    ensures
        is_junction(alternate_from(build_each(children, children.len()), n)),
    decreases children, n,
{
    let frags = build_each(children, children.len());
    lemma_build_each(children, children.len());
    if n == 0 {
        lemma_junction_start(frags);
    } else {
        lemma_junction_len(frags, n);
        lemma_junction_len(frags, (n - 1) as nat);
        lemma_junction_fragment(children, (n - 1) as nat);
        lemma_build_fragment(children[n - 1]);
        lemma_junction_step(alternate_from(frags, (n - 1) as nat), frags[n - 1]);
    }
}

/// The automaton of a whole pattern is a fragment too.
pub proof fn lemma_compiled_fragment(ir: Ir)
    requires
        build(ir).states.len() <= usize::MAX,
    ensures
        is_fragment(compiled(ir)),
{
    lemma_build_fragment(ir);
    lemma_mark_capture_group(build(ir), 0, None);
    lemma_same_graph(build(ir), compiled(ir));
}

} // verus!
