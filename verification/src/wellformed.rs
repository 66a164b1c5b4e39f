//! The invariant of an automaton under each operation, and the shape of the
//! fragments that the builder makes.
use crate::fragment::alternate_from;
use crate::fragment::class_frag;
use crate::fragment::is_fragment;
use crate::fragment::join_endings;
use crate::fragment::literal_chain;
use crate::fragment::literal_frag;
use crate::fragment::splice;
use crate::fragment::step_frag;
use crate::fragment::unit;
use crate::matcher::MatcherKind;
use crate::nfa::lemma_fill_state;
use crate::nfa::listed;
use crate::nfa::without;
use crate::nfa::NfaView;
use crate::splice::lemma_append;
use crate::splice::lemma_graft_state;
use crate::splice::lemma_without;
use crate::splice::rooted;
use vstd::prelude::*;

verus! {

/// Two automata with the same states, flags and transitions; their markers
/// may differ.
pub open spec fn same_graph(a: NfaView, b: NfaView) -> bool {
    &&& a.states.len() == b.states.len()
    &&& a.initial == b.initial
    &&& a.ending == b.ending
    &&& forall|j: int|
        0 <= j < a.states.len() ==> (#[trigger] a.states[j]).transitions == b.states[j].transitions
            && a.states[j].is_initial == b.states[j].is_initial && a.states[j].is_ending
            == b.states[j].is_ending
}

/// The invariant and the shape of a fragment depend on the graph alone.
pub proof fn lemma_same_graph(a: NfaView, b: NfaView)
    requires
        same_graph(a, b),
    ensures
        a.targets_valid() ==> b.targets_valid(),
        a.inv() ==> b.inv(),
        a.wf() ==> b.wf(),
        is_fragment(a) ==> is_fragment(b),
        a.runnable() ==> b.runnable(),
{
    if a.targets_valid() {
        assert forall|k: int, j: int|
            0 <= k < b.states.len() && 0 <= j < b.states[k].transitions.len() implies (
        #[trigger] b.states[k].transitions[j]).1 < b.states.len() by {
            assert(a.states[k].transitions == b.states[k].transitions);
            assert(a.states[k].transitions[j].1 < a.states.len());
        }
    }
    if a.inv() {
        assert forall|k: int| 0 <= k < b.states.len() implies ((#[trigger] b.states[k]).is_ending
            <==> listed(b.ending, k)) by {
            assert(a.states[k].is_ending <==> listed(a.ending, k));
        }
        assert forall|k: int| 0 <= k < b.states.len() && (#[trigger] b.states[k]).is_initial implies k
            == b.initial by {
            assert(a.states[k].is_initial);
        }
    }
    if a.wf() {
        assert(a.states[a.initial as int].is_initial);
    }
}

/// A blank state keeps the invariant.
pub proof fn lemma_add_state_inv(a: NfaView)
    requires
        a.inv(),
    ensures
        a.add_state().inv(),
{
    let r = a.add_state();
    assert forall|k: int, j: int|
        0 <= k < r.states.len() && 0 <= j < r.states[k].transitions.len() implies (
    #[trigger] r.states[k].transitions[j]).1 < r.states.len() by {
        assert(a.states[k].transitions[j].1 < a.states.len());
    }
    assert forall|k: int| 0 <= k < r.states.len() implies ((#[trigger] r.states[k]).is_ending
        <==> listed(r.ending, k)) by {
        if k < a.states.len() {
            assert(a.states[k].is_ending <==> listed(a.ending, k));
        } else {
            if listed(a.ending, k) {
                let i = choose|i: int| 0 <= i < a.ending.len() && a.ending[i] == k;
                assert(a.ending[i] < a.states.len());
            }
        }
    }
    assert forall|k: int| 0 <= k < r.states.len() && (#[trigger] r.states[k]).is_initial implies k
        == r.initial by {
        assert(a.states[k].is_initial);
    }
}

/// A transition to a state that exists keeps the invariant.
pub proof fn lemma_add_transition_inv(a: NfaView, from: usize, to: usize, m: MatcherKind)
    requires
        a.inv(),
        to < a.states.len(),
    ensures
        a.add_transition(from, to, m).inv(),
{
    let r = a.add_transition(from, to, m);
    if from < a.states.len() {
        assert forall|k: int, j: int|
            0 <= k < r.states.len() && 0 <= j < r.states[k].transitions.len() implies (
        #[trigger] r.states[k].transitions[j]).1 < r.states.len() by {
            if k == from && j == a.states[k].transitions.len() {
            } else {
                assert(a.states[k].transitions[j].1 < a.states.len());
            }
        }
        assert forall|k: int| 0 <= k < r.states.len() implies ((#[trigger] r.states[k]).is_ending
            <==> listed(r.ending, k)) by {
            assert(a.states[k].is_ending <==> listed(a.ending, k));
        }
        assert forall|k: int| 0 <= k < r.states.len() && (#[trigger] r.states[k]).is_initial implies k
            == r.initial by {
            assert(a.states[k].is_initial);
        }
    }
}

/// A transition to a state that exists, put first, keeps the invariant.
pub proof fn lemma_unshift_transition_inv(a: NfaView, from: usize, to: usize, m: MatcherKind)
    requires
        a.inv(),
        to < a.states.len(),
    ensures
        a.unshift_transition(from, to, m).inv(),
{
    let r = a.unshift_transition(from, to, m);
    if from < a.states.len() {
        assert forall|k: int, j: int|
            0 <= k < r.states.len() && 0 <= j < r.states[k].transitions.len() implies (
        #[trigger] r.states[k].transitions[j]).1 < r.states.len() by {
            if k == from {
                if j > 0 {
                    assert(a.states[k].transitions[j - 1].1 < a.states.len());
                }
            } else {
                assert(a.states[k].transitions[j].1 < a.states.len());
            }
        }
        assert forall|k: int| 0 <= k < r.states.len() implies ((#[trigger] r.states[k]).is_ending
            <==> listed(r.ending, k)) by {
            assert(a.states[k].is_ending <==> listed(a.ending, k));
        }
        assert forall|k: int| 0 <= k < r.states.len() && (#[trigger] r.states[k]).is_initial implies k
            == r.initial by {
            assert(a.states[k].is_initial);
        }
    }
}

/// An ending state more keeps the invariant.
pub proof fn lemma_add_ending_inv(a: NfaView, id: usize)
    requires
        a.inv(),
    ensures
        a.add_ending(id).inv(),
{
    let r = a.add_ending(id);
    if id < a.states.len() {
        assert forall|k: int, j: int|
            0 <= k < r.states.len() && 0 <= j < r.states[k].transitions.len() implies (
        #[trigger] r.states[k].transitions[j]).1 < r.states.len() by {
            assert(a.states[k].transitions[j].1 < a.states.len());
        }
        assert forall|k: int| 0 <= k < r.states.len() && (#[trigger] r.states[k]).is_initial implies k
            == r.initial by {
            assert(a.states[k].is_initial);
        }
        assert(a.states[id as int].is_ending <==> listed(a.ending, id as int));
        if a.ending.contains(id) {
            let i = choose|i: int| 0 <= i < a.ending.len() && a.ending[i] == id;
            assert(listed(a.ending, id as int));
            assert forall|k: int| 0 <= k < r.states.len() implies ((#[trigger] r.states[k]).is_ending
                <==> listed(r.ending, k)) by {
                assert(a.states[k].is_ending <==> listed(a.ending, k));
            }
        } else {
            assert(!listed(a.ending, id as int)) by {
                if listed(a.ending, id as int) {
                    let i = choose|i: int| 0 <= i < a.ending.len() && a.ending[i] == id;
                    assert(a.ending.contains(id));
                }
            }
            assert forall|k: int| 0 <= k < r.states.len() implies ((#[trigger] r.states[k]).is_ending
                <==> listed(r.ending, k)) by {
                assert(a.states[k].is_ending <==> listed(a.ending, k));
                if listed(a.ending, k) {
                    let i = choose|i: int| 0 <= i < a.ending.len() && a.ending[i] == k;
                    assert(r.ending[i] == k);
                }
                if listed(r.ending, k) && k != id {
                    let i = choose|i: int| 0 <= i < r.ending.len() && r.ending[i] == k;
                    assert(i < a.ending.len());
                    assert(a.ending[i] == k);
                }
                if k == id {
                    assert(r.ending[a.ending.len() as int] == id);
                }
            }
            assert forall|i: int, j: int|
                0 <= i < r.ending.len() && 0 <= j < r.ending.len() && i != j implies r.ending[i]
                != r.ending[j] by {
                if i < a.ending.len() && j < a.ending.len() {
                } else if i < a.ending.len() {
                    assert(a.ending[i] != id);
                } else {
                    assert(a.ending[j] != id);
                }
            }
        }
    }
}

/// An ending state less keeps the invariant.
pub proof fn lemma_remove_ending_inv(a: NfaView, id: usize)
    requires
        a.inv(),
    ensures
        a.remove_ending(id).inv(),
{
    let r = a.remove_ending(id);
    if id < a.states.len() {
        lemma_without(a.ending, id);
        assert forall|k: int, j: int|
            0 <= k < r.states.len() && 0 <= j < r.states[k].transitions.len() implies (
        #[trigger] r.states[k].transitions[j]).1 < r.states.len() by {
            assert(a.states[k].transitions[j].1 < a.states.len());
        }
        assert forall|k: int| 0 <= k < r.states.len() && (#[trigger] r.states[k]).is_initial implies k
            == r.initial by {
            assert(a.states[k].is_initial);
        }
        assert forall|k: int| 0 <= k < r.states.len() implies ((#[trigger] r.states[k]).is_ending
            <==> listed(r.ending, k)) by {
            assert(a.states[k].is_ending <==> listed(a.ending, k));
        }
        assert forall|i: int| 0 <= i < r.ending.len() implies #[trigger] r.ending[i]
            < r.states.len() by {
            assert(listed(r.ending, r.ending[i] as int));
            assert(listed(a.ending, r.ending[i] as int));
            let j = choose|j: int| 0 <= j < a.ending.len() && a.ending[j] == r.ending[i];
            assert(a.ending[j] < a.states.len());
        }
    }
}

/// Another initial state keeps the invariant, and an initial state that
/// exists makes the automaton ready to run.
pub proof fn lemma_set_initial_inv(a: NfaView, id: usize)
    requires
        a.inv(),
    ensures
        a.set_initial(id).inv(),
        id < a.states.len() ==> a.set_initial(id).wf(),
{
    let r = a.set_initial(id);
    if id < a.states.len() {
        assert forall|k: int, j: int|
            0 <= k < r.states.len() && 0 <= j < r.states[k].transitions.len() implies (
        #[trigger] r.states[k].transitions[j]).1 < r.states.len() by {
            assert(a.states[k].transitions[j].1 < a.states.len());
        }
        assert forall|k: int| 0 <= k < r.states.len() implies ((#[trigger] r.states[k]).is_ending
            <==> listed(r.ending, k)) by {
            assert(a.states[k].is_ending <==> listed(a.ending, k));
        }
        assert forall|k: int| 0 <= k < r.states.len() && (#[trigger] r.states[k]).is_initial implies k
            == r.initial by {
            if k != id {
                assert(a.states[k].is_initial);
            }
        }
    }
}

/// Blank states keep the invariant.
pub proof fn lemma_fill_state_inv(a: NfaView, number: nat)
    requires
        a.inv(),
    ensures
        a.fill_state(number).inv(),
    decreases number,
{
    if number > 0 {
        lemma_fill_state_inv(a, (number - 1) as nat);
        lemma_add_state_inv(a.fill_state((number - 1) as nat));
    }
}

/// A start marker changes no transition, flag or ending state.
pub proof fn lemma_mark_start(a: NfaView, state: usize, index: u32, name: Option<Seq<char>>)
    ensures
        same_graph(a, a.mark_start(state, index, name)),
{
}

/// An end marker changes no transition, flag or ending state.
pub proof fn lemma_mark_end(a: NfaView, state: usize, index: u32, name: Option<Seq<char>>)
    ensures
        same_graph(a, a.mark_end(state, index, name)),
{
}

/// The end markers of a group change no transition, flag or ending state.
pub proof fn lemma_mark_endings(a: NfaView, index: u32, name: Option<Seq<char>>, n: nat)
    ensures
        same_graph(a, a.mark_endings(index, name, n)),
    decreases n,
{
    if n == 0 || n > a.ending.len() {
    } else {
        lemma_mark_endings(a, index, name, (n - 1) as nat);
        let p = a.mark_endings(index, name, (n - 1) as nat);
        lemma_mark_end(p, a.ending[n - 1], index, name);
    }
}

/// Marking a group changes no transition, flag or ending state.
pub proof fn lemma_mark_capture_group(a: NfaView, index: u32, name: Option<Seq<char>>)
    ensures
        same_graph(a, a.mark_capture_group(index, name)),
{
    let s = a.mark_start(a.initial, index, name);
    lemma_mark_start(a, a.initial, index, name);
    lemma_mark_endings(s, index, name, a.ending.len());
}

/// The fragment of one state is a fragment.
pub proof fn lemma_unit_fragment()
    ensures
        is_fragment(unit()),
{
    let u = unit();
    assert(u.ending.no_duplicates());
    assert(u.ending[0] == 0);
    assert(listed(u.ending, 0));
}

/// The fragment of one step is a fragment.
pub proof fn lemma_step_fragment(c: Option<char>)
    ensures
        is_fragment(step_frag(c)),
{
    let u = step_frag(c);
    assert(u.ending.no_duplicates());
    assert(u.ending[0] == 1);
    assert(listed(u.ending, 1));
    assert(!listed(u.ending, 0));
    assert(u.states.len() == 2);
    assert(u.states[0] == crate::fragment::entry_state(seq![(crate::fragment::step_label(c), 1usize)]));
    assert(u.states[1] == crate::fragment::exit_state());
    assert forall|k: int, j: int|
        0 <= k < u.states.len() && 0 <= j < u.states[k].transitions.len() implies (
    #[trigger] u.states[k].transitions[j]).1 < u.states.len() by {
        assert(k == 0 && j == 0);
    }
}

/// The fragment of a literal is a fragment, with one state more than the
/// literal has bytes.
pub proof fn lemma_literal_fragment(bytes: Seq<u8>)
    requires
        bytes.len() < usize::MAX,
    ensures
        is_fragment(literal_frag(bytes)),
        literal_frag(bytes).states.len() == bytes.len() + 1,
{
    let u = literal_frag(bytes);
    let n = bytes.len();
    assert(u.ending =~= seq![n as usize]);
    assert(u.ending.no_duplicates());
    assert(u.ending[0] == n);
    assert forall|k: int| 0 <= k < u.states.len() implies ((#[trigger] u.states[k]).is_ending
        <==> listed(u.ending, k)) by {
        if k == n {
            assert(u.ending[0] == k);
        }
    }
    assert forall|k: int, j: int|
        0 <= k < u.states.len() && 0 <= j < u.states[k].transitions.len() implies (
    #[trigger] u.states[k].transitions[j]).1 < u.states.len() by {
        assert(literal_chain(bytes, n).states[k].transitions[j].1 == k + 1);
    }
}

/// The fragment of a class is a fragment.
pub proof fn lemma_class_fragment(ranges: Seq<(char, char)>)
    ensures
        is_fragment(class_frag(ranges)),
{
    let u = class_frag(ranges);
    assert(u.ending.no_duplicates());
    assert(u.ending[0] == 1);
    assert(listed(u.ending, 1));
    assert(!listed(u.ending, 0));
    assert(u.states.len() == 2);
    assert(u.states[0] == crate::fragment::entry_state(
        crate::fragment::class_transitions(ranges, ranges.len()),
    ));
    assert(u.states[1] == crate::fragment::exit_state());
    assert forall|k: int, j: int|
        0 <= k < u.states.len() && 0 <= j < u.states[k].transitions.len() implies (
    #[trigger] u.states[k].transitions[j]).1 < u.states.len() by {
        assert(k == 0);
        assert(crate::fragment::class_transitions(ranges, ranges.len())[j].1 == 1);
    }
}

/// The states of a grafted automaton stay as many as they were.
pub proof fn lemma_graft_len(acc: NfaView, other: NfaView, base: nat, union_state: usize, n: nat)
    ensures
        acc.graft_states(other, base, union_state, n).states.len() == acc.states.len(),
        acc.graft_endings(other, base, union_state, n).states.len() == acc.states.len(),
    decreases n,
{
    if n > 0 {
        lemma_graft_len(acc, other, base, union_state, (n - 1) as nat);
        if n <= other.states.len() {
            lemma_graft_state(
                acc.graft_states(other, base, union_state, (n - 1) as nat),
                other,
                base,
                union_state,
                n - 1,
            );
        }
    }
}

/// A splice adds the states of the spliced automaton but its initial one.
pub proof fn lemma_append_len(a: NfaView, c: NfaView, union_state: usize)
    ensures
        c.states.len() < 2 ==> a.append(c, union_state) == a,
        c.states.len() >= 2 ==> a.append(c, union_state).states.len() == a.states.len()
            + c.states.len() - 1,
{
    if c.states.len() >= 2 {
        let base = a.states.len();
        lemma_fill_state(a, (c.states.len() - 1) as nat);
        let cleared = a.fill_state((c.states.len() - 1) as nat).remove_ending(union_state);
        lemma_graft_len(cleared, c, base, union_state, c.ending.len());
        let ended = cleared.graft_endings(c, base, union_state, c.ending.len());
        lemma_graft_len(ended, c, base, union_state, c.states.len());
    }
}

/// A fragment is rooted, and its one ending state is the one flagged state.
pub proof fn lemma_fragment_rooted(c: NfaView)
    requires
        is_fragment(c),
    ensures
        rooted(c),
        c.ending[0] < c.states.len(),
        c.states[c.ending[0] as int].is_ending,
        forall|k: int| 0 <= k < c.states.len() && (#[trigger] c.states[k]).is_ending ==> k == c.ending[0],
{
    assert(listed(c.ending, c.ending[0] as int));
    assert forall|k: int| 0 <= k < c.states.len() && (#[trigger] c.states[k]).is_ending implies k
        == c.ending[0] by {
        assert(listed(c.ending, k));
    }
}

/// A transition with its target under the mapping.
pub open spec fn remapped(c: NfaView, base: nat, union_state: usize, t: (MatcherKind, usize)) -> (
    MatcherKind,
    usize,
) {
    (t.0, NfaView::graft_index(c, base, union_state, t.1 as int))
}

/// What a splice of a fragment with two states or more leaves: the
/// invariant, the initial state and its flag, and as ending states those that
/// were, but for `union_state`, and the ending state of the fragment in
/// its new place.
pub proof fn lemma_append_inv(a: NfaView, c: NfaView, union_state: usize)
    requires
        a.inv(),
        union_state < a.states.len(),
        is_fragment(c),
        c.states.len() >= 2,
        a.states.len() + c.states.len() - 1 <= usize::MAX,
    ensures
        ({
            let r = a.append(c, union_state);
            &&& r.inv()
            &&& r.initial == a.initial
            &&& r.states.len() == a.states.len() + c.states.len() - 1
            &&& r.ending == without(a.ending, union_state).push(
                (a.states.len() + c.ending[0] - 1) as usize,
            )
            &&& forall|j: int|
                0 <= j < a.states.len() ==> (#[trigger] r.states[j]).is_initial
                    == a.states[j].is_initial
            &&& !r.states[union_state as int].is_ending
        }),
{
    let r = a.append(c, union_state);
    let base = a.states.len();
    let e = c.ending[0];
    lemma_fragment_rooted(c);
    lemma_append(a, c, union_state);
    lemma_without(a.ending, union_state);
    assert(!c.states[e as int].is_initial);
    assert forall|j: int| 0 <= j < a.states.len() implies (#[trigger] r.states[j]).is_initial
        == a.states[j].is_initial by {
        if j != union_state {
            assert(r.states[j] == a.states[j]);
        }
    }
    assert forall|k: int, j: int|
        0 <= k < r.states.len() && 0 <= j < r.states[k].transitions.len() implies (
    #[trigger] r.states[k].transitions[j]).1 < r.states.len() by {
        if k < base && k != union_state {
            assert(r.states[k] == a.states[k]);
            assert(a.states[k].transitions[j].1 < a.states.len());
        } else if k == union_state {
            let own = a.states[k].transitions;
            if j < own.len() {
                assert(own[j].1 < a.states.len());
            } else {
                let t = c.states[0].transitions[j - own.len()];
                assert(t.1 < c.states.len());
                assert(r.states[k].transitions[j] == remapped(c, base, union_state, t));
                if t.1 != 0 {
                    assert(!c.states[t.1 as int].is_initial);
                }
            }
        } else {
            let src = k - base + 1;
            assert(r.states[base + src - 1].transitions == crate::splice::remap(
                c,
                base,
                union_state,
                c.states[src].transitions,
            ));
            let t = c.states[src].transitions[j];
            assert(t.1 < c.states.len());
            assert(r.states[k].transitions[j] == remapped(c, base, union_state, t));
            if t.1 != 0 {
                assert(!c.states[t.1 as int].is_initial);
            }
        }
    }
    let w = without(a.ending, union_state);
    let fresh = (base + e - 1) as usize;
    assert(r.ending == w.push(fresh));
    assert forall|i: int| 0 <= i < w.len() implies #[trigger] w[i] < base && w[i] != union_state by {
        assert(listed(w, w[i] as int));
        assert(listed(a.ending, w[i] as int));
        let x = choose|x: int| 0 <= x < a.ending.len() && a.ending[x] == w[i];
        assert(a.ending[x] < a.states.len());
    }
    assert forall|i: int| 0 <= i < r.ending.len() implies #[trigger] r.ending[i]
        < r.states.len() by {
        if i < w.len() {
            assert(w[i] < base);
        }
    }
    assert forall|i: int, j: int|
        0 <= i < r.ending.len() && 0 <= j < r.ending.len() && i != j implies r.ending[i]
        != r.ending[j] by {
        if i < w.len() && j < w.len() {
        } else if i < w.len() {
            assert(w[i] < base);
        } else {
            assert(w[j] < base);
        }
    }
    assert forall|k: int| 0 <= k < r.states.len() implies ((#[trigger] r.states[k]).is_ending
        <==> listed(r.ending, k)) by {
        if k < base && k != union_state {
            assert(r.states[k] == a.states[k]);
            assert(a.states[k].is_ending <==> listed(a.ending, k));
            assert(listed(w, k) <==> listed(a.ending, k));
            if listed(w, k) {
                let i = choose|i: int| 0 <= i < w.len() && w[i] == k;
                assert(r.ending[i] == k);
            }
            if listed(r.ending, k) {
                let i = choose|i: int| 0 <= i < r.ending.len() && r.ending[i] == k;
                assert(w[i] == k);
            }
        } else if k == union_state {
            if listed(r.ending, k) {
                let i = choose|i: int| 0 <= i < r.ending.len() && r.ending[i] == k;
                if i < w.len() {
                    assert(w[i] != union_state);
                }
            }
        } else {
            let src = k - base + 1;
            assert(r.states[base + src - 1].is_ending == c.states[src].is_ending);
            if c.states[src].is_ending {
                assert(src == e);
                assert(r.ending[w.len() as int] == k);
            }
            if listed(r.ending, k) {
                let i = choose|i: int| 0 <= i < r.ending.len() && r.ending[i] == k;
                if i < w.len() {
                    assert(w[i] < base);
                }
            }
        }
    }
    assert forall|k: int| 0 <= k < r.states.len() && (#[trigger] r.states[k]).is_initial implies k
        == r.initial by {
        if k < base {
            assert(a.states[k].is_initial);
        } else {
            let src = k - base + 1;
            assert(!r.states[base + src - 1].is_initial);
        }
    }
}

/// A fragment spliced onto a fragment gives a fragment.
pub proof fn lemma_splice_fragment(a: NfaView, c: NfaView)
    requires
        is_fragment(a),
        is_fragment(c),
        a.states.len() + c.states.len() - 1 <= usize::MAX,
    ensures
        is_fragment(splice(a, c)),
        splice(a, c).states.len() == a.states.len() + c.states.len() - 1,
{
    if c.states.len() >= 2 {
        lemma_fragment_rooted(a);
        lemma_fragment_rooted(c);
        lemma_append_inv(a, c, a.ending[0]);
        lemma_without(a.ending, a.ending[0]);
        let w = without(a.ending, a.ending[0]);
        assert(w.len() == 0) by {
            if w.len() > 0 {
                assert(listed(w, w[0] as int));
                assert(listed(a.ending, w[0] as int));
                let i = choose|i: int| 0 <= i < a.ending.len() && a.ending[i] == w[0];
            }
        }
        let r = splice(a, c);
        assert(r.states[0].is_initial == a.states[0].is_initial);
    }
}

/// Taking the first of a list without repetitions out of it leaves the
/// rest.
pub proof fn lemma_without_first(s: Seq<usize>)
    requires
        s.no_duplicates(),
        s.len() > 0,
    ensures
        without(s, s[0]) == s.skip(1),
    decreases s.len(),
{
    if s.len() == 1 {
        assert(without(s.drop_last(), s[0]) =~= Seq::<usize>::empty());
        assert(without(s, s[0]) =~= s.skip(1));
    } else {
        let init = s.drop_last();
        assert(init.no_duplicates());
        assert(init[0] == s[0]);
        lemma_without_first(init);
        assert(s.last() != s[0]);
        assert(init.skip(1).push(s.last()) =~= s.skip(1));
    }
}

/// An added transition to a state that exists leaves a fragment a fragment.
pub proof fn lemma_add_transition_fragment(a: NfaView, from: usize, to: usize, m: MatcherKind)
    requires
        is_fragment(a),
        to < a.states.len(),
    ensures
        is_fragment(a.add_transition(from, to, m)),
        a.add_transition(from, to, m).ending == a.ending,
        a.add_transition(from, to, m).states.len() == a.states.len(),
{
    lemma_add_transition_inv(a, from, to, m);
}

/// An alternation under construction: the initial state is the first state
/// and is no ending state.
pub open spec fn is_junction(a: NfaView) -> bool {
    &&& a.inv()
    &&& a.initial == 0
    &&& a.states.len() >= 1
    &&& a.states[0].is_initial
    &&& !a.states[0].is_ending
    &&& a.states.len() <= usize::MAX
}

/// One initial state alone is a junction.
pub proof fn lemma_junction_start(frags: Seq<NfaView>)
    ensures
        is_junction(alternate_from(frags, 0)),
{
    let a = alternate_from(frags, 0);
    assert(a.states[0] == crate::fragment::entry_state(Seq::empty()));
    assert(a.ending.no_duplicates());
}

/// A fragment spliced in at the initial state of a junction leaves a
/// junction.
pub proof fn lemma_junction_step(a: NfaView, c: NfaView)
    requires
        is_junction(a),
        is_fragment(c),
        a.states.len() + c.states.len() - 1 <= usize::MAX,
    ensures
        is_junction(a.append(c, 0)),
{
    if c.states.len() >= 2 {
        lemma_append_inv(a, c, 0);
        let r = a.append(c, 0);
        assert(r.states[0].is_initial == a.states[0].is_initial);
    }
}

/// Joining the first `n` ending states to `t` leaves the others as ending
/// states, and leaves the invariant and the initial flags.
pub proof fn lemma_join_endings(a: NfaView, t: usize, n: nat)
    requires
        a.inv(),
        t < a.states.len(),
        n <= a.ending.len(),
    ensures
        ({
            let r = join_endings(a, a.ending, t, n);
            &&& r.inv()
            &&& r.ending == a.ending.skip(n as int)
            &&& r.states.len() == a.states.len()
            &&& r.initial == a.initial
            &&& forall|j: int|
                0 <= j < a.states.len() ==> (#[trigger] r.states[j]).is_initial
                    == a.states[j].is_initial
        }),
    decreases n,
{
    if n == 0 {
        assert(a.ending.skip(0) =~= a.ending);
    } else {
        lemma_join_endings(a, t, (n - 1) as nat);
        let prev = join_endings(a, a.ending, t, (n - 1) as nat);
        let e = a.ending[n - 1];
        let linked = prev.add_transition(e, t, MatcherKind::Epsilon);
        lemma_add_transition_inv(prev, e, t, MatcherKind::Epsilon);
        lemma_remove_ending_inv(linked, e);
        let rest = a.ending.skip(n - 1);
        assert(rest[0] == e);
        assert(rest.no_duplicates());
        lemma_without_first(rest);
        assert(rest.skip(1) =~= a.ending.skip(n as int));
        assert(e < a.states.len());
        let r = join_endings(a, a.ending, t, n);
        assert(r == linked.remove_ending(e));
        assert forall|j: int| 0 <= j < a.states.len() implies (#[trigger] r.states[j]).is_initial
            == a.states[j].is_initial by {
            assert(prev.states[j].is_initial == a.states[j].is_initial);
        }
    }
}

/// A closed junction is a fragment.
pub proof fn lemma_close_junction(spliced: NfaView)
    requires
        is_junction(spliced),
        spliced.states.len() < usize::MAX,
    ensures
        is_fragment(crate::fragment::close_junction(spliced)),
        crate::fragment::close_junction(spliced).states.len() == spliced.states.len() + 1,
{
    let t = spliced.states.len() as usize;
    let opened = spliced.add_state();
    lemma_add_state_inv(spliced);
    lemma_join_endings(opened, t, opened.ending.len());
    let joined = join_endings(opened, opened.ending, t, opened.ending.len());
    assert(joined.ending =~= Seq::<usize>::empty());
    lemma_add_ending_inv(joined, t);
    let r = joined.add_ending(t);
    assert(r.ending =~= seq![t]);
    assert(joined.states[0].is_initial == opened.states[0].is_initial);
    assert(r.states[0].is_initial);
}

/// A closed loop is a fragment.
pub proof fn lemma_close_loop(b: NfaView, e0: usize)
    requires
        is_fragment(b),
        e0 < b.states.len(),
        b.states.len() < usize::MAX,
    ensures
        is_fragment(crate::fragment::close_loop(b, e0)),
        crate::fragment::close_loop(b, e0).states.len() == b.states.len() + 1,
{
    lemma_fragment_rooted(b);
    let e1 = b.ending.last();
    let t = b.states.len() as usize;
    let r0 = b.remove_ending(e1);
    lemma_remove_ending_inv(b, e1);
    lemma_without_first(b.ending);
    assert(r0.ending =~= Seq::<usize>::empty());
    let r1 = r0.add_state();
    lemma_add_state_inv(r0);
    let r2 = r1.add_transition(e1, e0, MatcherKind::Epsilon);
    lemma_add_transition_inv(r1, e1, e0, MatcherKind::Epsilon);
    let r3 = r2.add_transition(e1, t, MatcherKind::Epsilon);
    lemma_add_transition_inv(r2, e1, t, MatcherKind::Epsilon);
    let r4 = r3.add_transition(e0, e1, MatcherKind::Epsilon);
    lemma_add_transition_inv(r3, e0, e1, MatcherKind::Epsilon);
    let r5 = r4.add_ending(t);
    lemma_add_ending_inv(r4, t);
    assert(r5.ending =~= seq![t]);
    assert(r5.states[0].is_initial);
}

} // verus!
