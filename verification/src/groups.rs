//! Every group that opens can close: from a state that opens a group, a
//! state that closes it can be reached.
use crate::alternation::exit_link;
use crate::alternation::lemma_close_form;
use crate::built::lemma_concat_len;
use crate::built::lemma_junction_len;
use crate::built::lemma_close_len;
use crate::built::lemma_loop_len;
use crate::built::lemma_bypass_len;
use crate::built::lemma_repeat_len;
use crate::fragment::alternate_from;
use crate::fragment::build;
use crate::fragment::build_each;
use crate::fragment::bypass;
use crate::fragment::close_junction;
use crate::fragment::close_loop;
use crate::fragment::compiled;
use crate::fragment::concat_all;
use crate::fragment::join_endings;
use crate::fragment::optional_copies;
use crate::fragment::repeat_splice;
use crate::ir::Ir;
use crate::nfa::name_view;
use crate::nfa_builder::lemma_build_each;
use crate::wellformed::is_junction;
use crate::wellformed::lemma_add_transition_fragment;
use crate::wellformed::lemma_close_junction;
use crate::wellformed::lemma_close_loop;
use crate::wellformed::lemma_junction_start;
use crate::wellformed::lemma_junction_step;
use crate::fragment::class_frag;
use crate::fragment::class_transitions;
use crate::fragment::entry_state;
use crate::fragment::exit_state;
use crate::fragment::is_fragment;
use crate::fragment::literal_chain;
use crate::fragment::literal_frag;
use crate::fragment::splice;
use crate::fragment::unit;
use crate::matcher::MatcherKind;
use crate::nfa::NfaView;
use crate::splice::lemma_append;
use crate::splice::remap;
use crate::wellformed::lemma_append_inv;
use crate::wellformed::lemma_append_len;
use crate::wellformed::lemma_class_fragment;
use crate::wellformed::lemma_fragment_rooted;
use crate::wellformed::lemma_literal_fragment;
use crate::wellformed::lemma_mark_capture_group;
use crate::wellformed::lemma_same_graph;
use crate::wellformed::lemma_splice_fragment;
use crate::wellformed::lemma_unit_fragment;
use vstd::prelude::*;

verus! {

/// Whether a transition leads from state `s` to state `t`.
pub open spec fn connected(a: NfaView, s: usize, t: usize) -> bool {
    &&& s < a.states.len()
    &&& t < a.states.len()
    &&& exists|k: int|
        0 <= k < a.states[s as int].transitions.len() && (#[trigger] a.states[s as int].transitions[k]).1
            == t
}

/// A way through the automaton: states of which each leads to the next.
pub open spec fn is_route(a: NfaView, p: Seq<usize>) -> bool {
    &&& p.len() >= 1
    &&& p[0] < a.states.len()
    &&& forall|i: int| 0 <= i < p.len() - 1 ==> connected(a, #[trigger] p[i], p[i + 1])
}

/// Whether a way leads from state `s` to state `t`.
pub open spec fn reaches(a: NfaView, s: usize, t: usize) -> bool {
    exists|p: Seq<usize>| is_route(a, p) && p[0] == s && p.last() == t
}

/// Whether state `s` opens group `g`.
pub open spec fn opens_at(a: NfaView, s: usize, g: u32) -> bool {
    &&& s < a.states.len()
    &&& exists|i: int|
        0 <= i < a.states[s as int].start_groups.len() && (#[trigger] a.states[s as int].start_groups[i]).0
            == g
}

/// Whether state `t` closes group `g`.
pub open spec fn closes_at(a: NfaView, t: usize, g: u32) -> bool {
    &&& t < a.states.len()
    &&& exists|j: int|
        0 <= j < a.states[t as int].end_groups.len() && (#[trigger] a.states[t as int].end_groups[j]).0
            == g
}

/// Whether a state that closes group `g` can be reached from state `s`.
pub open spec fn can_close(a: NfaView, s: usize, g: u32) -> bool {
    exists|t: usize| reaches(a, s, t) && closes_at(a, t, g)
}

/// From every state that opens a group, a state that closes the group can
/// be reached.
pub open spec fn groups_close(a: NfaView) -> bool {
    forall|s: usize, g: u32| #[trigger] opens_at(a, s, g) ==> can_close(a, s, g)
}

/// Every state reaches itself.
pub proof fn lemma_reach_self(a: NfaView, s: usize)
    requires
        s < a.states.len(),
    ensures
        reaches(a, s, s),
{
    let p = seq![s];
    assert(is_route(a, p) && p[0] == s && p.last() == s);
}

/// A transition is a way.
pub proof fn lemma_reach_step(a: NfaView, s: usize, t: usize)
    requires
        connected(a, s, t),
    ensures
        reaches(a, s, t),
{
    let p = seq![s, t];
    assert(is_route(a, p) && p[0] == s && p.last() == t);
}

/// Two ways, one after the other, are a way.
pub proof fn lemma_reach_trans(a: NfaView, s: usize, t: usize, u: usize)
    requires
        reaches(a, s, t),
        reaches(a, t, u),
    ensures
        reaches(a, s, u),
{
    let p = choose|p: Seq<usize>| is_route(a, p) && p[0] == s && p.last() == t;
    let q = choose|q: Seq<usize>| is_route(a, q) && q[0] == t && q.last() == u;
    let r = p + q.skip(1);
    assert forall|i: int| 0 <= i < r.len() - 1 implies connected(a, #[trigger] r[i], r[i + 1]) by {
        if i < p.len() - 1 {
            assert(connected(a, p[i], p[i + 1]));
        } else {
            let j = i - p.len() + 1;
            assert(r[i] == q[j]);
            assert(r[i + 1] == q[j + 1]);
            assert(connected(a, q[j], q[j + 1]));
        }
    }
    if q.len() == 1 {
        assert(r =~= p);
    } else {
        assert(r.last() == q.last());
    }
    assert(is_route(a, r) && r[0] == s && r.last() == u);
}

/// Under the renaming `phi` of states, `b` has a transition wherever `a` has
/// one, and closes a group wherever `a` closes it.
pub open spec fn carries(a: NfaView, b: NfaView, phi: spec_fn(usize) -> usize) -> bool {
    &&& forall|s: usize| s < a.states.len() ==> #[trigger] phi(s) < b.states.len()
    &&& forall|s: usize, t: usize| #[trigger] connected(a, s, t) ==> connected(b, phi(s), phi(t))
    &&& forall|s: usize, g: u32| #[trigger] closes_at(a, s, g) ==> closes_at(b, phi(s), g)
}

/// A way in `a` is a way in an automaton that carries `a`.
pub proof fn lemma_carry_reach(
    a: NfaView,
    b: NfaView,
    phi: spec_fn(usize) -> usize,
    s: usize,
    t: usize,
)
    requires
        carries(a, b, phi),
        reaches(a, s, t),
    ensures
        reaches(b, phi(s), phi(t)),
{
    let p = choose|p: Seq<usize>| is_route(a, p) && p[0] == s && p.last() == t;
    let q = Seq::new(p.len(), |i: int| phi(p[i]));
    assert forall|i: int| 0 <= i < q.len() - 1 implies connected(b, #[trigger] q[i], q[i + 1]) by {
        assert(connected(a, p[i], p[i + 1]));
    }
    assert(is_route(b, q) && q[0] == phi(s) && q.last() == phi(t));
}

/// A group that can close in `a` can close in an automaton that carries `a`.
pub proof fn lemma_carry_close(
    a: NfaView,
    b: NfaView,
    phi: spec_fn(usize) -> usize,
    s: usize,
    g: u32,
)
    requires
        carries(a, b, phi),
        can_close(a, s, g),
    ensures
        can_close(b, phi(s), g),
{
    let t = choose|t: usize| reaches(a, s, t) && closes_at(a, t, g);
    lemma_carry_reach(a, b, phi, s, t);
    assert(reaches(b, phi(s), phi(t)) && closes_at(b, phi(t), g));
}

/// `short` is the beginning of `long`.
pub open spec fn begins<T>(short: Seq<T>, long: Seq<T>) -> bool {
    &&& short.len() <= long.len()
    &&& forall|i: int| 0 <= i < short.len() ==> short[i] == long[i]
}

/// `b` is `a` grown: it has the states of `a`, each with the transitions and
/// end markers it had and perhaps more after them.
pub open spec fn extends(a: NfaView, b: NfaView) -> bool {
    &&& a.states.len() <= b.states.len()
    &&& forall|s: int|
        0 <= s < a.states.len() ==> begins((#[trigger] a.states[s]).transitions, b.states[s].transitions)
            && begins(a.states[s].end_groups, b.states[s].end_groups)
}

/// The states of `b` open the groups that the states of `a` open, and no
/// others.
pub open spec fn same_starts(a: NfaView, b: NfaView) -> bool {
    &&& a.states.len() <= b.states.len()
    &&& forall|s: int|
        0 <= s < a.states.len() ==> (#[trigger] b.states[s]).start_groups == a.states[s].start_groups
    &&& forall|s: int|
        a.states.len() <= s < b.states.len() ==> (#[trigger] b.states[s]).start_groups.len() == 0
}

/// An automaton that has grown carries what it was.
pub proof fn lemma_extends_carries(a: NfaView, b: NfaView)
    requires
        extends(a, b),
    ensures
        carries(a, b, |s: usize| s),
{
    let id = |s: usize| s;
    assert forall|s: usize, t: usize| #[trigger] connected(a, s, t) implies connected(
        b,
        id(s),
        id(t),
    ) by {
        let k = choose|k: int|
            0 <= k < a.states[s as int].transitions.len() && (#[trigger] a.states[s as int].transitions[k]).1
                == t;
        assert(begins(a.states[s as int].transitions, b.states[s as int].transitions));
        assert(b.states[s as int].transitions[k].1 == t);
    }
    assert forall|s: usize, g: u32| #[trigger] closes_at(a, s, g) implies closes_at(b, id(s), g) by {
        let j = choose|j: int|
            0 <= j < a.states[s as int].end_groups.len() && (#[trigger] a.states[s as int].end_groups[j]).0
                == g;
        assert(begins(a.states[s as int].end_groups, b.states[s as int].end_groups));
        assert(b.states[s as int].end_groups[j].0 == g);
    }
}

/// Growing an automaton in which every group can close leaves one in which
/// every group can close, if the groups that open anew can.
pub proof fn lemma_extends_groups(a: NfaView, b: NfaView)
    requires
        extends(a, b),
        groups_close(a),
        forall|s: usize, g: u32| #[trigger]
            opens_at(b, s, g) && !opens_at(a, s, g) ==> can_close(b, s, g),
    ensures
        groups_close(b),
{
    lemma_extends_carries(a, b);
    let id = |s: usize| s;
    assert forall|s: usize, g: u32| #[trigger] opens_at(b, s, g) implies can_close(b, s, g) by {
        if opens_at(a, s, g) {
            assert(can_close(a, s, g));
            lemma_carry_close(a, b, id, s, g);
        }
    }
}

/// Growing without a new start marker keeps every group able to close.
pub proof fn lemma_grows_groups(a: NfaView, b: NfaView)
    requires
        extends(a, b),
        same_starts(a, b),
        groups_close(a),
    ensures
        groups_close(b),
{
    assert forall|s: usize, g: u32| #[trigger] opens_at(b, s, g) && !opens_at(a, s, g) implies can_close(
        b,
        s,
        g,
    ) by {
        let i = choose|i: int|
            0 <= i < b.states[s as int].start_groups.len() && (#[trigger] b.states[s as int].start_groups[i]).0
                == g;
        if s < a.states.len() {
            assert(b.states[s as int].start_groups == a.states[s as int].start_groups);
            assert(a.states[s as int].start_groups[i].0 == g);
        } else {
            assert(b.states[s as int].start_groups.len() == 0);
        }
    }
    lemma_extends_groups(a, b);
}

/// Growing twice is growing.
pub proof fn lemma_extends_trans(a: NfaView, b: NfaView, c: NfaView)
    requires
        extends(a, b),
        extends(b, c),
    ensures
        extends(a, c),
{
    assert forall|s: int| 0 <= s < a.states.len() implies begins(
        (#[trigger] a.states[s]).transitions,
        c.states[s].transitions,
    ) && begins(a.states[s].end_groups, c.states[s].end_groups) by {
        assert(begins(a.states[s].transitions, b.states[s].transitions));
        assert(begins(b.states[s].transitions, c.states[s].transitions));
        assert(begins(a.states[s].end_groups, b.states[s].end_groups));
        assert(begins(b.states[s].end_groups, c.states[s].end_groups));
    }
}

/// Keeping the start markers twice is keeping them.
pub proof fn lemma_same_starts_trans(a: NfaView, b: NfaView, c: NfaView)
    requires
        same_starts(a, b),
        same_starts(b, c),
    ensures
        same_starts(a, c),
{
    assert forall|s: int| 0 <= s < a.states.len() implies (#[trigger] c.states[s]).start_groups
        == a.states[s].start_groups by {
        assert(b.states[s].start_groups == a.states[s].start_groups);
    }
    assert forall|s: int| a.states.len() <= s < c.states.len() implies (
    #[trigger] c.states[s]).start_groups.len() == 0 by {
        if s < b.states.len() {
            assert(b.states[s].start_groups.len() == 0);
            assert(c.states[s].start_groups == b.states[s].start_groups);
        }
    }
}

/// A new state, a new transition, a changed ending flag and an end marker
/// grow the automaton and keep its start markers.
pub proof fn lemma_steps_grow(a: NfaView, x: usize, y: usize, m: MatcherKind, g: u32, name: Option<Seq<char>>)
    ensures
        extends(a, a.add_state()) && same_starts(a, a.add_state()),
        extends(a, a.add_transition(x, y, m)) && same_starts(a, a.add_transition(x, y, m)),
        extends(a, a.add_ending(x)) && same_starts(a, a.add_ending(x)),
        extends(a, a.remove_ending(x)) && same_starts(a, a.remove_ending(x)),
        extends(a, a.mark_end(x, g, name)) && same_starts(a, a.mark_end(x, g, name)),
        extends(a, a.mark_start(x, g, name)),
{
}

/// Where the states of a spliced automaton land.
pub open spec fn placed(c: NfaView, base: nat, union_state: usize) -> spec_fn(usize) -> usize {
    |k: usize| NfaView::graft_index(c, base, union_state, k as int)
}

/// A splice carries both automata, and leaves every group able to close if
/// every group could in both.
pub proof fn lemma_append_groups(a: NfaView, c: NfaView, union_state: usize)
    requires
        a.inv(),
        union_state < a.states.len(),
        is_fragment(c),
        c.states.len() >= 2,
        a.states.len() + c.states.len() - 1 <= usize::MAX,
    ensures
        extends(a, a.append(c, union_state)),
        carries(c, a.append(c, union_state), placed(c, a.states.len(), union_state)),
        groups_close(a) && groups_close(c) ==> groups_close(a.append(c, union_state)),
{
    let r = a.append(c, union_state);
    let base = a.states.len();
    let psi = placed(c, base, union_state);
    lemma_fragment_rooted(c);
    lemma_append(a, c, union_state);
    assert forall|s: int| 0 <= s < a.states.len() implies begins(
        (#[trigger] a.states[s]).transitions,
        r.states[s].transitions,
    ) && begins(a.states[s].end_groups, r.states[s].end_groups) by {
        if s != union_state {
            assert(r.states[s] == a.states[s]);
        }
    }
    assert forall|k: usize| k < c.states.len() implies #[trigger] psi(k) < r.states.len() by {
        if k != 0 {
            assert(!c.states[k as int].is_initial);
        }
    }
    assert forall|k: usize, t: usize| #[trigger] connected(c, k, t) implies connected(
        r,
        psi(k),
        psi(t),
    ) by {
        let i = choose|i: int|
            0 <= i < c.states[k as int].transitions.len() && (#[trigger] c.states[k as int].transitions[i]).1
                == t;
        let moved = remap(c, base as nat, union_state, c.states[k as int].transitions);
        assert(moved[i].1 == psi(t));
        assert(psi(k) < r.states.len());
        assert(psi(t) < r.states.len());
        if k == 0 {
            let own = a.states[union_state as int].transitions.len();
            assert(r.states[union_state as int].transitions[own + i] == moved[i]);
        } else {
            assert(!c.states[k as int].is_initial);
            assert(r.states[base + k - 1].transitions == moved);
            assert(r.states[psi(k) as int].transitions[i] == moved[i]);
        }
    }
    assert forall|k: usize, g: u32| #[trigger] closes_at(c, k, g) implies closes_at(r, psi(k), g) by {
        let j = choose|j: int|
            0 <= j < c.states[k as int].end_groups.len() && (#[trigger] c.states[k as int].end_groups[j]).0
                == g;
        assert(psi(k) < r.states.len());
        if k == 0 {
            let own = a.states[union_state as int].end_groups.len();
            assert(r.states[union_state as int].end_groups[own + j] == c.states[0].end_groups[j]);
        } else {
            assert(!c.states[k as int].is_initial);
            assert(r.states[base + k - 1].end_groups == c.states[k as int].end_groups);
            assert(r.states[psi(k) as int].end_groups[j].0 == g);
        }
    }
    if groups_close(a) && groups_close(c) {
        lemma_extends_carries(a, r);
        let id = |s: usize| s;
        assert forall|s: usize, g: u32| #[trigger] opens_at(r, s, g) implies can_close(r, s, g) by {
            let i = choose|i: int|
                0 <= i < r.states[s as int].start_groups.len() && (#[trigger] r.states[s as int].start_groups[i]).0
                    == g;
            if s < base && s != union_state {
                assert(r.states[s as int] == a.states[s as int]);
                assert(a.states[s as int].start_groups[i].0 == g);
                assert(opens_at(a, s, g));
                lemma_carry_close(a, r, id, s, g);
            } else if s == union_state {
                let own = a.states[s as int].start_groups;
                if i < own.len() {
                    assert(own[i].0 == g);
                    assert(opens_at(a, s, g));
                    lemma_carry_close(a, r, id, s, g);
                } else {
                    assert(c.states[0].start_groups[i - own.len()].0 == g);
                    assert(opens_at(c, 0, g));
                    lemma_carry_close(c, r, psi, 0, g);
                }
            } else {
                let k = (s - base + 1) as usize;
                assert(!c.states[k as int].is_initial);
                assert(r.states[base + k - 1].start_groups == c.states[k as int].start_groups);
                assert(c.states[k as int].start_groups[i].0 == g);
                assert(opens_at(c, k, g));
                assert(psi(k) == s);
                lemma_carry_close(c, r, psi, k, g);
            }
        }
    }
}

/// The ending state of the automaton can be reached from its initial state.
pub open spec fn linked(a: NfaView) -> bool {
    reaches(a, a.initial, a.ending.last())
}

/// A fragment that can be passed, and in which every group can close.
pub open spec fn sound(a: NfaView) -> bool {
    &&& is_fragment(a)
    &&& groups_close(a)
    &&& linked(a)
}

/// A sound fragment spliced onto a sound fragment is sound.
pub proof fn lemma_splice_sound(a: NfaView, c: NfaView)
    requires
        sound(a),
        sound(c),
        a.states.len() + c.states.len() - 1 <= usize::MAX,
    ensures
        sound(splice(a, c)),
{
    lemma_splice_fragment(a, c);
    if c.states.len() >= 2 {
        let u = a.ending.last();
        let r = splice(a, c);
        let base = a.states.len();
        let psi = placed(c, base, u);
        lemma_fragment_rooted(a);
        lemma_fragment_rooted(c);
        lemma_append_groups(a, c, u);
        lemma_append_inv(a, c, u);
        lemma_extends_carries(a, r);
        let id = |s: usize| s;
        lemma_carry_reach(a, r, id, 0, u);
        lemma_carry_reach(c, r, psi, 0, c.ending.last());
        let e = c.ending[0];
        assert(!c.states[e as int].is_initial);
        assert(psi(0) == u);
        assert(psi(e) == r.ending.last());
        lemma_reach_trans(r, 0, u, r.ending.last());
    } else {
        lemma_append_len(a, c, a.ending.last());
    }
}

/// A fragment without a start marker lets every group close.
pub proof fn lemma_no_groups(a: NfaView)
    requires
        forall|s: int| 0 <= s < a.states.len() ==> (#[trigger] a.states[s]).start_groups.len() == 0,
    ensures
        groups_close(a),
{
    assert forall|s: usize, g: u32| #[trigger] opens_at(a, s, g) implies can_close(a, s, g) by {
        assert(a.states[s as int].start_groups.len() == 0);
    }
}

/// The fragment of one state is sound.
pub proof fn lemma_unit_sound()
    ensures
        sound(unit()),
{
    lemma_unit_fragment();
    lemma_no_groups(unit());
    lemma_reach_self(unit(), 0);
}

/// Along the chain of a literal, every state can be reached from the first.
pub proof fn lemma_literal_reach(bytes: Seq<u8>, i: nat)
    requires
        bytes.len() < usize::MAX,
        i <= bytes.len(),
    ensures
        reaches(literal_frag(bytes), 0, i as usize),
    decreases i,
{
    let a = literal_frag(bytes);
    if i == 0 {
        lemma_reach_self(a, 0);
    } else {
        lemma_literal_reach(bytes, (i - 1) as nat);
        let s = (i - 1) as usize;
        assert(literal_chain(bytes, bytes.len()).states[s as int].transitions[0].1 == i);
        assert(a.states[s as int].transitions[0].1 == i);
        assert(connected(a, s, i as usize));
        lemma_reach_step(a, s, i as usize);
        lemma_reach_trans(a, 0, s, i as usize);
    }
}

/// The fragment of a literal is sound.
pub proof fn lemma_literal_sound(bytes: Seq<u8>)
    requires
        bytes.len() < usize::MAX,
    ensures
        sound(literal_frag(bytes)),
{
    let a = literal_frag(bytes);
    lemma_literal_fragment(bytes);
    lemma_no_groups(a);
    lemma_literal_reach(bytes, bytes.len());
    assert(a.ending =~= seq![bytes.len() as usize]);
}

/// The fragment of a class with a range is sound.
pub proof fn lemma_class_sound(ranges: Seq<(char, char)>)
    requires
        ranges.len() >= 1,
    ensures
        sound(class_frag(ranges)),
{
    let a = class_frag(ranges);
    lemma_class_fragment(ranges);
    assert(a.states[0] == entry_state(class_transitions(ranges, ranges.len())));
    assert(a.states[1] == exit_state());
    lemma_no_groups(a);
    assert(a.states[0].transitions[0].1 == 1);
    assert(connected(a, 0, 1));
    lemma_reach_step(a, 0, 1);
}

/// A sound fragment inside a group is sound.
pub proof fn lemma_capture_sound(a: NfaView, index: u32, name: Option<Seq<char>>)
    requires
        sound(a),
    ensures
        sound(a.mark_capture_group(index, name)),
{
    let b = a.mark_capture_group(index, name);
    lemma_mark_capture_group(a, index, name);
    lemma_same_graph(a, b);
    lemma_fragment_rooted(a);
    reveal_with_fuel(NfaView::mark_endings, 2);
    let e = a.ending[0];
    let b1 = a.mark_start(a.initial, index, name);
    assert(b == b1.mark_end(e, index, name));
    assert(extends(a, b));
    lemma_extends_carries(a, b);
    let id = |s: usize| s;
    lemma_carry_reach(a, b, id, a.initial, e);
    let last = a.states[e as int].end_groups.len() as int;
    assert(b.states[e as int].end_groups[last].0 == index);
    assert(closes_at(b, e, index));
    assert(can_close(b, a.initial, index));
    assert forall|s: usize, g: u32| #[trigger] opens_at(b, s, g) && !opens_at(a, s, g) implies can_close(
        b,
        s,
        g,
    ) by {
        let i = choose|i: int|
            0 <= i < b.states[s as int].start_groups.len() && (#[trigger] b.states[s as int].start_groups[i]).0
                == g;
        if s == a.initial {
            if i < a.states[s as int].start_groups.len() {
                assert(a.states[s as int].start_groups[i].0 == g);
            }
        } else {
            assert(b.states[s as int].start_groups == a.states[s as int].start_groups);
            assert(a.states[s as int].start_groups[i].0 == g);
        }
    }
    lemma_extends_groups(a, b);
}

/// From the initial state of a junction, one of its ending states can be
/// reached.
pub open spec fn junction_linked(j: NfaView) -> bool {
    exists|s: usize| reaches(j, 0, s) && s < j.states.len() && #[trigger] j.states[s as int].is_ending
}

/// A sound fragment spliced in at the initial state of a junction leaves
/// every group able to close, and an ending state within reach if one was
/// or if the fragment has more than one state.
pub proof fn lemma_junction_sound(j: NfaView, c: NfaView)
    requires
        is_junction(j),
        groups_close(j),
        sound(c),
        j.states.len() + crate::alternation::slots(c) <= usize::MAX,
    ensures
        is_junction(j.append(c, 0)),
        groups_close(j.append(c, 0)),
        junction_linked(j) || c.states.len() >= 2 ==> junction_linked(j.append(c, 0)),
{
    let r = j.append(c, 0);
    lemma_append_len(j, c, 0);
    lemma_junction_step(j, c);
    if c.states.len() >= 2 {
        let base = j.states.len();
        let psi = placed(c, base, 0);
        lemma_fragment_rooted(c);
        lemma_append_groups(j, c, 0);
        lemma_append(j, c, 0);
        let e = c.ending[0];
        assert(!c.states[e as int].is_initial);
        lemma_carry_reach(c, r, psi, 0, e);
        assert(psi(0) == 0);
        assert(r.states[base + e - 1].is_ending);
        assert(psi(e) == base + e - 1);
        assert(reaches(r, 0, psi(e)) && psi(e) < r.states.len() && r.states[psi(e) as int].is_ending);
    } else if junction_linked(j) {
    }
}

/// Joining ending states to a state grows the automaton and keeps its start
/// markers.
pub proof fn lemma_join_grows(a: NfaView, endings: Seq<usize>, t: usize, n: nat)
    ensures
        extends(a, join_endings(a, endings, t, n)),
        same_starts(a, join_endings(a, endings, t, n)),
    decreases n,
{
    if n > 0 && n <= endings.len() {
        lemma_join_grows(a, endings, t, (n - 1) as nat);
        let prev = join_endings(a, endings, t, (n - 1) as nat);
        let linked = prev.add_transition(endings[n - 1], t, MatcherKind::Epsilon);
        let r = linked.remove_ending(endings[n - 1]);
        lemma_steps_grow(prev, endings[n - 1], t, MatcherKind::Epsilon, 0, None);
        lemma_steps_grow(linked, endings[n - 1], t, MatcherKind::Epsilon, 0, None);
        lemma_extends_trans(prev, linked, r);
        lemma_same_starts_trans(prev, linked, r);
        lemma_extends_trans(a, prev, r);
        lemma_same_starts_trans(a, prev, r);
    }
}

/// A closed junction is sound, if every group of the junction can close and
/// one of its ending states is within reach.
pub proof fn lemma_close_sound(j: NfaView)
    requires
        is_junction(j),
        groups_close(j),
        junction_linked(j),
        j.states.len() < usize::MAX,
    ensures
        sound(close_junction(j)),
{
    let r = close_junction(j);
    let t = j.states.len() as usize;
    lemma_close_junction(j);
    lemma_close_form(j);
    let opened = j.add_state();
    let joined = join_endings(opened, j.ending, t, j.ending.len());
    lemma_steps_grow(j, 0, 0, MatcherKind::Epsilon, 0, None);
    lemma_join_grows(opened, j.ending, t, j.ending.len());
    lemma_steps_grow(joined, t, 0, MatcherKind::Epsilon, 0, None);
    lemma_extends_trans(j, opened, joined);
    lemma_same_starts_trans(j, opened, joined);
    lemma_extends_trans(j, joined, r);
    lemma_same_starts_trans(j, joined, r);
    lemma_grows_groups(j, r);
    lemma_extends_carries(j, r);
    let id = |s: usize| s;
    let s = choose|s: usize| reaches(j, 0, s) && s < j.states.len() && #[trigger] j.states[s as int].is_ending;
    lemma_carry_reach(j, r, id, 0, s);
    let own = j.states[s as int].transitions.len() as int;
    assert(r.states[s as int].transitions == j.states[s as int].transitions + exit_link(true, t));
    assert(r.states[s as int].transitions[own].1 == t);
    assert(connected(r, s, t));
    lemma_reach_step(r, s, t);
    lemma_reach_trans(r, 0, s, t);
    lemma_fragment_rooted(r);
    assert(r.ending.last() == t) by {
        let e = r.ending[0];
        if e != t {
            assert(r.states[e as int].is_ending);
        }
    }
}

/// Copies of a sound fragment spliced one after the other are sound.
pub proof fn lemma_repeat_sound(s: NfaView, n: nat)
    requires
        n > 0 ==> sound(s),
        repeat_splice(unit(), s, n).states.len() <= usize::MAX,
    ensures
        sound(repeat_splice(unit(), s, n)),
    decreases n,
{
    if n == 0 {
        lemma_unit_sound();
    } else {
        lemma_repeat_len(s, (n - 1) as nat, n);
        lemma_repeat_sound(s, (n - 1) as nat);
        let prev = repeat_splice(unit(), s, (n - 1) as nat);
        lemma_append_len(prev, s, prev.ending.last());
        lemma_splice_sound(prev, s);
    }
}

/// A transition added between states that exist leaves a sound fragment
/// sound.
pub proof fn lemma_add_transition_sound(a: NfaView, from: usize, to: usize, m: MatcherKind)
    requires
        sound(a),
        to < a.states.len(),
    ensures
        sound(a.add_transition(from, to, m)),
        a.add_transition(from, to, m).ending == a.ending,
        a.add_transition(from, to, m).states.len() == a.states.len(),
{
    let r = a.add_transition(from, to, m);
    lemma_add_transition_fragment(a, from, to, m);
    lemma_steps_grow(a, from, to, m, 0, None);
    lemma_grows_groups(a, r);
    lemma_extends_carries(a, r);
    let id = |s: usize| s;
    lemma_carry_reach(a, r, id, a.initial, a.ending.last());
}

/// Bypass transitions leave a sound fragment sound.
pub proof fn lemma_bypass_sound(a: NfaView, s: NfaView, min: nat, t: usize, n: nat)
    requires
        sound(a),
        t < a.states.len(),
    ensures
        sound(bypass(a, s, min, t, n)),
        bypass(a, s, min, t, n).ending == a.ending,
        bypass(a, s, min, t, n).states.len() == a.states.len(),
    decreases n,
{
    if n > 0 {
        lemma_bypass_sound(a, s, min, t, (n - 1) as nat);
        lemma_add_transition_sound(
            bypass(a, s, min, t, (n - 1) as nat),
            repeat_splice(unit(), s, (min + n - 1) as nat).ending.last(),
            t,
            MatcherKind::Epsilon,
        );
    }
}

/// A closed loop over a sound fragment is sound.
pub proof fn lemma_loop_sound(b: NfaView, e0: usize)
    requires
        sound(b),
        e0 < b.states.len(),
        b.states.len() < usize::MAX,
    ensures
        sound(close_loop(b, e0)),
{
    let r = close_loop(b, e0);
    lemma_close_loop(b, e0);
    lemma_fragment_rooted(b);
    let e1 = b.ending.last();
    let t = b.states.len() as usize;
    let r0 = b.remove_ending(e1);
    let r1 = r0.add_state();
    let r2 = r1.add_transition(e1, e0, MatcherKind::Epsilon);
    let r3 = r2.add_transition(e1, t, MatcherKind::Epsilon);
    let r4 = r3.add_transition(e0, e1, MatcherKind::Epsilon);
    let r5 = r4.add_ending(t);
    assert(r == r5);
    lemma_steps_grow(b, e1, 0, MatcherKind::Epsilon, 0, None);
    lemma_steps_grow(r0, 0, 0, MatcherKind::Epsilon, 0, None);
    lemma_steps_grow(r1, e1, e0, MatcherKind::Epsilon, 0, None);
    lemma_steps_grow(r2, e1, t, MatcherKind::Epsilon, 0, None);
    lemma_steps_grow(r3, e0, e1, MatcherKind::Epsilon, 0, None);
    lemma_steps_grow(r4, t, 0, MatcherKind::Epsilon, 0, None);
    lemma_extends_trans(b, r0, r1);
    lemma_same_starts_trans(b, r0, r1);
    lemma_extends_trans(b, r1, r2);
    lemma_same_starts_trans(b, r1, r2);
    lemma_extends_trans(b, r2, r3);
    lemma_same_starts_trans(b, r2, r3);
    lemma_extends_trans(r3, r4, r5);
    lemma_same_starts_trans(r3, r4, r5);
    lemma_extends_trans(b, r3, r5);
    lemma_same_starts_trans(b, r3, r5);
    lemma_grows_groups(b, r);
    lemma_extends_carries(b, r);
    lemma_extends_carries(r3, r);
    let id = |s: usize| s;
    lemma_carry_reach(b, r, id, 0, e1);
    let own = r2.states[e1 as int].transitions.len() as int;
    assert(r3.states[e1 as int].transitions[own].1 == t);
    assert(connected(r3, e1, t));
    assert(connected(r, id(e1), id(t)));
    lemma_reach_step(r, e1, t);
    lemma_reach_trans(r, 0, e1, t);
    lemma_fragment_rooted(r);
    assert(r.ending =~= seq![t]);
}

/// A pattern that can be passed: its classes have a range each, and its
/// alternations a child each whose fragment has more than one state.
pub open spec fn passable(ir: Ir) -> bool
    decreases ir, 0nat,
{
    match ir {
        Ir::Literal(bytes) => true,
        Ir::Class(ranges) => ranges@.len() >= 1,
        Ir::Concat(children) => all_passable(children@, children@.len()),
        Ir::Alternation(children) => all_passable(children@, children@.len()) && exists|i: int|
            0 <= i < children@.len() && (#[trigger] build(children@[i])).states.len() >= 2,
        Ir::Repetition { min, max, sub } => passable(*sub),
        Ir::Capture { index, name, sub } => passable(*sub),
        Ir::Unsupported => true,
    }
}

/// The first `n` of `children` can be passed.
pub open spec fn all_passable(children: Seq<Ir>, n: nat) -> bool
    decreases children, n,
{
    n == 0 || n > children.len() || (all_passable(children, (n - 1) as nat) && passable(
        children[n - 1],
    ))
}

/// The fragment of a pattern that can be passed is sound.
pub proof fn lemma_build_sound(ir: Ir)
    requires
        passable(ir),
        build(ir).states.len() <= usize::MAX,
    ensures
        sound(build(ir)),
    decreases ir, 0nat,
{
    match ir {
        Ir::Literal(bytes) => {
            assert(build(ir).states.len() == bytes@.len() + 1);
            lemma_literal_sound(bytes@);
        },
        Ir::Class(ranges) => {
            lemma_class_sound(ranges@);
        },
        Ir::Concat(children) => {
            lemma_concat_sound(children@, children@.len());
        },
        Ir::Alternation(children) => {
            let frags = build_each(children@, children@.len());
            lemma_build_each(children@, children@.len());
            let spliced = alternate_from(frags, children@.len());
            lemma_junction_len(frags, children@.len());
            lemma_close_len(spliced);
            let i = choose|i: int|
                0 <= i < children@.len() && (#[trigger] build(children@[i])).states.len() >= 2;
            lemma_junction_all_sound(children@, children@.len(), i);
            lemma_close_sound(spliced);
        },
        Ir::Repetition { min, max, sub } => {
            let s = build(*sub);
            match max {
                Some(m) => {
                    let count = optional_copies(min as nat, m as nat);
                    let total = (min + count) as nat;
                    let full = repeat_splice(unit(), s, total);
                    lemma_bypass_len(full, s, min as nat, full.ending.last(), count);
                    lemma_repeat_len(s, total, total);
                    if total > 0 {
                        lemma_build_sound(*sub);
                    }
                    lemma_repeat_sound(s, total);
                    lemma_fragment_rooted(full);
                    lemma_bypass_sound(full, s, min as nat, full.ending.last(), count);
                },
                None => {
                    let a = repeat_splice(unit(), s, min as nat);
                    let b = splice(a, s);
                    assert(b == repeat_splice(unit(), s, (min + 1) as nat));
                    lemma_loop_len(b, a.ending.last());
                    lemma_repeat_len(s, min as nat, (min + 1) as nat);
                    lemma_build_sound(*sub);
                    lemma_repeat_sound(s, (min + 1) as nat);
                    lemma_repeat_sound(s, min as nat);
                    lemma_fragment_rooted(a);
                    lemma_loop_sound(b, a.ending.last());
                },
            }
        },
        Ir::Capture { index, name, sub } => {
            lemma_mark_capture_group(build(*sub), index, name_view(name));
            lemma_build_sound(*sub);
            lemma_capture_sound(build(*sub), index, name_view(name));
        },
        Ir::Unsupported => {
            lemma_unit_sound();
        },
    }
}

/// The fragment of a concatenation of patterns that can be passed is sound.
pub proof fn lemma_concat_sound(children: Seq<Ir>, n: nat)
    requires
        n <= children.len(),
        all_passable(children, n),
        concat_all(build_each(children, children.len()), n).states.len() <= usize::MAX,
    ensures
        sound(concat_all(build_each(children, children.len()), n)),
    decreases children, n,
{
    let frags = build_each(children, children.len());
    lemma_build_each(children, children.len());
    if n == 0 {
        lemma_unit_sound();
    } else {
        lemma_concat_len(frags, n);
        lemma_concat_len(frags, (n - 1) as nat);
        lemma_concat_sound(children, (n - 1) as nat);
        lemma_build_sound(children[n - 1]);
        lemma_splice_sound(concat_all(frags, (n - 1) as nat), frags[n - 1]);
    }
}

/// The junction of an alternation of patterns that can be passed lets every
/// group close, and has an ending state within reach once a child with
/// more than one state is spliced in.
pub proof fn lemma_junction_all_sound(children: Seq<Ir>, n: nat, i: int)
    requires
        n <= children.len(),
        all_passable(children, n),
        alternate_from(build_each(children, children.len()), n).states.len() <= usize::MAX,
    ensures
        is_junction(alternate_from(build_each(children, children.len()), n)),
        groups_close(alternate_from(build_each(children, children.len()), n)),
        0 <= i < n && build(children[i]).states.len() >= 2 ==> junction_linked(
            alternate_from(build_each(children, children.len()), n),
        ),
    decreases children, n,
{
    let frags = build_each(children, children.len());
    lemma_build_each(children, children.len());
    if n == 0 {
        lemma_junction_start(frags);
        let j = alternate_from(frags, 0);
        assert(j.states[0] == entry_state(Seq::empty()));
        lemma_no_groups(j);
    } else {
        lemma_junction_len(frags, n);
        lemma_junction_len(frags, (n - 1) as nat);
        lemma_junction_all_sound(children, (n - 1) as nat, i);
        lemma_build_sound(children[n - 1]);
        lemma_junction_sound(alternate_from(frags, (n - 1) as nat), frags[n - 1]);
    }
}

/// A pattern in which the inside of every group can be passed: the ending
/// state of the fragment of what stands in the group can be reached from
/// its initial state. Nothing is asked of a fragment that outgrows the
/// machine's indices.
pub open spec fn closable(ir: Ir) -> bool
    decreases ir, 0nat,
{
    match ir {
        Ir::Concat(children) => all_closable(children@, children@.len()),
        Ir::Alternation(children) => all_closable(children@, children@.len()),
        Ir::Repetition { min, max, sub } => closable(*sub),
        Ir::Capture { index, name, sub } => closable(*sub) && (build(*sub).states.len()
            <= usize::MAX ==> linked(build(*sub))),
        _ => true,
    }
}

/// The inside of every group of the first `n` of `children` can be passed.
pub open spec fn all_closable(children: Seq<Ir>, n: nat) -> bool
    decreases children, n,
{
    n == 0 || n > children.len() || (all_closable(children, (n - 1) as nat) && closable(
        children[n - 1],
    ))
}

/// A fragment in which every group can close.
pub open spec fn closing(a: NfaView) -> bool {
    is_fragment(a) && groups_close(a)
}

/// A fragment spliced onto a fragment lets every group close if both did.
pub proof fn lemma_splice_closing(a: NfaView, c: NfaView)
    requires
        closing(a),
        closing(c),
        a.states.len() + c.states.len() - 1 <= usize::MAX,
    ensures
        closing(splice(a, c)),
{
    lemma_splice_fragment(a, c);
    if c.states.len() >= 2 {
        lemma_fragment_rooted(a);
        lemma_append_groups(a, c, a.ending.last());
    } else {
        lemma_append_len(a, c, a.ending.last());
    }
}

/// A fragment that can be passed, inside a group, lets every group close if
/// it did.
pub proof fn lemma_capture_closing(a: NfaView, index: u32, name: Option<Seq<char>>)
    requires
        closing(a),
        linked(a),
    ensures
        closing(a.mark_capture_group(index, name)),
        linked(a.mark_capture_group(index, name)),
{
    lemma_capture_sound(a, index, name);
}

/// Copies of a fragment spliced one after the other let every group close
/// if the fragment does.
pub proof fn lemma_repeat_closing(s: NfaView, n: nat)
    requires
        n > 0 ==> closing(s),
        repeat_splice(unit(), s, n).states.len() <= usize::MAX,
    ensures
        closing(repeat_splice(unit(), s, n)),
    decreases n,
{
    if n == 0 {
        lemma_unit_sound();
    } else {
        lemma_repeat_len(s, (n - 1) as nat, n);
        lemma_repeat_closing(s, (n - 1) as nat);
        let prev = repeat_splice(unit(), s, (n - 1) as nat);
        lemma_append_len(prev, s, prev.ending.last());
        lemma_splice_closing(prev, s);
    }
}

/// Bypass transitions leave every group able to close.
pub proof fn lemma_bypass_closing(a: NfaView, s: NfaView, min: nat, t: usize, n: nat)
    requires
        closing(a),
        t < a.states.len(),
    ensures
        closing(bypass(a, s, min, t, n)),
        bypass(a, s, min, t, n).states.len() == a.states.len(),
    decreases n,
{
    if n > 0 {
        lemma_bypass_closing(a, s, min, t, (n - 1) as nat);
        let prev = bypass(a, s, min, t, (n - 1) as nat);
        let from = repeat_splice(unit(), s, (min + n - 1) as nat).ending.last();
        lemma_add_transition_fragment(prev, from, t, MatcherKind::Epsilon);
        lemma_steps_grow(prev, from, t, MatcherKind::Epsilon, 0, None);
        lemma_grows_groups(prev, prev.add_transition(from, t, MatcherKind::Epsilon));
    }
}

/// A closed loop lets every group close if what it closes did.
pub proof fn lemma_loop_closing(b: NfaView, e0: usize)
    requires
        closing(b),
        e0 < b.states.len(),
        b.states.len() < usize::MAX,
    ensures
        closing(close_loop(b, e0)),
{
    let r = close_loop(b, e0);
    lemma_close_loop(b, e0);
    lemma_fragment_rooted(b);
    let e1 = b.ending.last();
    let t = b.states.len() as usize;
    let r0 = b.remove_ending(e1);
    let r1 = r0.add_state();
    let r2 = r1.add_transition(e1, e0, MatcherKind::Epsilon);
    let r3 = r2.add_transition(e1, t, MatcherKind::Epsilon);
    let r4 = r3.add_transition(e0, e1, MatcherKind::Epsilon);
    let r5 = r4.add_ending(t);
    assert(r == r5);
    lemma_steps_grow(b, e1, 0, MatcherKind::Epsilon, 0, None);
    lemma_steps_grow(r0, 0, 0, MatcherKind::Epsilon, 0, None);
    lemma_steps_grow(r1, e1, e0, MatcherKind::Epsilon, 0, None);
    lemma_steps_grow(r2, e1, t, MatcherKind::Epsilon, 0, None);
    lemma_steps_grow(r3, e0, e1, MatcherKind::Epsilon, 0, None);
    lemma_steps_grow(r4, t, 0, MatcherKind::Epsilon, 0, None);
    lemma_extends_trans(b, r0, r1);
    lemma_same_starts_trans(b, r0, r1);
    lemma_extends_trans(b, r1, r2);
    lemma_same_starts_trans(b, r1, r2);
    lemma_extends_trans(b, r2, r3);
    lemma_same_starts_trans(b, r2, r3);
    lemma_extends_trans(r3, r4, r5);
    lemma_same_starts_trans(r3, r4, r5);
    lemma_extends_trans(b, r3, r5);
    lemma_same_starts_trans(b, r3, r5);
    lemma_grows_groups(b, r);
}

/// A closed junction lets every group close if the junction did.
pub proof fn lemma_close_closing(j: NfaView)
    requires
        is_junction(j),
        groups_close(j),
        j.states.len() < usize::MAX,
    ensures
        closing(close_junction(j)),
{
    let r = close_junction(j);
    let t = j.states.len() as usize;
    lemma_close_junction(j);
    let opened = j.add_state();
    let joined = join_endings(opened, j.ending, t, j.ending.len());
    lemma_steps_grow(j, 0, 0, MatcherKind::Epsilon, 0, None);
    lemma_join_grows(opened, j.ending, t, j.ending.len());
    lemma_steps_grow(joined, t, 0, MatcherKind::Epsilon, 0, None);
    lemma_extends_trans(j, opened, joined);
    lemma_same_starts_trans(j, opened, joined);
    lemma_extends_trans(j, joined, r);
    lemma_same_starts_trans(j, joined, r);
    lemma_grows_groups(j, r);
}

/// A fragment spliced in at the initial state of a junction leaves every
/// group able to close.
pub proof fn lemma_junction_closing(j: NfaView, c: NfaView)
    requires
        is_junction(j),
        groups_close(j),
        closing(c),
        j.states.len() + crate::alternation::slots(c) <= usize::MAX,
    ensures
        is_junction(j.append(c, 0)),
        groups_close(j.append(c, 0)),
{
    lemma_append_len(j, c, 0);
    lemma_junction_step(j, c);
    if c.states.len() >= 2 {
        lemma_append_groups(j, c, 0);
    }
}

/// In the fragment of a pattern in which the inside of every group can be
/// passed, every group can close.
pub proof fn lemma_build_closing(ir: Ir)
    requires
        closable(ir),
        build(ir).states.len() <= usize::MAX,
    ensures
        closing(build(ir)),
    decreases ir, 0nat,
{
    match ir {
        Ir::Literal(bytes) => {
            assert(build(ir).states.len() == bytes@.len() + 1);
            lemma_literal_sound(bytes@);
        },
        Ir::Class(ranges) => {
            let a = class_frag(ranges@);
            lemma_class_fragment(ranges@);
            assert(a.states[0] == entry_state(class_transitions(ranges@, ranges@.len())));
            assert(a.states[1] == exit_state());
            lemma_no_groups(a);
        },
        Ir::Concat(children) => {
            lemma_concat_closing(children@, children@.len());
        },
        Ir::Alternation(children) => {
            let frags = build_each(children@, children@.len());
            lemma_build_each(children@, children@.len());
            let spliced = alternate_from(frags, children@.len());
            lemma_junction_len(frags, children@.len());
            lemma_close_len(spliced);
            lemma_junction_all_closing(children@, children@.len());
            lemma_close_closing(spliced);
        },
        Ir::Repetition { min, max, sub } => {
            let s = build(*sub);
            match max {
                Some(m) => {
                    let count = optional_copies(min as nat, m as nat);
                    let total = (min + count) as nat;
                    let full = repeat_splice(unit(), s, total);
                    lemma_bypass_len(full, s, min as nat, full.ending.last(), count);
                    lemma_repeat_len(s, total, total);
                    if total > 0 {
                        lemma_build_closing(*sub);
                    }
                    lemma_repeat_closing(s, total);
                    lemma_fragment_rooted(full);
                    lemma_bypass_closing(full, s, min as nat, full.ending.last(), count);
                },
                None => {
                    let a = repeat_splice(unit(), s, min as nat);
                    let b = splice(a, s);
                    assert(b == repeat_splice(unit(), s, (min + 1) as nat));
                    lemma_loop_len(b, a.ending.last());
                    lemma_repeat_len(s, min as nat, (min + 1) as nat);
                    lemma_build_closing(*sub);
                    lemma_repeat_closing(s, (min + 1) as nat);
                    lemma_repeat_closing(s, min as nat);
                    lemma_fragment_rooted(a);
                    lemma_loop_closing(b, a.ending.last());
                },
            }
        },
        Ir::Capture { index, name, sub } => {
            lemma_mark_capture_group(build(*sub), index, name_view(name));
            lemma_build_closing(*sub);
            lemma_capture_closing(build(*sub), index, name_view(name));
        },
        Ir::Unsupported => {
            lemma_unit_sound();
        },
    }
}

/// In the fragment of a concatenation of such patterns, every group can
/// close.
pub proof fn lemma_concat_closing(children: Seq<Ir>, n: nat)
    requires
        n <= children.len(),
        all_closable(children, n),
        concat_all(build_each(children, children.len()), n).states.len() <= usize::MAX,
    ensures
        closing(concat_all(build_each(children, children.len()), n)),
    decreases children, n,
{
    let frags = build_each(children, children.len());
    lemma_build_each(children, children.len());
    if n == 0 {
        lemma_unit_sound();
    } else {
        lemma_concat_len(frags, n);
        lemma_concat_len(frags, (n - 1) as nat);
        lemma_concat_closing(children, (n - 1) as nat);
        lemma_build_closing(children[n - 1]);
        lemma_splice_closing(concat_all(frags, (n - 1) as nat), frags[n - 1]);
    }
}

/// In the junction of an alternation of such patterns, every group can
/// close.
pub proof fn lemma_junction_all_closing(children: Seq<Ir>, n: nat)
    requires
        n <= children.len(),
        all_closable(children, n),
        alternate_from(build_each(children, children.len()), n).states.len() <= usize::MAX,
    ensures
        is_junction(alternate_from(build_each(children, children.len()), n)),
        groups_close(alternate_from(build_each(children, children.len()), n)),
    decreases children, n,
{
    let frags = build_each(children, children.len());
    lemma_build_each(children, children.len());
    if n == 0 {
        lemma_junction_start(frags);
        let j = alternate_from(frags, 0);
        assert(j.states[0] == entry_state(Seq::empty()));
        lemma_no_groups(j);
    } else {
        lemma_junction_len(frags, n);
        lemma_junction_len(frags, (n - 1) as nat);
        lemma_junction_all_closing(children, (n - 1) as nat);
        lemma_build_closing(children[n - 1]);
        lemma_junction_closing(alternate_from(frags, (n - 1) as nat), frags[n - 1]);
    }
}

/// In a pattern that can be passed, the inside of every group can be
/// passed.
pub proof fn lemma_passable_closable(ir: Ir)
    requires
        passable(ir),
    ensures
        closable(ir),
    decreases ir, 0nat,
{
    match ir {
        Ir::Concat(children) => {
            lemma_all_passable_closable(children@, children@.len());
        },
        Ir::Alternation(children) => {
            lemma_all_passable_closable(children@, children@.len());
        },
        Ir::Repetition { min, max, sub } => {
            lemma_passable_closable(*sub);
        },
        Ir::Capture { index, name, sub } => {
            lemma_passable_closable(*sub);
            if build(*sub).states.len() <= usize::MAX {
                lemma_build_sound(*sub);
            }
        },
        _ => {},
    }
}

/// In patterns that can be passed, the inside of every group can be passed.
pub proof fn lemma_all_passable_closable(children: Seq<Ir>, n: nat)
    requires
        n <= children.len(),
        all_passable(children, n),
    ensures
        all_closable(children, n),
    decreases children, n,
{
    if n > 0 {
        lemma_all_passable_closable(children, (n - 1) as nat);
        lemma_passable_closable(children[n - 1]);
    }
}

/// In the automaton of a pattern that can be passed, and in which the inside
/// of every group can be passed, a state that closes a group can be reached
/// from every state that opens it.
pub proof fn lemma_compiled_groups_close(ir: Ir)
    requires
        closable(ir),
        linked(build(ir)),
        build(ir).states.len() <= usize::MAX,
    ensures
        groups_close(compiled(ir)),
{
    lemma_build_closing(ir);
    lemma_capture_closing(build(ir), 0, None);
}

} // verus!
