//! The order of the children of an alternation does not matter for what is
//! accepted: the two automata are the same graph under a renaming of states.
use crate::fragment::alternate;
use crate::fragment::alternate_from;
use crate::fragment::close_junction;
use crate::fragment::entry_state;
use crate::fragment::is_fragment;
use crate::fragment::join_endings;
use crate::language::accepting_path;
use crate::language::accepts_from;
use crate::language::is_final;
use crate::language::moves;
use crate::language::step;
use crate::language::Config;
use crate::matcher::MatcherKind;
use crate::nfa::listed;
use crate::nfa::NfaView;
use crate::splice::lemma_append;
use crate::splice::remap;
use crate::wellformed::is_junction;
use crate::wellformed::lemma_add_state_inv;
use crate::wellformed::lemma_append_len;
use crate::wellformed::lemma_fragment_rooted;
use crate::wellformed::lemma_join_endings;
use crate::wellformed::lemma_junction_start;
use crate::wellformed::lemma_junction_step;
use crate::wellformed::same_graph;
use vstd::prelude::*;

verus! {

/// Whether state `s` of `b` has the transition `tr`.
pub open spec fn has_transition(b: NfaView, s: usize, tr: (MatcherKind, usize)) -> bool {
    &&& s < b.states.len()
    &&& exists|k: int| 0 <= k < b.states[s as int].transitions.len() && #[trigger] b.states[s as int].transitions[k] == tr
}

/// A transition with its target renamed.
pub open spec fn renamed(tr: (MatcherKind, usize), phi: spec_fn(usize) -> usize) -> (MatcherKind, usize) {
    (tr.0, phi(tr.1))
}

/// Under the renaming `phi` of states, `b` has everything that `a` has: the
/// initial state, the ending states, and each transition.
pub open spec fn embeds(a: NfaView, b: NfaView, phi: spec_fn(usize) -> usize) -> bool {
    &&& phi(a.initial) == b.initial
    &&& forall|s: usize| s < a.states.len() ==> #[trigger] phi(s) < b.states.len()
    &&& forall|s: usize|
        s < a.states.len() && (#[trigger] a.states[s as int]).is_ending ==> b.states[phi(s) as int].is_ending
    &&& forall|s: usize, k: int|
        s < a.states.len() && 0 <= k < a.states[s as int].transitions.len() ==> has_transition(
            b,
            phi(s),
            renamed(#[trigger] a.states[s as int].transitions[k], phi),
        )
}

/// A point of a run with its state renamed.
pub open spec fn renamed_config(c: Config, phi: spec_fn(usize) -> usize) -> Config {
    Config { pos: c.pos, state: phi(c.state) }
}

/// What an automaton accepts, an automaton that has everything it has
/// accepts too.
pub proof fn lemma_embed_accepts(
    a: NfaView,
    b: NfaView,
    phi: spec_fn(usize) -> usize,
    input: Seq<char>,
    whole: bool,
    c: Config,
)
    requires
        embeds(a, b, phi),
        accepts_from(a, input, whole, c),
    ensures
        accepts_from(b, input, whole, renamed_config(c, phi)),
{
    let path = choose|p: Seq<Config>| accepting_path(a, input, whole, c, p);
    let image = Seq::new(path.len(), |i: int| renamed_config(path[i], phi));
    assert forall|i: int| 0 <= i < image.len() - 1 implies step(
        b,
        input,
        #[trigger] image[i],
        image[i + 1],
    ) by {
        assert(step(a, input, path[i], path[i + 1]));
        let s = path[i].state;
        let k = choose|k: int|
            0 <= k < a.states[s as int].transitions.len() && moves(
                a,
                input,
                path[i],
                #[trigger] a.states[s as int].transitions[k],
                path[i + 1],
            );
        let tr = a.states[s as int].transitions[k];
        assert(has_transition(b, phi(s), renamed(tr, phi)));
        let k2 = choose|k2: int|
            0 <= k2 < b.states[phi(s) as int].transitions.len() && #[trigger] b.states[phi(
                s,
            ) as int].transitions[k2] == renamed(tr, phi);
        assert(phi(path[i + 1].state) < b.states.len());
        assert(moves(b, input, image[i], b.states[phi(s) as int].transitions[k2], image[i + 1]));
    }
    let last = path.last();
    assert(image.last() == renamed_config(last, phi));
    assert(phi(last.state) < b.states.len());
    assert(a.states[last.state as int].is_ending);
    assert(is_final(b, input, whole, image.last()));
    assert(accepting_path(b, input, whole, renamed_config(c, phi), image));
}

/// What is accepted depends on the graph alone, not on the markers.
pub proof fn lemma_same_graph_accepts(a: NfaView, b: NfaView, input: Seq<char>, whole: bool)
    requires
        same_graph(a, b),
        a.states.len() <= usize::MAX,
    ensures
        accepts_from(a, input, whole, Config { pos: 0, state: a.initial }) <==> accepts_from(
            b,
            input,
            whole,
            Config { pos: 0, state: b.initial },
        ),
{
    let id = |s: usize| s;
    let c = Config { pos: 0, state: a.initial };
    assert(embeds(a, b, id)) by {
        assert forall|s: usize, k: int|
            s < a.states.len() && 0 <= k < a.states[s as int].transitions.len() implies has_transition(
            b,
            id(s),
            renamed(#[trigger] a.states[s as int].transitions[k], id),
        ) by {
            assert(a.states[s as int].transitions == b.states[s as int].transitions);
            assert(b.states[s as int].transitions[k] == renamed(a.states[s as int].transitions[k], id));
        }
        assert forall|s: usize|
            s < a.states.len() && (#[trigger] a.states[s as int]).is_ending implies b.states[id(
            s,
        ) as int].is_ending by {}
    }
    assert(embeds(b, a, id)) by {
        assert forall|s: usize, k: int|
            s < b.states.len() && 0 <= k < b.states[s as int].transitions.len() implies has_transition(
            a,
            id(s),
            renamed(#[trigger] b.states[s as int].transitions[k], id),
        ) by {
            assert(a.states[s as int].transitions == b.states[s as int].transitions);
            assert(a.states[s as int].transitions[k] == renamed(b.states[s as int].transitions[k], id));
        }
        assert forall|s: usize|
            s < b.states.len() && (#[trigger] b.states[s as int]).is_ending implies a.states[id(
            s,
        ) as int].is_ending by {
            assert(a.states[s as int].is_ending == b.states[s as int].is_ending);
        }
    }
    if accepts_from(a, input, whole, c) {
        lemma_embed_accepts(a, b, id, input, whole, c);
        assert(renamed_config(c, id) == c);
    }
    if accepts_from(b, input, whole, c) {
        lemma_embed_accepts(b, a, id, input, whole, c);
        assert(renamed_config(c, id) == c);
    }
}

/// The number of states that a fragment adds where it is spliced in: all
/// but its initial state, or none if it has no other.
pub open spec fn slots(x: NfaView) -> nat {
    if x.states.len() >= 2 {
        (x.states.len() - 1) as nat
    } else {
        0
    }
}

/// A transition of a fragment, as it stands where the fragment is spliced in
/// at state 0 before the region that begins at `base`.
pub open spec fn shifted(tr: (MatcherKind, usize), base: nat) -> (MatcherKind, usize) {
    (
        tr.0,
        if tr.1 == 0 {
            0usize
        } else {
            (base + tr.1 - 1) as usize
        },
    )
}

/// The transitions of a state of a fragment, as they stand where the
/// fragment is spliced in.
pub open spec fn shift_all(trs: Seq<(MatcherKind, usize)>, base: nat) -> Seq<(MatcherKind, usize)> {
    Seq::new(trs.len(), |i: int| shifted(trs[i], base))
}

/// The transitions that the initial state of a junction gets from a
/// fragment: none from a fragment of one state.
pub open spec fn part(x: NfaView, base: nat) -> Seq<(MatcherKind, usize)> {
    if x.states.len() >= 2 {
        shift_all(x.states[0].transitions, base)
    } else {
        Seq::empty()
    }
}

/// The epsilon transition that leads from an ending state to `t`.
pub open spec fn exit_link(ending: bool, t: usize) -> Seq<(MatcherKind, usize)> {
    if ending {
        seq![(MatcherKind::Epsilon, t)]
    } else {
        Seq::empty()
    }
}

/// The mapping of a splice at state 0 moves each target as `shifted` says.
pub proof fn lemma_remap_shift(x: NfaView, base: nat, k: int)
    requires
        is_fragment(x),
        0 <= k < x.states.len(),
    ensures
        remap(x, base, 0, x.states[k].transitions) == shift_all(x.states[k].transitions, base),
{
    let trs = x.states[k].transitions;
    assert forall|i: int| 0 <= i < trs.len() implies remap(x, base, 0, trs)[i] == shifted(
        trs[i],
        base,
    ) by {
        assert(trs[i].1 < x.states.len());
        if trs[i].1 != 0 {
            assert(!x.states[trs[i].1 as int].is_initial);
        }
    }
    assert(remap(x, base, 0, trs) =~= shift_all(trs, base));
}

/// A junction after one more fragment was spliced in at its initial state.
pub proof fn lemma_junction_append(j: NfaView, x: NfaView)
    requires
        is_junction(j),
        is_fragment(x),
        j.states.len() + slots(x) <= usize::MAX,
    ensures
        ({
            let r = j.append(x, 0);
            let base = j.states.len();
            &&& is_junction(r)
            &&& r.states.len() == base + slots(x)
            &&& r.states[0].transitions == j.states[0].transitions + part(x, base)
            &&& forall|s: int| 1 <= s < base ==> #[trigger] r.states[s] == j.states[s]
            &&& forall|k: int|
                x.states.len() >= 2 && 1 <= k < x.states.len() ==> (#[trigger] r.states[base + k
                    - 1]).transitions == shift_all(x.states[k].transitions, base)
                    && r.states[base + k - 1].is_ending == x.states[k].is_ending
        }),
{
    let r = j.append(x, 0);
    let base = j.states.len();
    lemma_append_len(j, x, 0);
    lemma_junction_step(j, x);
    if x.states.len() >= 2 {
        lemma_fragment_rooted(x);
        lemma_append(j, x, 0);
        lemma_remap_shift(x, base, 0);
        assert(r.states[0].transitions =~= j.states[0].transitions + part(x, base));
        assert forall|k: int| 1 <= k < x.states.len() implies (#[trigger] r.states[base + k
            - 1]).transitions == shift_all(x.states[k].transitions, base) && r.states[base + k
            - 1].is_ending == x.states[k].is_ending by {
            lemma_remap_shift(x, base, k);
        }
    } else {
        assert(j.states[0].transitions + part(x, base) =~= j.states[0].transitions);
    }
}

/// The states of an automaton after its first `n` ending states were joined
/// to `t`.
pub proof fn lemma_join_form(a: NfaView, t: usize, n: nat)
    requires
        a.inv(),
        t < a.states.len(),
        n <= a.ending.len(),
    ensures
        ({
            let r = join_endings(a, a.ending, t, n);
            forall|s: int|
                0 <= s < a.states.len() ==> (#[trigger] r.states[s]).transitions
                    == a.states[s].transitions + exit_link(listed(a.ending.take(n as int), s), t)
        }),
    decreases n,
{
    let r = join_endings(a, a.ending, t, n);
    if n == 0 {
        assert forall|s: int| 0 <= s < a.states.len() implies (#[trigger] r.states[s]).transitions
            == a.states[s].transitions + exit_link(listed(a.ending.take(n as int), s), t) by {
            assert(!listed(a.ending.take(0), s)) by {
                if listed(a.ending.take(0), s) {
                    let i = choose|i: int| 0 <= i < a.ending.take(0).len() && a.ending.take(0)[i] == s;
                }
            }
            assert(a.states[s].transitions + Seq::<(MatcherKind, usize)>::empty()
                =~= a.states[s].transitions);
        }
    } else {
        lemma_join_form(a, t, (n - 1) as nat);
        lemma_join_endings(a, t, (n - 1) as nat);
        let prev = join_endings(a, a.ending, t, (n - 1) as nat);
        let e = a.ending[n - 1];
        let before = a.ending.take(n - 1);
        let now = a.ending.take(n as int);
        assert(e < a.states.len());
        assert forall|s: int| 0 <= s < a.states.len() implies (#[trigger] r.states[s]).transitions
            == a.states[s].transitions + exit_link(listed(now, s), t) by {
            assert(prev.states[s].transitions == a.states[s].transitions + exit_link(
                listed(before, s),
                t,
            ));
            if s == e {
                assert(now[n - 1] == e);
                assert(listed(now, s));
                assert(!listed(before, s)) by {
                    if listed(before, s) {
                        let i = choose|i: int| 0 <= i < before.len() && before[i] == s;
                        assert(a.ending[i] == a.ending[n - 1]);
                    }
                }
                assert(r.states[s].transitions =~= a.states[s].transitions + exit_link(true, t));
            } else {
                if listed(before, s) {
                    let i = choose|i: int| 0 <= i < before.len() && before[i] == s;
                    assert(now[i] == s);
                }
                if listed(now, s) {
                    let i = choose|i: int| 0 <= i < now.len() && now[i] == s;
                    assert(before[i] == s);
                }
                assert(r.states[s].transitions == prev.states[s].transitions);
            }
        }
    }
}

/// The states of a closed junction: each state of the junction with its
/// transitions, an ending state with one more to the new state, which is the
/// only ending state.
pub proof fn lemma_close_form(j: NfaView)
    requires
        is_junction(j),
        j.states.len() < usize::MAX,
    ensures
        ({
            let r = close_junction(j);
            let t = j.states.len() as usize;
            &&& r.states.len() == j.states.len() + 1
            &&& r.initial == 0
            &&& forall|s: int|
                0 <= s < j.states.len() ==> (#[trigger] r.states[s]).transitions
                    == j.states[s].transitions + exit_link(j.states[s].is_ending, t)
                    && !r.states[s].is_ending
            &&& r.states[t as int].transitions == Seq::<(MatcherKind, usize)>::empty()
            &&& r.states[t as int].is_ending
        }),
{
    let t = j.states.len() as usize;
    let opened = j.add_state();
    lemma_add_state_inv(j);
    let n = opened.ending.len();
    lemma_join_endings(opened, t, n);
    lemma_join_form(opened, t, n);
    let joined = join_endings(opened, opened.ending, t, n);
    assert(joined.ending =~= Seq::<usize>::empty());
    let r = close_junction(j);
    assert(r == joined.add_ending(t));
    assert(opened.ending.take(n as int) =~= j.ending);
    assert forall|s: int| 0 <= s < j.states.len() implies (#[trigger] r.states[s]).transitions
        == j.states[s].transitions + exit_link(j.states[s].is_ending, t) && !r.states[s].is_ending by {
        assert(joined.states[s].transitions == opened.states[s].transitions + exit_link(
            listed(j.ending, s),
            t,
        ));
        assert(j.states[s].is_ending <==> listed(j.ending, s));
        assert(joined.states[s].is_ending <==> listed(joined.ending, s));
        if listed(joined.ending, s) {
            let i = choose|i: int| 0 <= i < joined.ending.len() && joined.ending[i] == s;
        }
    }
    assert(!listed(j.ending, t as int)) by {
        if listed(j.ending, t as int) {
            let i = choose|i: int| 0 <= i < j.ending.len() && j.ending[i] == t;
            assert(j.ending[i] < j.states.len());
        }
    }
    assert(joined.states[t as int].transitions == opened.states[t as int].transitions + exit_link(
        false,
        t,
    ));
    assert(r.states[t as int].transitions =~= Seq::<(MatcherKind, usize)>::empty());
}

/// The alternation of two fragments, state by state: the initial state with
/// the transitions that each fragment begins with, the other states of the
/// first fragment, those of the second, and the new ending state.
pub proof fn lemma_alternate_two(a: NfaView, b: NfaView)
    requires
        is_fragment(a),
        is_fragment(b),
        slots(a) + slots(b) + 2 <= usize::MAX,
    ensures
        ({
            let r = alternate(seq![a, b]);
            let pa = slots(a);
            let pb = slots(b);
            let t = (1 + pa + pb) as usize;
            &&& r.states.len() == t + 1
            &&& r.initial == 0
            &&& r.states[0].transitions == part(a, 1) + part(b, 1 + pa)
            &&& forall|k: int|
                a.states.len() >= 2 && 1 <= k < a.states.len() ==> (#[trigger] r.states[k]).transitions
                    == shift_all(a.states[k].transitions, 1) + exit_link(a.states[k].is_ending, t)
            &&& forall|k: int|
                b.states.len() >= 2 && 1 <= k < b.states.len() ==> (#[trigger] r.states[pa
                    + k]).transitions == shift_all(b.states[k].transitions, 1 + pa) + exit_link(
                    b.states[k].is_ending,
                    t,
                )
            &&& forall|s: int| 0 <= s < t ==> !(#[trigger] r.states[s]).is_ending
            &&& r.states[t as int].transitions == Seq::<(MatcherKind, usize)>::empty()
            &&& r.states[t as int].is_ending
        }),
{
    let frags = seq![a, b];
    let pa = slots(a);
    let pb = slots(b);
    let t = (1 + pa + pb) as usize;
    reveal_with_fuel(alternate_from, 3);
    let j0 = alternate_from(frags, 0);
    lemma_junction_start(frags);
    assert(j0.states[0] == entry_state(Seq::empty()));
    let j1 = j0.append(a, 0);
    lemma_junction_append(j0, a);
    let j2 = j1.append(b, 0);
    lemma_junction_append(j1, b);
    assert(alternate_from(frags, 2) == j2);
    let r = alternate(frags);
    assert(r == close_junction(j2));
    lemma_close_form(j2);
    assert(j1.states[0].transitions =~= part(a, 1));
    assert(!j2.states[0].is_ending);
    assert(r.states[0].transitions =~= part(a, 1) + part(b, 1 + pa));
    assert forall|k: int| a.states.len() >= 2 && 1 <= k < a.states.len() implies (
    #[trigger] r.states[k]).transitions == shift_all(a.states[k].transitions, 1) + exit_link(
        a.states[k].is_ending,
        t,
    ) by {
        assert(j1.states[1 + k - 1].transitions == shift_all(a.states[k].transitions, 1));
        assert(j2.states[k] == j1.states[k]);
    }
    assert forall|k: int| b.states.len() >= 2 && 1 <= k < b.states.len() implies (
    #[trigger] r.states[pa + k]).transitions == shift_all(b.states[k].transitions, 1 + pa)
        + exit_link(b.states[k].is_ending, t) by {
        assert(j2.states[1 + pa + k - 1].transitions == shift_all(b.states[k].transitions, 1 + pa));
    }
}

/// The renaming of states between the alternation of two fragments and the
/// alternation of the same two in the other order: the regions of the two
/// fragments change places.
pub open spec fn swap(pa: nat, pb: nat) -> spec_fn(usize) -> usize {
    |s: usize|
        if s == 0 {
            0usize
        } else if s <= pa {
            (pb + s) as usize
        } else if s <= pa + pb {
            (s - pa) as usize
        } else {
            s
        }
}

/// The alternation of two fragments in the other order has every state and
/// transition of the alternation in this order, under the renaming that
/// changes the places of the two regions.
pub proof fn lemma_swap_embeds(a: NfaView, b: NfaView)
    requires
        is_fragment(a),
        is_fragment(b),
        slots(a) + slots(b) + 2 <= usize::MAX,
    ensures
        embeds(alternate(seq![a, b]), alternate(seq![b, a]), swap(slots(a), slots(b))),
{
    let r1 = alternate(seq![a, b]);
    let r2 = alternate(seq![b, a]);
    let pa = slots(a);
    let pb = slots(b);
    let t = (1 + pa + pb) as usize;
    let phi = swap(pa, pb);
    lemma_alternate_two(a, b);
    lemma_alternate_two(b, a);
    assert forall|s: usize| s < r1.states.len() implies #[trigger] phi(s) < r2.states.len() by {}
    assert forall|s: usize|
        s < r1.states.len() && (#[trigger] r1.states[s as int]).is_ending implies r2.states[phi(
        s,
    ) as int].is_ending by {
        assert(s == t);
    }
    assert forall|s: usize, k: int|
        s < r1.states.len() && 0 <= k < r1.states[s as int].transitions.len() implies has_transition(
        r2,
        phi(s),
        renamed(#[trigger] r1.states[s as int].transitions[k], phi),
    ) by {
        let tr = r1.states[s as int].transitions[k];
        if s == 0 {
            let first = part(a, 1);
            if k < first.len() {
                let orig = a.states[0].transitions[k];
                assert(orig.1 < a.states.len());
                assert(tr == shifted(orig, 1));
                let idx = part(b, 1).len() + k;
                assert(r2.states[0].transitions[idx] == shifted(orig, 1 + pb));
                assert(shifted(orig, 1 + pb) == renamed(tr, phi));
            } else {
                let k2 = k - first.len();
                let orig = b.states[0].transitions[k2];
                assert(orig.1 < b.states.len());
                assert(tr == shifted(orig, 1 + pa));
                assert(r2.states[0].transitions[k2] == shifted(orig, 1));
                assert(shifted(orig, 1) == renamed(tr, phi));
            }
        } else if s <= pa {
            let own = a.states[s as int].transitions;
            assert(r1.states[s as int].transitions == shift_all(own, 1) + exit_link(
                a.states[s as int].is_ending,
                t,
            ));
            assert(r2.states[pb + s].transitions == shift_all(own, 1 + pb) + exit_link(
                a.states[s as int].is_ending,
                t,
            ));
            if k < own.len() {
                let orig = own[k];
                assert(orig.1 < a.states.len());
                assert(tr == shifted(orig, 1));
                assert(r2.states[pb + s].transitions[k] == shifted(orig, 1 + pb));
                assert(shifted(orig, 1 + pb) == renamed(tr, phi));
            } else {
                assert(tr == (MatcherKind::Epsilon, t));
                assert(r2.states[pb + s].transitions[k] == (MatcherKind::Epsilon, t));
                assert(renamed(tr, phi) == (MatcherKind::Epsilon, t));
            }
        } else if s <= pa + pb {
            let kb = s - pa;
            let own = b.states[kb].transitions;
            assert(r1.states[pa + kb].transitions == shift_all(own, 1 + pa) + exit_link(
                b.states[kb].is_ending,
                t,
            ));
            assert(r2.states[kb].transitions == shift_all(own, 1) + exit_link(
                b.states[kb].is_ending,
                t,
            ));
            if k < own.len() {
                let orig = own[k];
                assert(orig.1 < b.states.len());
                assert(tr == shifted(orig, 1 + pa));
                assert(r2.states[kb].transitions[k] == shifted(orig, 1));
                assert(shifted(orig, 1) == renamed(tr, phi));
            } else {
                assert(tr == (MatcherKind::Epsilon, t));
                assert(r2.states[kb].transitions[k] == (MatcherKind::Epsilon, t));
                assert(renamed(tr, phi) == (MatcherKind::Epsilon, t));
            }
        } else {
            assert(s == t);
        }
    }
}

/// The alternation of two fragments accepts what the alternation of the same
/// two in the other order accepts.
pub proof fn lemma_alternate_commutes(a: NfaView, b: NfaView, input: Seq<char>, whole: bool)
    requires
        is_fragment(a),
        is_fragment(b),
        slots(a) + slots(b) + 2 <= usize::MAX,
    ensures
        accepts_from(alternate(seq![a, b]), input, whole, Config { pos: 0, state: 0 })
            <==> accepts_from(alternate(seq![b, a]), input, whole, Config { pos: 0, state: 0 }),
{
    let start = Config { pos: 0, state: 0 };
    lemma_swap_embeds(a, b);
    lemma_swap_embeds(b, a);
    if accepts_from(alternate(seq![a, b]), input, whole, start) {
        lemma_embed_accepts(
            alternate(seq![a, b]),
            alternate(seq![b, a]),
            swap(slots(a), slots(b)),
            input,
            whole,
            start,
        );
        assert(renamed_config(start, swap(slots(a), slots(b))) == start);
    }
    if accepts_from(alternate(seq![b, a]), input, whole, start) {
        lemma_embed_accepts(
            alternate(seq![b, a]),
            alternate(seq![a, b]),
            swap(slots(b), slots(a)),
            input,
            whole,
            start,
        );
        assert(renamed_config(start, swap(slots(b), slots(a))) == start);
    }
}

} // verus!
