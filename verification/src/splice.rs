//! What splicing does to an automaton, state by state.
use crate::matcher::MatcherKind;
use crate::nfa::lemma_fill_state;
use crate::nfa::listed;
use crate::nfa::without;
use crate::nfa::NfaView;
use crate::nfa::StateView;
use crate::nfa::blank_state;
use vstd::prelude::*;

verus! {

/// The transitions `trs` of a spliced automaton with their targets under
/// the mapping.
pub open spec fn remap(other: NfaView, base: nat, union_state: usize, trs: Seq<(MatcherKind, usize)>) -> Seq<
    (MatcherKind, usize),
> {
    Seq::new(
        trs.len(),
        |i: int| (trs[i].0, NfaView::graft_index(other, base, union_state, trs[i].1 as int)),
    )
}

/// State `a` after it has received the transitions `trs` and the markers of
/// `s`.
pub open spec fn merged(a: StateView, trs: Seq<(MatcherKind, usize)>, s: StateView) -> StateView {
    StateView {
        transitions: a.transitions + trs,
        is_initial: a.is_initial,
        is_ending: a.is_ending,
        start_groups: a.start_groups + s.start_groups,
        end_groups: a.end_groups + s.end_groups,
    }
}

/// An automaton whose initial state is its first state and carries the flag.
pub open spec fn rooted(a: NfaView) -> bool {
    &&& a.inv()
    &&& a.initial == 0
    &&& a.states.len() >= 1
    &&& a.states[0].is_initial
}

/// `without` takes out every occurrence and nothing else.
pub proof fn lemma_without(s: Seq<usize>, x: usize)
    ensures
        !listed(without(s, x), x as int),
        forall|k: int| k != x ==> (listed(without(s, x), k) <==> listed(s, k)),
        s.no_duplicates() ==> without(s, x).no_duplicates(),
        !listed(s, x as int) ==> without(s, x) == s,
        without(s, x).len() <= s.len(),
    decreases s.len(),
{
    if s.len() > 0 {
        let init = s.drop_last();
        lemma_without(init, x);
        let w = without(init, x);
        let r = without(s, x);
        if listed(r, x as int) {
            let j = choose|j: int| 0 <= j < r.len() && r[j] == x;
            if j < w.len() {
                assert(w[j] == x);
            }
        }
        assert forall|k: int| k != x implies (listed(r, k) <==> listed(s, k)) by {
            if listed(s, k) {
                let i = choose|i: int| 0 <= i < s.len() && s[i] == k;
                if i < s.len() - 1 {
                    assert(init[i] == k);
                    assert(listed(init, k));
                    assert(listed(w, k));
                    let j = choose|j: int| 0 <= j < w.len() && w[j] == k;
                    assert(r[j] == k);
                } else {
                    assert(r[w.len() as int] == k);
                }
            }
            if listed(r, k) {
                let j = choose|j: int| 0 <= j < r.len() && r[j] == k;
                if j < w.len() {
                    assert(w[j] == k);
                    assert(listed(w, k));
                    assert(listed(init, k));
                    let i = choose|i: int| 0 <= i < init.len() && init[i] == k;
                    assert(s[i] == k);
                } else {
                    assert(s[s.len() - 1] == k);
                }
            }
        }
        if s.no_duplicates() {
            assert(init.no_duplicates());
            if s.last() != x {
                assert(!listed(init, s.last() as int)) by {
                    if listed(init, s.last() as int) {
                        let i = choose|i: int| 0 <= i < init.len() && init[i] == s.last();
                        assert(s[i] == s[s.len() - 1]);
                    }
                }
                assert(!listed(w, s.last() as int));
                assert forall|i: int, j: int| 0 <= i < r.len() && 0 <= j < r.len() && i != j implies r[i]
                    != r[j] by {
                    if i < w.len() && j < w.len() {
                    } else if i < w.len() {
                        assert(w[i] == r[i]);
                    } else {
                        assert(w[j] == r[j]);
                    }
                }
            }
        }
        if !listed(s, x as int) {
            assert(s[s.len() - 1] != x);
            assert(!listed(init, x as int)) by {
                if listed(init, x as int) {
                    let i = choose|i: int| 0 <= i < init.len() && init[i] == x;
                    assert(s[i] == x);
                }
            }
            assert(r =~= s);
        }
    }
}

/// Start markers land on one state and touch nothing else.
pub proof fn lemma_graft_starts(acc: NfaView, marks: Seq<(u32, Option<Seq<char>>)>, at: usize, n: nat)
    requires
        n <= marks.len(),
    ensures
        at >= acc.states.len() ==> acc.graft_starts(marks, at, n) == acc,
        at < acc.states.len() ==> acc.graft_starts(marks, at, n) == (NfaView {
            states: acc.states.update(
                at as int,
                StateView {
                    start_groups: acc.states[at as int].start_groups + marks.take(n as int),
                    ..acc.states[at as int]
                },
            ),
            ..acc
        }),
    decreases n,
{
    if n == 0 {
        if at < acc.states.len() {
            assert(acc.states[at as int].start_groups + marks.take(0) =~= acc.states[at as int].start_groups);
            assert(acc.graft_starts(marks, at, n) =~~= (NfaView {
                states: acc.states.update(
                    at as int,
                    StateView {
                        start_groups: acc.states[at as int].start_groups + marks.take(n as int),
                        ..acc.states[at as int]
                    },
                ),
                ..acc
            }));
        }
    } else {
        lemma_graft_starts(acc, marks, at, (n - 1) as nat);
        if at < acc.states.len() {
            assert(marks.take(n as int) =~= marks.take(n - 1).push(marks[n - 1]));
            assert(acc.graft_starts(marks, at, n) =~~= (NfaView {
                states: acc.states.update(
                    at as int,
                    StateView {
                        start_groups: acc.states[at as int].start_groups + marks.take(n as int),
                        ..acc.states[at as int]
                    },
                ),
                ..acc
            }));
        }
    }
}

/// End markers land on one state and touch nothing else.
pub proof fn lemma_graft_ends(acc: NfaView, marks: Seq<(u32, Option<Seq<char>>)>, at: usize, n: nat)
    requires
        n <= marks.len(),
    ensures
        at >= acc.states.len() ==> acc.graft_ends(marks, at, n) == acc,
        at < acc.states.len() ==> acc.graft_ends(marks, at, n) == (NfaView {
            states: acc.states.update(
                at as int,
                StateView {
                    end_groups: acc.states[at as int].end_groups + marks.take(n as int),
                    ..acc.states[at as int]
                },
            ),
            ..acc
        }),
    decreases n,
{
    if n == 0 {
        if at < acc.states.len() {
            assert(acc.states[at as int].end_groups + marks.take(0) =~= acc.states[at as int].end_groups);
            assert(acc.graft_ends(marks, at, n) =~~= (NfaView {
                states: acc.states.update(
                    at as int,
                    StateView {
                        end_groups: acc.states[at as int].end_groups + marks.take(n as int),
                        ..acc.states[at as int]
                    },
                ),
                ..acc
            }));
        }
    } else {
        lemma_graft_ends(acc, marks, at, (n - 1) as nat);
        if at < acc.states.len() {
            assert(marks.take(n as int) =~= marks.take(n - 1).push(marks[n - 1]));
            assert(acc.graft_ends(marks, at, n) =~~= (NfaView {
                states: acc.states.update(
                    at as int,
                    StateView {
                        end_groups: acc.states[at as int].end_groups + marks.take(n as int),
                        ..acc.states[at as int]
                    },
                ),
                ..acc
            }));
        }
    }
}

/// Transitions land on one state and touch nothing else.
pub proof fn lemma_graft_transitions(
    acc: NfaView,
    other: NfaView,
    base: nat,
    union_state: usize,
    k: int,
    n: nat,
)
    requires
        n <= other.states[k].transitions.len(),
    ensures
        ({
            let at = NfaView::graft_index(other, base, union_state, k);
            let r = acc.graft_transitions(other, base, union_state, k, n);
            &&& at >= acc.states.len() ==> r == acc
            &&& at < acc.states.len() ==> r == (NfaView {
                states: acc.states.update(
                    at as int,
                    StateView {
                        transitions: acc.states[at as int].transitions + remap(
                            other,
                            base,
                            union_state,
                            other.states[k].transitions,
                        ).take(n as int),
                        ..acc.states[at as int]
                    },
                ),
                ..acc
            })
        }),
    decreases n,
{
    let at = NfaView::graft_index(other, base, union_state, k);
    let all = remap(other, base, union_state, other.states[k].transitions);
    let r = acc.graft_transitions(other, base, union_state, k, n);
    if n == 0 {
        if at < acc.states.len() {
            assert(acc.states[at as int].transitions + all.take(0) =~= acc.states[at as int].transitions);
            assert(r =~~= (NfaView {
                states: acc.states.update(
                    at as int,
                    StateView {
                        transitions: acc.states[at as int].transitions + all.take(n as int),
                        ..acc.states[at as int]
                    },
                ),
                ..acc
            }));
        }
    } else {
        lemma_graft_transitions(acc, other, base, union_state, k, (n - 1) as nat);
        if at < acc.states.len() {
            assert(all.take(n as int) =~= all.take(n - 1).push(all[n - 1]));
            assert(r =~~= (NfaView {
                states: acc.states.update(
                    at as int,
                    StateView {
                        transitions: acc.states[at as int].transitions + all.take(n as int),
                        ..acc.states[at as int]
                    },
                ),
                ..acc
            }));
        }
    }
}

/// One state of the spliced automaton lands on one state and touches
/// nothing else.
pub proof fn lemma_graft_state(acc: NfaView, other: NfaView, base: nat, union_state: usize, k: int)
    ensures
        ({
            let at = NfaView::graft_index(other, base, union_state, k);
            let r = acc.graft_state(other, base, union_state, k);
            &&& at >= acc.states.len() ==> r == acc
            &&& at < acc.states.len() ==> r == (NfaView {
                states: acc.states.update(
                    at as int,
                    merged(
                        acc.states[at as int],
                        remap(other, base, union_state, other.states[k].transitions),
                        other.states[k],
                    ),
                ),
                ..acc
            })
        }),
{
    let at = NfaView::graft_index(other, base, union_state, k);
    let s = other.states[k];
    let a1 = acc.graft_starts(s.start_groups, at, s.start_groups.len());
    lemma_graft_starts(acc, s.start_groups, at, s.start_groups.len());
    let a2 = a1.graft_ends(s.end_groups, at, s.end_groups.len());
    lemma_graft_ends(a1, s.end_groups, at, s.end_groups.len());
    lemma_graft_transitions(a2, other, base, union_state, k, s.transitions.len());
    if at < acc.states.len() {
        let all = remap(other, base, union_state, s.transitions);
        assert(s.start_groups.take(s.start_groups.len() as int) =~= s.start_groups);
        assert(s.end_groups.take(s.end_groups.len() as int) =~= s.end_groups);
        assert(all.take(s.transitions.len() as int) =~= all);
        assert(acc.graft_state(other, base, union_state, k) =~~= (NfaView {
            states: acc.states.update(at as int, merged(acc.states[at as int], all, s)),
            ..acc
        }));
    }
}

/// Where a state of the result of a splice comes from: the index of the
/// state of the spliced automaton that was copied onto state `j`, if one
/// among the first `n` was.
pub open spec fn source(base: nat, union_state: usize, n: nat, j: int) -> Option<int> {
    if j == union_state && n >= 1 {
        Some(0int)
    } else if base <= j < base + n - 1 {
        Some(j - base + 1)
    } else {
        None
    }
}

/// The states of a rooted automaton land on distinct states: the first on
/// `union_state`, the others in the new region.
pub proof fn lemma_graft_states(acc: NfaView, other: NfaView, base: nat, union_state: usize, n: nat)
    requires
        rooted(other),
        1 <= base,
        union_state < base,
        acc.states.len() == base + other.states.len() - 1,
        acc.states.len() <= usize::MAX,
        n <= other.states.len(),
    ensures
        ({
            let r = acc.graft_states(other, base, union_state, n);
            &&& r.initial == acc.initial
            &&& r.ending == acc.ending
            &&& r.states.len() == acc.states.len()
            &&& forall|j: int|
                0 <= j < acc.states.len() ==> #[trigger] r.states[j] == (match source(
                    base,
                    union_state,
                    n,
                    j,
                ) {
                    Some(k) => merged(
                        acc.states[j],
                        remap(other, base, union_state, other.states[k].transitions),
                        other.states[k],
                    ),
                    None => acc.states[j],
                })
        }),
    decreases n,
{
    if n > 0 {
        let prev = acc.graft_states(other, base, union_state, (n - 1) as nat);
        lemma_graft_states(acc, other, base, union_state, (n - 1) as nat);
        lemma_graft_state(prev, other, base, union_state, n - 1);
        let at = NfaView::graft_index(other, base, union_state, n - 1);
        let r = acc.graft_states(other, base, union_state, n);
        if n - 1 == 0 {
            assert(at == union_state);
        } else {
            assert(!other.states[n - 1].is_initial);
            assert(at == base + n - 2);
        }
        assert(source(base, union_state, (n - 1) as nat, at as int) is None);
        assert(source(base, union_state, n, at as int) == Some(n - 1));
        assert forall|j: int| 0 <= j < acc.states.len() implies #[trigger] r.states[j] == (match source(
            base,
            union_state,
            n,
            j,
        ) {
            Some(k) => merged(
                acc.states[j],
                remap(other, base, union_state, other.states[k].transitions),
                other.states[k],
            ),
            None => acc.states[j],
        }) by {
            if j != at {
                assert(r.states[j] == prev.states[j]);
                assert(source(base, union_state, n, j) == source(base, union_state, (n - 1) as nat, j));
            }
        }
    }
}

/// The result of a splice, state by state, where the spliced automaton is
/// rooted, has two states or more and one ending state.
pub proof fn lemma_append(a: NfaView, c: NfaView, union_state: usize)
    requires
        a.inv(),
        union_state < a.states.len(),
        rooted(c),
        c.states.len() >= 2,
        c.ending.len() == 1,
        a.states.len() + c.states.len() - 1 <= usize::MAX,
    ensures
        ({
            let r = a.append(c, union_state);
            let base = a.states.len();
            let e = c.ending[0];
            &&& r.states.len() == base + c.states.len() - 1
            &&& r.initial == a.initial
            &&& r.ending == without(a.ending, union_state).push(
                NfaView::graft_index(c, base, union_state, e as int),
            )
            &&& forall|j: int|
                0 <= j < base && j != union_state ==> #[trigger] r.states[j] == a.states[j]
            &&& r.states[union_state as int] == merged(
                StateView { is_ending: e == 0, ..a.states[union_state as int] },
                remap(c, base, union_state, c.states[0].transitions),
                c.states[0],
            )
            &&& forall|k: int|
                1 <= k < c.states.len() ==> #[trigger] r.states[base + k - 1] == (StateView {
                    transitions: remap(c, base, union_state, c.states[k].transitions),
                    is_initial: false,
                    is_ending: c.states[k].is_ending,
                    start_groups: c.states[k].start_groups,
                    end_groups: c.states[k].end_groups,
                })
        }),
{
    let base = a.states.len();
    let m = c.states.len();
    let e = c.ending[0];
    let filled = a.fill_state((m - 1) as nat);
    lemma_fill_state(a, (m - 1) as nat);
    let cleared = filled.remove_ending(union_state);
    lemma_without(a.ending, union_state);
    assert(c.ending[0] < c.states.len());
    let target = NfaView::graft_index(c, base, union_state, e as int);
    assert(cleared.graft_endings(c, base, union_state, 0) == cleared);
    let ended = cleared.graft_endings(c, base, union_state, 1);
    assert(ended == cleared.add_ending(target));
    assert(c.states[0].is_initial);
    assert(e != 0 ==> !c.states[e as int].is_initial);
    assert(!cleared.ending.contains(target)) by {
        if cleared.ending.contains(target) {
            let x = choose|x: int| 0 <= x < cleared.ending.len() && cleared.ending[x] == target;
            assert(listed(without(a.ending, union_state), target as int));
            if e != 0 {
                assert(target == base + e - 1);
                assert(listed(a.ending, target as int));
                let i = choose|i: int| 0 <= i < a.ending.len() && a.ending[i] == target;
                assert(a.ending[i] < a.states.len());
            }
        }
    }
    lemma_graft_states(ended, c, base, union_state, m);
    let r = a.append(c, union_state);
    assert(r == ended.graft_states(c, base, union_state, m));
    assert(source(base, union_state, m, union_state as int) == Some(0int));
    assert(r.states[union_state as int] =~~= merged(
        StateView { is_ending: e == 0, ..a.states[union_state as int] },
        remap(c, base, union_state, c.states[0].transitions),
        c.states[0],
    ));
    assert forall|j: int| 0 <= j < base && j != union_state implies #[trigger] r.states[j]
        == a.states[j] by {
        assert(source(base, union_state, m, j) is None);
        assert(ended.states[j] == a.states[j]);
    }
    assert forall|k: int| 1 <= k < c.states.len() implies #[trigger] r.states[base + k - 1]
        == (StateView {
        transitions: remap(c, base, union_state, c.states[k].transitions),
        is_initial: false,
        is_ending: c.states[k].is_ending,
        start_groups: c.states[k].start_groups,
        end_groups: c.states[k].end_groups,
    }) by {
        let j = base + k - 1;
        assert(source(base, union_state, m, j) == Some(k));
        assert(filled.states[j] == blank_state());
        assert(c.states[k].is_ending <==> listed(c.ending, k));
        if listed(c.ending, k) {
            let i = choose|i: int| 0 <= i < c.ending.len() && c.ending[i] == k;
            assert(k == e);
        }
        if k == e {
            assert(c.ending[0] == k);
        }
        assert(ended.states[j].is_ending == (k == e));
        assert(r.states[j] =~~= (StateView {
            transitions: remap(c, base, union_state, c.states[k].transitions),
            is_initial: false,
            is_ending: c.states[k].is_ending,
            start_groups: c.states[k].start_groups,
            end_groups: c.states[k].end_groups,
        }));
    }
}

} // verus!
