//! The inputs that an automaton accepts, stated over its graph, and the proof
//! that the search finds a match exactly for those.
use crate::matcher::reads_nothing;
use crate::nfa::NfaView;
use crate::search::accepting;
use crate::search::close_all;
use crate::search::eligible;
use crate::search::explore;
use crate::search::explore_from;
use crate::search::first_frame;
use crate::search::lemma_unvisited_push;
use crate::search::open_all;
use crate::search::search;
use crate::nfa::listed;
use crate::search::successor;
use crate::search::FrameView;
use crate::search::GroupSpan;
use vstd::prelude::*;

verus! {

/// A point of a run: how much of the input was read, and the state reached.
pub struct Config {
    pub pos: nat,
    pub state: usize,
}

/// Whether taking the transition `tr` at `a` leads to `b`.
pub open spec fn moves(
    nfa: NfaView,
    input: Seq<char>,
    a: Config,
    tr: (crate::matcher::MatcherKind, usize),
    b: Config,
) -> bool {
    &&& tr.1 == b.state
    &&& b.state < nfa.states.len()
    &&& eligible(tr.0, input, a.pos)
    &&& b.pos == if reads_nothing(tr.0) {
        a.pos
    } else {
        a.pos + 1
    }
}

/// Whether one transition of the automaton leads from `a` to `b`.
pub open spec fn step(nfa: NfaView, input: Seq<char>, a: Config, b: Config) -> bool {
    &&& a.state < nfa.states.len()
    &&& exists|k: int|
        0 <= k < nfa.states[a.state as int].transitions.len() && moves(
            nfa,
            input,
            a,
            #[trigger] nfa.states[a.state as int].transitions[k],
            b,
        )
}

/// A run: each point leads to the next by one transition.
pub open spec fn is_path(nfa: NfaView, input: Seq<char>, path: Seq<Config>) -> bool {
    &&& path.len() >= 1
    &&& forall|i: int| 0 <= i < path.len() - 1 ==> step(nfa, input, #[trigger] path[i], path[i + 1])
}

/// Whether a run may end at `c`: at an ending state, and, with `whole` set,
/// with the input read to its end.
pub open spec fn is_final(nfa: NfaView, input: Seq<char>, whole: bool, c: Config) -> bool {
    &&& c.state < nfa.states.len()
    &&& c.pos <= input.len()
    &&& nfa.states[c.state as int].is_ending
    &&& (!whole || c.pos == input.len())
}

/// A run from `c` to a point where it may end.
pub open spec fn accepting_path(
    nfa: NfaView,
    input: Seq<char>,
    whole: bool,
    c: Config,
    path: Seq<Config>,
) -> bool {
    &&& is_path(nfa, input, path)
    &&& path[0] == c
    &&& is_final(nfa, input, whole, path.last())
}

/// Whether some run from `c` may end.
pub open spec fn accepts_from(nfa: NfaView, input: Seq<char>, whole: bool, c: Config) -> bool {
    exists|path: Seq<Config>| accepting_path(nfa, input, whole, c, path)
}

/// Whether the automaton accepts `input`: some run from the initial state
/// reads the whole input and ends at an ending state.
pub open spec fn accepts(nfa: NfaView, input: Seq<char>) -> bool {
    accepts_from(nfa, input, true, Config { pos: 0, state: nfa.initial })
}

/// Whether the automaton accepts a beginning of `input`: some run from the
/// initial state ends at an ending state.
pub open spec fn accepts_prefix(nfa: NfaView, input: Seq<char>) -> bool {
    accepts_from(nfa, input, false, Config { pos: 0, state: nfa.initial })
}

/// The point of a run that a frame of the search stands at.
pub open spec fn config_of(f: FrameView) -> Config {
    Config { pos: f.pos, state: f.state }
}

/// A run that visits no point twice.
pub open spec fn no_repeat(path: Seq<Config>) -> bool {
    forall|i: int, j: int| 0 <= i < j < path.len() ==> path[i] != path[j]
}

/// A run whose later points at the position of its first avoid the states
/// in `visited`.
pub open spec fn avoids(path: Seq<Config>, visited: Seq<usize>) -> bool {
    forall|j: int|
        1 <= j < path.len() && (#[trigger] path[j]).pos == path[0].pos ==> !listed(
            visited,
            path[j].state as int,
        )
}

/// The positions along a run never go back, and no point lies beyond a
/// point where the run may end.
pub proof fn lemma_path_positions(nfa: NfaView, input: Seq<char>, path: Seq<Config>, i: int, j: int)
    requires
        is_path(nfa, input, path),
        0 <= i <= j < path.len(),
    ensures
        path[i].pos <= path[j].pos,
    decreases j - i,
{
    if i < j {
        lemma_path_positions(nfa, input, path, i, j - 1);
        assert(step(nfa, input, path[j - 1], path[j]));
    }
}

/// What the search finds, a run confirms.
pub proof fn lemma_explore_sound(
    nfa: NfaView,
    input: Seq<char>,
    whole: bool,
    f: FrameView,
    store: Seq<GroupSpan>,
)
    requires
        explore(nfa, input, whole, f, store).found is Some,
    ensures
        accepts_from(nfa, input, whole, config_of(f)),
    decreases input.len() - f.pos, crate::search::unvisited(f.visited, nfa.states.len()), nfa.states[f.state as int].transitions.len()
        + 1,
{
    let s = nfa.states[f.state as int];
    let (o1, s1) = open_all(s.start_groups, s.start_groups.len(), f.pos, f.open, store);
    let (o2, s2) = close_all(s.end_groups, s.end_groups.len(), f.pos, o1, s1);
    if accepting(nfa, input, whole, f) {
        let path = seq![config_of(f)];
        assert(accepting_path(nfa, input, whole, config_of(f), path));
    } else {
        lemma_explore_from_sound(nfa, input, whole, f, o2, s2, 0);
    }
}

/// What the search through the transitions of a frame finds, a run confirms.
pub proof fn lemma_explore_from_sound(
    nfa: NfaView,
    input: Seq<char>,
    whole: bool,
    f: FrameView,
    open: Set<u32>,
    store: Seq<GroupSpan>,
    k: nat,
)
    requires
        explore_from(nfa, input, whole, f, open, store, k).found is Some,
    ensures
        accepts_from(nfa, input, whole, config_of(f)),
    decreases input.len() - f.pos, crate::search::unvisited(f.visited, nfa.states.len()), nfa.states[f.state as int].transitions.len()
        - k,
{
    let tr = nfa.states[f.state as int].transitions[k as int];
    match successor(nfa, input, f, open, tr) {
        None => {
            lemma_explore_from_sound(nfa, input, whole, f, open, store, k + 1);
        },
        Some(c) => {
            lemma_unvisited_push(f.visited, tr.1, nfa.states.len());
            let first = explore(nfa, input, whole, c, store);
            if first.found is Some {
                lemma_explore_sound(nfa, input, whole, c, store);
                let tail = choose|p: Seq<Config>| accepting_path(nfa, input, whole, config_of(c), p);
                let path = seq![config_of(f)] + tail;
                assert(moves(nfa, input, config_of(f), tr, config_of(c)));
                assert(step(nfa, input, config_of(f), config_of(c)));
                assert forall|i: int| 0 <= i < path.len() - 1 implies step(
                    nfa,
                    input,
                    #[trigger] path[i],
                    path[i + 1],
                ) by {
                    if i > 0 {
                        assert(path[i] == tail[i - 1]);
                        assert(path[i + 1] == tail[i]);
                        assert(step(nfa, input, tail[i - 1], tail[i]));
                    } else {
                        assert(path[1] == tail[0]);
                    }
                }
                assert(path.last() == tail.last());
                assert(accepting_path(nfa, input, whole, config_of(f), path));
            } else {
                lemma_explore_from_sound(nfa, input, whole, f, open, first.store, k + 1);
            }
        },
    }
}

/// If one branch of a frame finds a match whatever the record of groups,
/// the search through the transitions of the frame finds one.
pub proof fn lemma_explore_from_finds(
    nfa: NfaView,
    input: Seq<char>,
    whole: bool,
    f: FrameView,
    open: Set<u32>,
    store: Seq<GroupSpan>,
    j: nat,
    k: nat,
)
    requires
        f.state < nfa.states.len(),
        f.pos <= input.len(),
        j <= k < nfa.states[f.state as int].transitions.len(),
        successor(nfa, input, f, open, nfa.states[f.state as int].transitions[k as int]) is Some,
        forall|s: Seq<GroupSpan>| #[trigger]
            explore(
                nfa,
                input,
                whole,
                successor(nfa, input, f, open, nfa.states[f.state as int].transitions[k as int])->0,
                s,
            ).found is Some,
    ensures
        explore_from(nfa, input, whole, f, open, store, j).found is Some,
    decreases k - j,
{
    let tr = nfa.states[f.state as int].transitions[j as int];
    match successor(nfa, input, f, open, tr) {
        None => {
            lemma_explore_from_finds(nfa, input, whole, f, open, store, j + 1, k);
        },
        Some(c) => {
            let first = explore(nfa, input, whole, c, store);
            if first.found is None {
                lemma_explore_from_finds(nfa, input, whole, f, open, first.store, j + 1, k);
            }
        },
    }
}

/// A run that visits no point twice and avoids the states that a frame has
/// entered is found by the search from that frame.
pub proof fn lemma_explore_complete(
    nfa: NfaView,
    input: Seq<char>,
    whole: bool,
    f: FrameView,
    store: Seq<GroupSpan>,
    path: Seq<Config>,
)
    requires
        accepting_path(nfa, input, whole, config_of(f), path),
        no_repeat(path),
        avoids(path, f.visited),
        f.state < nfa.states.len(),
    ensures
        explore(nfa, input, whole, f, store).found is Some,
    decreases path.len(),
{
    lemma_path_positions(nfa, input, path, 0, path.len() - 1);
    let s = nfa.states[f.state as int];
    let (o1, s1) = open_all(s.start_groups, s.start_groups.len(), f.pos, f.open, store);
    let (o2, s2) = close_all(s.end_groups, s.end_groups.len(), f.pos, o1, s1);
    if !accepting(nfa, input, whole, f) {
        assert(path.len() >= 2);
        let c1 = path[1];
        assert(step(nfa, input, path[0], path[1]));
        let k = choose|k: int|
            0 <= k < nfa.states[f.state as int].transitions.len() && moves(
                nfa,
                input,
                config_of(f),
                #[trigger] nfa.states[f.state as int].transitions[k],
                c1,
            );
        let tr = nfa.states[f.state as int].transitions[k];
        let rest = path.skip(1);
        assert forall|i: int| 0 <= i < rest.len() - 1 implies step(
            nfa,
            input,
            #[trigger] rest[i],
            rest[i + 1],
        ) by {
            assert(step(nfa, input, path[i + 1], path[i + 2]));
        }
        assert(rest.last() == path.last());
        lemma_path_positions(nfa, input, path, 1, path.len() - 1);
        if reads_nothing(tr.0) {
            assert(c1.pos == path[0].pos);
            assert(!listed(f.visited, c1.state as int));
        }
        let child = successor(nfa, input, f, o2, tr)->0;
        assert(successor(nfa, input, f, o2, tr) is Some);
        assert(config_of(child) == c1);
        assert(no_repeat(rest)) by {
            assert forall|i: int, j: int| 0 <= i < j < rest.len() implies rest[i] != rest[j] by {
                assert(path[i + 1] != path[j + 1]);
            }
        }
        assert(avoids(rest, child.visited)) by {
            assert forall|j: int| 1 <= j < rest.len() && (#[trigger] rest[j]).pos
                == rest[0].pos implies !listed(child.visited, rest[j].state as int) by {
                if reads_nothing(tr.0) {
                    assert(rest[j] == path[j + 1]);
                    assert(path[j + 1].pos == path[0].pos);
                    assert(!listed(f.visited, path[j + 1].state as int));
                    assert(path[1] != path[j + 1]);
                    if listed(child.visited, rest[j].state as int) {
                        let x = choose|x: int|
                            0 <= x < child.visited.len() && child.visited[x] == rest[j].state as int;
                        if x < f.visited.len() {
                            assert(f.visited[x] == rest[j].state);
                        }
                    }
                } else {
                    if listed(child.visited, rest[j].state as int) {
                        let x = choose|x: int|
                            0 <= x < child.visited.len() && child.visited[x] == rest[j].state as int;
                    }
                }
            }
        }
        assert forall|st: Seq<GroupSpan>| #[trigger]
            explore(nfa, input, whole, child, st).found is Some by {
            lemma_explore_complete(nfa, input, whole, child, st, rest);
        }
        lemma_explore_from_finds(nfa, input, whole, f, o2, s2, 0, k as nat);
    }
}

/// A run from which the detours have been cut: it visits no point twice.
pub proof fn lemma_simple_path(
    nfa: NfaView,
    input: Seq<char>,
    whole: bool,
    c: Config,
    path: Seq<Config>,
) -> (r: Seq<Config>)
    requires
        accepting_path(nfa, input, whole, c, path),
    ensures
        accepting_path(nfa, input, whole, c, r),
        no_repeat(r),
    decreases path.len(),
{
    if no_repeat(path) {
        path
    } else {
        let (i, j) = choose|i: int, j: int| 0 <= i < j < path.len() && path[i] == path[j];
        let cut = path.take(i + 1) + path.skip(j + 1);
        assert forall|x: int| 0 <= x < cut.len() - 1 implies step(
            nfa,
            input,
            #[trigger] cut[x],
            cut[x + 1],
        ) by {
            if x < i {
                assert(cut[x] == path[x] && cut[x + 1] == path[x + 1]);
                assert(step(nfa, input, path[x], path[x + 1]));
            } else if x == i {
                assert(cut[x] == path[i]);
                assert(cut[x + 1] == path[j + 1]);
                assert(step(nfa, input, path[j], path[j + 1]));
            } else {
                assert(cut[x] == path[x - i + j]);
                assert(cut[x + 1] == path[x - i + j + 1]);
                assert(step(nfa, input, path[x - i + j], path[x - i + j + 1]));
            }
        }
        assert(cut[0] == path[0]);
        if j == path.len() - 1 {
            assert(cut.last() == path[i]);
        } else {
            assert(cut.last() == path.last());
        }
        lemma_simple_path(nfa, input, whole, c, cut)
    }
}

/// The search from the initial state finds a match exactly where some run
/// from the initial state may end.
pub proof fn lemma_search_accepts(nfa: NfaView, input: Seq<char>, whole: bool)
    requires
        nfa.initial < nfa.states.len(),
    ensures
        search(nfa, input, whole) is Some <==> accepts_from(
            nfa,
            input,
            whole,
            Config { pos: 0, state: nfa.initial },
        ),
{
    let f = first_frame(nfa);
    let c = Config { pos: 0, state: nfa.initial };
    let empty = Seq::<GroupSpan>::empty();
    if search(nfa, input, whole) is Some {
        lemma_explore_sound(nfa, input, whole, f, empty);
    }
    if accepts_from(nfa, input, whole, c) {
        let path = choose|p: Seq<Config>| accepting_path(nfa, input, whole, c, p);
        let simple = lemma_simple_path(nfa, input, whole, c, path);
        assert(avoids(simple, f.visited)) by {
            assert forall|j: int| 1 <= j < simple.len() && (#[trigger] simple[j]).pos
                == simple[0].pos implies !listed(f.visited, simple[j].state as int) by {
                if listed(f.visited, simple[j].state as int) {
                    let x = choose|x: int|
                        0 <= x < f.visited.len() && f.visited[x] == simple[j].state as int;
                }
            }
        }
        lemma_explore_complete(nfa, input, whole, f, empty, simple);
    }
}

} // verus!
