//! Running an automaton against an input: an ordered depth-first search over
//! pairs of input position and state, which records where groups open and
//! close.
use crate::matcher::holds_of;
use crate::matcher::Matcher;
use crate::matcher::reads_nothing;
use crate::matcher::MatcherKind;
use crate::nfa::listed;
use crate::nfa::name_view;
use crate::nfa::NFAutomata;
use crate::nfa::NfaView;
use vstd::hash_map::StringHashMap;
use vstd::prelude::*;
use vstd::string::StrSliceExecFns;
use vstd::string::StringExecFns;

verus! {

/// Where a group opened and closed during a search, as positions counted in
/// characters of the input.
pub struct GroupSpan {
    pub index: u32,
    pub left: nat,
    pub right: Option<nat>,
    pub name: Option<Seq<char>>,
}

/// One point of the search: an input position, a state, the states entered
/// through epsilon transitions since the last character was read, and the
/// groups that are open on this branch.
pub struct FrameView {
    pub pos: nat,
    pub state: usize,
    pub visited: Seq<usize>,
    pub open: Set<u32>,
}

/// What a search leaves behind: the captures of the accepting branch, if one
/// was found, the record of groups as the search left it, and the number of
/// frames it looked at.
pub struct Outcome {
    pub found: Option<Map<Seq<char>, Seq<char>>>,
    pub store: Seq<GroupSpan>,
    pub steps: nat,
}

/// The decimal digit `d` as a character.
pub open spec fn digit(d: nat) -> char {
    if d == 0 {
        '0'
    } else if d == 1 {
        '1'
    } else if d == 2 {
        '2'
    } else if d == 3 {
        '3'
    } else if d == 4 {
        '4'
    } else if d == 5 {
        '5'
    } else if d == 6 {
        '6'
    } else if d == 7 {
        '7'
    } else if d == 8 {
        '8'
    } else {
        '9'
    }
}

/// The decimal numeral of `n`, without leading zeros.
pub open spec fn decimal(n: nat) -> Seq<char>
    decreases n,
{
    if n < 10 {
        seq![digit(n)]
    } else {
        decimal(n / 10).push(digit(n % 10))
    }
}

/// Whether the record of groups has an entry for group `g`.
pub open spec fn store_has(store: Seq<GroupSpan>, g: u32) -> bool {
    exists|i: int| 0 <= i < store.len() && (#[trigger] store[i]).index == g
}

/// Group `g` opens at `pos`: a first opening makes the entry, a later one
/// leaves it as it is.
pub open spec fn open_group(store: Seq<GroupSpan>, g: u32, name: Option<Seq<char>>, pos: nat) -> Seq<
    GroupSpan,
> {
    if store_has(store, g) {
        store
    } else {
        store.push(GroupSpan { index: g, left: pos, right: None, name })
    }
}

/// Group `g` closes at `pos`.
pub open spec fn close_group(store: Seq<GroupSpan>, g: u32, pos: nat) -> Seq<GroupSpan> {
    Seq::new(
        store.len(),
        |i: int|
            if store[i].index == g {
                GroupSpan { right: Some(pos), ..store[i] }
            } else {
                store[i]
            },
    )
}

/// The first `n` start markers of a state, applied at `pos`: each group is
/// open from here on, and is recorded if it was not yet.
pub open spec fn open_all(
    marks: Seq<(u32, Option<Seq<char>>)>,
    n: nat,
    pos: nat,
    open: Set<u32>,
    store: Seq<GroupSpan>,
) -> (Set<u32>, Seq<GroupSpan>)
    decreases n,
{
    if n == 0 || n > marks.len() {
        (open, store)
    } else {
        let (o, s) = open_all(marks, (n - 1) as nat, pos, open, store);
        (o.insert(marks[n - 1].0), open_group(s, marks[n - 1].0, marks[n - 1].1, pos))
    }
}

/// The first `n` end markers of a state, applied at `pos`: a group that is
/// open on this branch closes here.
pub open spec fn close_all(
    marks: Seq<(u32, Option<Seq<char>>)>,
    n: nat,
    pos: nat,
    open: Set<u32>,
    store: Seq<GroupSpan>,
) -> (Set<u32>, Seq<GroupSpan>)
    decreases n,
{
    if n == 0 || n > marks.len() {
        (open, store)
    } else {
        let (o, s) = close_all(marks, (n - 1) as nat, pos, open, store);
        if o.contains(marks[n - 1].0) {
            (o.remove(marks[n - 1].0), close_group(s, marks[n - 1].0, pos))
        } else {
            (o, s)
        }
    }
}

/// The text a recorded group stands for, if the group was closed at or after
/// the place where it opened.
pub open spec fn span_text(input: Seq<char>, e: GroupSpan) -> Option<Seq<char>> {
    match e.right {
        Some(r) => if e.left <= r && r <= input.len() {
            Some(input.subrange(e.left as int, r as int))
        } else {
            None
        },
        None => None,
    }
}

/// The captures that the first `n` entries of the record give: each closed
/// group under its decimal index and, if it has one, under its name. Where
/// two entries give the same key, the later one stands.
pub open spec fn captures(store: Seq<GroupSpan>, n: nat, input: Seq<char>) -> Map<
    Seq<char>,
    Seq<char>,
>
    decreases n,
{
    if n == 0 || n > store.len() {
        Map::empty()
    } else {
        let m = captures(store, (n - 1) as nat, input);
        let e = store[n - 1];
        match span_text(input, e) {
            None => m,
            Some(t) => {
                let numbered = m.insert(decimal(e.index as nat), t);
                match e.name {
                    Some(name) => numbered.insert(name, t),
                    None => numbered,
                }
            },
        }
    }
}

/// How many of the states below `n` are not among `visited`.
pub open spec fn unvisited(visited: Seq<usize>, n: nat) -> nat
    decreases n,
{
    if n == 0 {
        0
    } else {
        unvisited(visited, (n - 1) as nat) + if listed(visited, n - 1) {
            0nat
        } else {
            1nat
        }
    }
}

/// Entering a state that was not visited leaves fewer unvisited states.
pub proof fn lemma_unvisited_push(visited: Seq<usize>, t: usize, n: nat)
    ensures
        unvisited(visited.push(t), n) <= unvisited(visited, n),
        t < n && !listed(visited, t as int) ==> unvisited(visited.push(t), n) < unvisited(visited, n),
    decreases n,
{
    if n > 0 {
        lemma_unvisited_push(visited, t, (n - 1) as nat);
        let after = visited.push(t);
        if listed(visited, n - 1) {
            let i = choose|i: int| 0 <= i < visited.len() && #[trigger] visited[i] == n - 1;
            assert(after[i] == n - 1);
        }
        if n - 1 == t {
            assert(after[visited.len() as int] == t);
        }
    }
}

/// Whether a transition labelled `m` can be taken at `pos`: before the end
/// of the input the label must hold of the next character; at the end only
/// an epsilon transition can be taken.
pub open spec fn eligible(m: MatcherKind, input: Seq<char>, pos: nat) -> bool {
    if pos < input.len() {
        holds_of(m, input[pos as int])
    } else {
        reads_nothing(m)
    }
}

/// The frame that taking transition `tr` from frame `f` leads to, if the
/// transition can be taken. An epsilon transition stays at the position and
/// may not enter a state entered before at this position; any other
/// transition moves one character on and forgets the states entered.
pub open spec fn successor(
    nfa: NfaView,
    input: Seq<char>,
    f: FrameView,
    open: Set<u32>,
    tr: (MatcherKind, usize),
) -> Option<FrameView> {
    if !eligible(tr.0, input, f.pos) || tr.1 >= nfa.states.len() {
        None
    } else if reads_nothing(tr.0) {
        if listed(f.visited, tr.1 as int) {
            None
        } else {
            Some(FrameView { pos: f.pos, state: tr.1, visited: f.visited.push(tr.1), open })
        }
    } else {
        Some(FrameView { pos: f.pos + 1, state: tr.1, visited: Seq::empty(), open })
    }
}

/// Whether the search stops at frame `f` with success. With `whole` set the
/// input must have been read to its end.
pub open spec fn accepting(nfa: NfaView, input: Seq<char>, whole: bool, f: FrameView) -> bool {
    nfa.states[f.state as int].is_ending && (!whole || f.pos == input.len())
}

/// The search from frame `f`: the markers of the state are applied, then
/// the search either stops with success or goes through the transitions of
/// the state in their order.
pub open spec fn explore(
    nfa: NfaView,
    input: Seq<char>,
    whole: bool,
    f: FrameView,
    store: Seq<GroupSpan>,
) -> Outcome
    decreases input.len() - f.pos, unvisited(f.visited, nfa.states.len()), nfa.states[f.state as int].transitions.len()
        + 1,
{
    if f.state >= nfa.states.len() || f.pos > input.len() {
        Outcome { found: None, store, steps: 1 }
    } else {
        let s = nfa.states[f.state as int];
        let (o1, s1) = open_all(s.start_groups, s.start_groups.len(), f.pos, f.open, store);
        let (o2, s2) = close_all(s.end_groups, s.end_groups.len(), f.pos, o1, s1);
        if accepting(nfa, input, whole, f) {
            Outcome { found: Some(captures(s2, s2.len(), input)), store: s2, steps: 1 }
        } else {
            let rest = explore_from(nfa, input, whole, f, o2, s2, 0);
            Outcome { steps: rest.steps + 1, ..rest }
        }
    }
}

/// The search through the transitions of the state of `f` from the `k`-th
/// on: the first branch that succeeds ends it; a branch that fails hands its
/// record of groups on to the next.
pub open spec fn explore_from(
    nfa: NfaView,
    input: Seq<char>,
    whole: bool,
    f: FrameView,
    open: Set<u32>,
    store: Seq<GroupSpan>,
    k: nat,
) -> Outcome
    decreases input.len() - f.pos, unvisited(f.visited, nfa.states.len()), nfa.states[f.state as int].transitions.len()
        - k,
{
    if f.state >= nfa.states.len() || f.pos > input.len() || k
        >= nfa.states[f.state as int].transitions.len() {
        Outcome { found: None, store, steps: 0 }
    } else {
        let tr = nfa.states[f.state as int].transitions[k as int];
        match successor(nfa, input, f, open, tr) {
            None => explore_from(nfa, input, whole, f, open, store, k + 1),
            Some(c) => {
                proof {
                    lemma_unvisited_push(f.visited, tr.1, nfa.states.len());
                }
                let first = explore(nfa, input, whole, c, store);
                if first.found is Some {
                    first
                } else {
                    let rest = explore_from(nfa, input, whole, f, open, first.store, k + 1);
                    Outcome { steps: first.steps + rest.steps, ..rest }
                }
            },
        }
    }
}

/// The frame a search starts from.
pub open spec fn first_frame(nfa: NfaView) -> FrameView {
    FrameView { pos: 0, state: nfa.initial, visited: Seq::empty(), open: Set::empty() }
}

/// What a search of `input` from the initial state finds: the captures of
/// the first accepting branch in the order of the transitions, or nothing.
pub open spec fn search(nfa: NfaView, input: Seq<char>, whole: bool) -> Option<
    Map<Seq<char>, Seq<char>>,
> {
    explore(nfa, input, whole, first_frame(nfa), Seq::empty()).found
}


/// The frames that the transitions of the state of `f` from the `k`-th on
/// put on the stack, in the order in which they are put there: the last
/// transition first, so that the first ends up on top.
pub open spec fn pushed(nfa: NfaView, input: Seq<char>, f: FrameView, open: Set<u32>, k: nat) -> Seq<
    FrameView,
>
    decreases nfa.states[f.state as int].transitions.len() - k,
{
    let trs = nfa.states[f.state as int].transitions;
    if k >= trs.len() {
        Seq::empty()
    } else {
        match successor(nfa, input, f, open, trs[k as int]) {
            None => pushed(nfa, input, f, open, k + 1),
            Some(c) => pushed(nfa, input, f, open, k + 1).push(c),
        }
    }
}

/// The search that takes the frames of a stack from the top down.
pub open spec fn explore_stack(
    nfa: NfaView,
    input: Seq<char>,
    whole: bool,
    frames: Seq<FrameView>,
    store: Seq<GroupSpan>,
) -> Outcome
    decreases frames.len(),
{
    if frames.len() == 0 {
        Outcome { found: None, store, steps: 0 }
    } else {
        let top = explore(nfa, input, whole, frames.last(), store);
        if top.found is Some {
            top
        } else {
            let rest = explore_stack(nfa, input, whole, frames.drop_last(), top.store);
            Outcome { steps: top.steps + rest.steps, ..rest }
        }
    }
}

/// Putting the successors of a frame on the stack and going on from the top
/// is the search through the transitions of that frame, followed by the
/// rest of the stack.
pub proof fn lemma_explore_pushed(
    nfa: NfaView,
    input: Seq<char>,
    whole: bool,
    rest: Seq<FrameView>,
    f: FrameView,
    open: Set<u32>,
    store: Seq<GroupSpan>,
    k: nat,
)
    requires
        f.state < nfa.states.len(),
        f.pos <= input.len(),
    ensures
        ({
            let tail = explore_from(nfa, input, whole, f, open, store, k);
            let all = explore_stack(nfa, input, whole, rest + pushed(nfa, input, f, open, k), store);
            let below = explore_stack(nfa, input, whole, rest, tail.store);
            if tail.found is Some {
                all == tail
            } else {
                all == (Outcome { steps: tail.steps + below.steps, ..below })
            }
        }),
    decreases nfa.states[f.state as int].transitions.len() - k,
{
    let trs = nfa.states[f.state as int].transitions;
    if k >= trs.len() {
        assert(rest + pushed(nfa, input, f, open, k) =~= rest);
    } else {
        match successor(nfa, input, f, open, trs[k as int]) {
            None => {
                lemma_explore_pushed(nfa, input, whole, rest, f, open, store, k + 1);
            },
            Some(c) => {
                let frames = rest + pushed(nfa, input, f, open, k);
                let lower = rest + pushed(nfa, input, f, open, k + 1);
                assert(frames =~= lower.push(c));
                assert(frames.last() == c);
                assert(frames.drop_last() =~= lower);
                let first = explore(nfa, input, whole, c, store);
                if first.found is None {
                    lemma_explore_pushed(nfa, input, whole, rest, f, open, first.store, k + 1);
                }
            },
        }
    }
}

/// Where a group opened and where it closed, counted in characters of the
/// input, and the name of the group.
#[derive(Debug)]
pub struct CaptureGroupRange(pub usize, pub Option<usize>, pub Option<String>);

/// An entry of the record of groups as contracts speak of it.
pub open spec fn span_view(e: (u32, CaptureGroupRange)) -> GroupSpan {
    GroupSpan {
        index: e.0,
        left: e.1.0 as nat,
        right: match e.1.1 {
            Some(r) => Some(r as nat),
            None => None,
        },
        name: name_view(e.1.2),
    }
}

/// The record of groups as contracts speak of it.
pub open spec fn store_view(v: Seq<(u32, CaptureGroupRange)>) -> Seq<GroupSpan> {
    Seq::new(v.len(), |i: int| span_view(v[i]))
}

/// The captures that a search returns, as a map from keys to texts.
pub open spec fn captures_of(m: StringHashMap<String>) -> Map<Seq<char>, Seq<char>> {
    m@.map_values(|s: String| s@)
}

/// `u32::to_string` of std: the decimal numeral of `g`.
#[verifier::external_body]
fn group_key(g: u32) -> (s: String)
    ensures
        s@ == decimal(g as nat),
{
    g.to_string()
}

/// A frame of the search stack.
struct StackFrame {
    pos: usize,
    state: usize,
    visited: Vec<usize>,
    open: Vec<u32>,
}

impl View for StackFrame {
    type V = FrameView;

    closed spec fn view(&self) -> FrameView {
        FrameView {
            pos: self.pos as nat,
            state: self.state,
            visited: self.visited@,
            open: self.open@.to_set(),
        }
    }
}

/// A stack of frames as contracts speak of it.
spec fn frames_view(v: Seq<StackFrame>) -> Seq<FrameView> {
    Seq::new(v.len(), |i: int| v[i]@)
}

/// Every frame names a state of the automaton and a position of the input.
spec fn frames_valid(nfa: NfaView, input: Seq<char>, frames: Seq<FrameView>) -> bool {
    forall|i: int|
        0 <= i < frames.len() ==> (#[trigger] frames[i]).state < nfa.states.len() && frames[i].pos
            <= input.len()
}

/// The characters of `s`.
fn chars_of(s: &str) -> (v: Vec<char>)
    ensures
        v@ == s@,
{
    let mut v: Vec<char> = Vec::new();
    for c in it: s.chars()
        invariant
            it.seq() == s@,
            v@ == s@.take(it.index() as int),
    {
        v.push(c);
    }
    assert(s@.take(s@.len() as int) =~= s@);
    v
}

/// Whether state `x` is among `visited`.
fn was_seen(visited: &Vec<usize>, x: usize) -> (r: bool)
    ensures
        r == listed(visited@, x as int),
{
    let mut i: usize = 0;
    while i < visited.len()
        invariant
            i <= visited.len(),
            forall|j: int| 0 <= j < i ==> visited@[j] != x,
        decreases visited.len() - i,
    {
        if visited[i] == x {
            return true;
        }
        i += 1;
    }
    false
}

/// Whether group `g` is open.
fn is_open(open: &Vec<u32>, g: u32) -> (r: bool)
    ensures
        r == open@.to_set().contains(g),
{
    let mut i: usize = 0;
    while i < open.len()
        invariant
            i <= open.len(),
            forall|j: int| 0 <= j < i ==> open@[j] != g,
        decreases open.len() - i,
    {
        if open[i] == g {
            return true;
        }
        i += 1;
    }
    false
}

/// The open groups without group `g`.
fn without_group(open: &Vec<u32>, g: u32) -> (r: Vec<u32>)
    ensures
        r@.to_set() == open@.to_set().remove(g),
{
    let mut r: Vec<u32> = Vec::new();
    let mut i: usize = 0;
    while i < open.len()
        invariant
            i <= open.len(),
            forall|k: int| 0 <= k < r@.len() ==> #[trigger] r@[k] != g && open@.contains(r@[k]),
            forall|j: int| 0 <= j < i && #[trigger] open@[j] != g ==> r@.contains(open@[j]),
        decreases open.len() - i,
    {
        let ghost before = r@;
        let x = open[i];
        if x != g {
            r.push(x);
        }
        proof {
            assert forall|j: int| 0 <= j < i + 1 && #[trigger] open@[j] != g implies r@.contains(
                open@[j],
            ) by {
                if j < i {
                    let k = choose|k: int| 0 <= k < before.len() && before[k] == open@[j];
                    assert(r@[k] == open@[j]);
                } else {
                    assert(r@[before.len() as int] == x);
                }
            }
        }
        i += 1;
    }
    proof {
        assert forall|y: u32| r@.to_set().contains(y) <==> open@.to_set().remove(g).contains(
            y,
        ) by {
            if r@.contains(y) {
                let k = choose|k: int| 0 <= k < r@.len() && r@[k] == y;
                assert(r@[k] != g && open@.contains(r@[k]));
            }
            if open@.contains(y) && y != g {
                let j = choose|j: int| 0 <= j < open@.len() && open@[j] == y;
                assert(r@.contains(open@[j]));
            }
        }
        assert(r@.to_set() =~= open@.to_set().remove(g));
    }
    r
}

/// Whether the record has an entry for group `g`.
fn has_group(store: &Vec<(u32, CaptureGroupRange)>, g: u32) -> (r: bool)
    ensures
        r == store_has(store_view(store@), g),
{
    let mut i: usize = 0;
    while i < store.len()
        invariant
            i <= store.len(),
            forall|j: int| 0 <= j < i ==> (#[trigger] store_view(store@)[j]).index != g,
        decreases store.len() - i,
    {
        if store[i].0 == g {
            assert(store_view(store@)[i as int].index == g);
            return true;
        }
        i += 1;
    }
    false
}

/// Writes `pos` as the closing position of group `g`.
fn close_entry(store: &mut Vec<(u32, CaptureGroupRange)>, g: u32, pos: usize)
    ensures
        store_view(final(store)@) == close_group(store_view(old(store)@), g, pos as nat),
{
    let mut i: usize = 0;
    while i < store.len()
        invariant
            i <= store.len(),
            store.len() == old(store).len(),
            forall|k: int|
                0 <= k < i ==> span_view(#[trigger] store@[k]) == close_group(
                    store_view(old(store)@),
                    g,
                    pos as nat,
                )[k],
            forall|k: int| i <= k < store.len() ==> #[trigger] store@[k] == old(store)@[k],
        decreases store.len() - i,
    {
        if store[i].0 == g {
            store[i].1.1 = Some(pos);
        }
        i += 1;
    }
    assert(store_view(store@) =~= close_group(store_view(old(store)@), g, pos as nat));
}

/// Applies the start markers of a state at `pos`.
fn open_marks(
    marks: &Vec<(u32, Option<String>)>,
    pos: usize,
    open: &mut Vec<u32>,
    store: &mut Vec<(u32, CaptureGroupRange)>,
)
    ensures
        (final(open)@.to_set(), store_view(final(store)@)) == open_all(
            crate::nfa::marks_view(marks@),
            marks@.len(),
            pos as nat,
            old(open)@.to_set(),
            store_view(old(store)@),
        ),
{
    let mut j: usize = 0;
    while j < marks.len()
        invariant
            j <= marks.len(),
            (open@.to_set(), store_view(store@)) == open_all(
                crate::nfa::marks_view(marks@),
                j as nat,
                pos as nat,
                old(open)@.to_set(),
                store_view(old(store)@),
            ),
        decreases marks.len() - j,
    {
        let g = marks[j].0;
        proof {
            open@.lemma_push_to_set_commute(g);
        }
        open.push(g);
        if !has_group(store, g) {
            let ghost before = store@;
            let name = marks[j].1.clone();
            store.push((g, CaptureGroupRange(pos, None, name)));
            assert(store_view(store@) =~= store_view(before).push(
                GroupSpan {
                    index: g,
                    left: pos as nat,
                    right: None,
                    name: name_view(marks@[j as int].1),
                },
            ));
        }
        j += 1;
    }
}

/// Applies the end markers of a state at `pos`.
fn close_marks(
    marks: &Vec<(u32, Option<String>)>,
    pos: usize,
    open: &mut Vec<u32>,
    store: &mut Vec<(u32, CaptureGroupRange)>,
)
    ensures
        (final(open)@.to_set(), store_view(final(store)@)) == close_all(
            crate::nfa::marks_view(marks@),
            marks@.len(),
            pos as nat,
            old(open)@.to_set(),
            store_view(old(store)@),
        ),
{
    let mut j: usize = 0;
    while j < marks.len()
        invariant
            j <= marks.len(),
            (open@.to_set(), store_view(store@)) == close_all(
                crate::nfa::marks_view(marks@),
                j as nat,
                pos as nat,
                old(open)@.to_set(),
                store_view(old(store)@),
            ),
        decreases marks.len() - j,
    {
        let g = marks[j].0;
        if is_open(open, g) {
            close_entry(store, g, pos);
            *open = without_group(open, g);
        }
        j += 1;
    }
}

/// The captures that the record of groups gives.
fn collect(store: &Vec<(u32, CaptureGroupRange)>, input: &str, len: usize) -> (m: StringHashMap<String>)
    requires
        len == input@.len(),
    ensures
        captures_of(m) == captures(store_view(store@), store@.len() as nat, input@),
{
    let mut m: StringHashMap<String> = StringHashMap::new();
    assert(captures_of(m) =~= Map::empty());
    let mut i: usize = 0;
    while i < store.len()
        invariant
            i <= store.len(),
            len == input@.len(),
            captures_of(m) == captures(store_view(store@), i as nat, input@),
        decreases store.len() - i,
    {
        let ghost before = captures_of(m);
        let e = &store[i];
        if let Some(r) = e.1.1 {
            if e.1.0 <= r && r <= len {
                let text = input.substring_char(e.1.0, r);
                m.insert(group_key(e.0), String::from_str(text));
                assert(captures_of(m) =~= before.insert(decimal(e.0 as nat), text@));
                if let Some(name) = &e.1.2 {
                    let ghost numbered = captures_of(m);
                    m.insert(name.clone(), String::from_str(text));
                    assert(captures_of(m) =~= numbered.insert(name@, text@));
                }
            }
        }
        i += 1;
    }
    m
}

impl NFAutomata {
    /// Puts on the stack the frames that the transitions of the state of
    /// `frame` lead to, the first transition on top.
    fn push_successors(
        &self,
        chars: &Vec<char>,
        frame: &StackFrame,
        open: &Vec<u32>,
        stack: &mut Vec<StackFrame>,
    )
        requires
            self@.targets_valid(),
            frame.state < self@.states.len(),
            frame.pos <= chars@.len(),
            frames_valid(self@, chars@, frames_view(old(stack)@)),
        ensures
            frames_view(final(stack)@) == frames_view(old(stack)@) + pushed(
                self@,
                chars@,
                frame@,
                open@.to_set(),
                0,
            ),
            frames_valid(self@, chars@, frames_view(final(stack)@)),
    {
        let state = &self.states[frame.state];
        let ghost base = frames_view(stack@);
        let ghost f = frame@;
        let ghost o = open@.to_set();
        let mut j: usize = state.matchers.len();
        assert(self@.states[frame.state as int] == state@);
        assert(frames_view(stack@) =~= base + pushed(self@, chars@, f, o, j as nat));
        while j > 0
            invariant
                j <= state.matchers.len(),
                self@.targets_valid(),
                frame.state < self@.states.len(),
                self@.states[frame.state as int] == state@,
                frame.pos <= chars@.len(),
                f == frame@,
                o == open@.to_set(),
                frames_view(stack@) == base + pushed(self@, chars@, f, o, j as nat),
                frames_valid(self@, chars@, frames_view(stack@)),
            decreases j,
        {
            j -= 1;
            let ghost below = frames_view(stack@);
            let ghost lower = stack@;
            let (m, to) = state.matchers[j];
            assert(self@.states[frame.state as int].transitions[j as int].1 < self@.states.len());
            let ok = if frame.pos < chars.len() {
                m.matches(chars[frame.pos])
            } else {
                m.is_epsilon()
            };
            if ok {
                if m.is_epsilon() {
                    if !was_seen(&frame.visited, to) {
                        let mut mem = frame.visited.clone();
                        mem.push(to);
                        stack.push(
                            StackFrame { pos: frame.pos, state: to, visited: mem, open: open.clone() },
                        );
                        assert(frames_view(stack@) =~= below.push(
                            successor(self@, chars@, f, o, (m, to))->0,
                        ));
                    }
                } else {
                    stack.push(
                        StackFrame {
                            pos: frame.pos + 1,
                            state: to,
                            visited: Vec::new(),
                            open: open.clone(),
                        },
                    );
                    assert(frames_view(stack@) =~= below.push(
                        successor(self@, chars@, f, o, (m, to))->0,
                    ));
                }
            }
            assert(frames_view(stack@) =~= base + pushed(self@, chars@, f, o, j as nat));
        }
    }

    /// The search of `input` from the initial state, with an explicit stack.
    fn run(&self, input: &str, whole: bool) -> (r: Option<StringHashMap<String>>)
        requires
            self@.runnable(),
        ensures
            match r {
                Some(m) => search(self@, input@, whole) == Some(captures_of(m)),
                None => search(self@, input@, whole) is None,
            },
    {
        let chars = chars_of(input);
        let n = chars.len();
        let mut stack: Vec<StackFrame> = Vec::new();
        stack.push(StackFrame { pos: 0, state: self.initial, visited: Vec::new(), open: Vec::new() });
        let mut store: Vec<(u32, CaptureGroupRange)> = Vec::new();
        proof {
            let frames = frames_view(stack@);
            assert(frames.last() == first_frame(self@)) by {
                assert(stack@[0].open@.to_set() =~= Set::<u32>::empty());
            }
            assert(frames.drop_last() =~= Seq::<FrameView>::empty());
            assert(store_view(store@) =~= Seq::<GroupSpan>::empty());
            let top = explore(self@, input@, whole, frames.last(), store_view(store@));
            assert(explore_stack(self@, input@, whole, frames.drop_last(), top.store).found is None);
            assert(explore_stack(self@, input@, whole, frames, store_view(store@)).found
                == top.found);
        }
        while stack.len() > 0
            invariant
                self@.runnable(),
                chars@ == input@,
                n == chars@.len(),
                frames_valid(self@, input@, frames_view(stack@)),
                explore_stack(self@, input@, whole, frames_view(stack@), store_view(store@)).found
                    == search(self@, input@, whole),
            decreases explore_stack(self@, input@, whole, frames_view(stack@), store_view(store@)).steps,
        {
            let ghost before = frames_view(stack@);
            let ghost store0 = store_view(store@);
            let frame = stack.pop().unwrap();
            let ghost rest = frames_view(stack@);
            let ghost f = frame@;
            assert(before.last() == f);
            assert(before.drop_last() =~= rest);
            let state = &self.states[frame.state];
            assert(self@.states[frame.state as int] == state@);
            let mut open = frame.open.clone();
            assert(open@.to_set() == f.open);
            open_marks(&state.start_group, frame.pos, &mut open, &mut store);
            close_marks(&state.end_group, frame.pos, &mut open, &mut store);
            if state.is_ending && (!whole || frame.pos == n) {
                return Some(collect(&store, input, n));
            }
            self.push_successors(&chars, &frame, &open, &mut stack);
            proof {
                lemma_explore_pushed(
                    self@,
                    input@,
                    whole,
                    rest,
                    f,
                    open@.to_set(),
                    store_view(store@),
                    0,
                );
            }
        }
        None
    }

    /// Runs the automaton on `input`. The input is accepted when the search
    /// reaches an ending state with the whole input read; the result then
    /// holds the text of every closed group under its decimal index and
    /// under its name.
    pub fn compute(&self, input: &str) -> (r: Option<StringHashMap<String>>)
        requires
            self@.runnable(),
        ensures
            match r {
                Some(m) => search(self@, input@, true) == Some(captures_of(m)),
                None => search(self@, input@, true) is None,
            },
            r is Some <==> crate::language::accepts(self@, input@),
    {
        proof {
            crate::language::lemma_search_accepts(self@, input@, true);
        }
        self.run(input, true)
    }

    /// Runs the automaton on the beginning of `input`: the search stops with
    /// success as soon as it reaches an ending state, whatever is left of the
    /// input.
    pub fn compute_prefix(&self, input: &str) -> (r: Option<StringHashMap<String>>)
        requires
            self@.runnable(),
        ensures
            match r {
                Some(m) => search(self@, input@, false) == Some(captures_of(m)),
                None => search(self@, input@, false) is None,
            },
            r is Some <==> crate::language::accepts_prefix(self@, input@),
    {
        proof {
            crate::language::lemma_search_accepts(self@, input@, false);
        }
        self.run(input, false)
    }
}

} // verus!
