//! The automaton: an indexed collection of states with labelled transitions,
//! one initial state and a list of ending states, together with the
//! operations that build it up and splice one automaton into another.
use crate::matcher::MatcherKind;
use std::collections::VecDeque;
use vstd::prelude::*;

verus! {

/// A state as contracts speak of it.
#[verifier::ext_equal]
pub struct StateView {
    /// Outgoing transitions, each a label and a target, in priority order.
    pub transitions: Seq<(MatcherKind, usize)>,
    pub is_initial: bool,
    pub is_ending: bool,
    /// The groups that open here: index and optional name.
    pub start_groups: Seq<(u32, Option<Seq<char>>)>,
    /// The groups that close here.
    pub end_groups: Seq<(u32, Option<Seq<char>>)>,
}

/// An automaton as contracts speak of it.
#[verifier::ext_equal]
pub struct NfaView {
    pub states: Seq<StateView>,
    pub initial: usize,
    /// The ending states, in the order in which they were added.
    pub ending: Seq<usize>,
}

/// The name of a group as a sequence of characters.
pub open spec fn name_view(n: Option<String>) -> Option<Seq<char>> {
    match n {
        Some(s) => Some(s@),
        None => None,
    }
}

/// A list of group markers with each name as a sequence of characters.
pub open spec fn marks_view(v: Seq<(u32, Option<String>)>) -> Seq<(u32, Option<Seq<char>>)> {
    Seq::new(v.len(), |i: int| (v[i].0, name_view(v[i].1)))
}

/// `s` with every occurrence of `x` taken out.
pub open spec fn without(s: Seq<usize>, x: usize) -> Seq<usize>
    decreases s.len(),
{
    if s.len() == 0 {
        s
    } else if s.last() == x {
        without(s.drop_last(), x)
    } else {
        without(s.drop_last(), x).push(s.last())
    }
}

/// Whether state `k` is among `s`.
pub open spec fn listed(s: Seq<usize>, k: int) -> bool {
    exists|i: int| 0 <= i < s.len() && #[trigger] s[i] == k
}

/// A state with no transition, no flag and no marker.
pub open spec fn blank_state() -> StateView {
    StateView {
        transitions: Seq::empty(),
        is_initial: false,
        is_ending: false,
        start_groups: Seq::empty(),
        end_groups: Seq::empty(),
    }
}

impl NfaView {
    /// The automaton with no state.
    pub open spec fn empty() -> NfaView {
        NfaView { states: Seq::empty(), initial: 0, ending: Seq::empty() }
    }

    /// One blank state more, at the end.
    pub open spec fn add_state(self) -> NfaView {
        NfaView { states: self.states.push(blank_state()), ..self }
    }

    /// `number` blank states more, at the end.
    pub open spec fn fill_state(self, number: nat) -> NfaView
        decreases number,
    {
        if number == 0 {
            self
        } else {
            self.fill_state((number - 1) as nat).add_state()
        }
    }

    /// Marks `id` as the initial state and takes the mark off the state that
    /// was initial before. An index that names no state changes nothing.
    pub open spec fn set_initial(self, id: usize) -> NfaView {
        if id < self.states.len() {
            let cleared = if self.initial < self.states.len() {
                self.states.update(
                    self.initial as int,
                    StateView { is_initial: false, ..self.states[self.initial as int] },
                )
            } else {
                self.states
            };
            NfaView {
                states: cleared.update(
                    id as int,
                    StateView { is_initial: true, ..cleared[id as int] },
                ),
                initial: id,
                ending: self.ending,
            }
        } else {
            self
        }
    }

    /// State `id` flagged as an ending state and listed once among the ending
    /// states. An index that names no state changes nothing.
    pub open spec fn add_ending(self, id: usize) -> NfaView {
        if id < self.states.len() {
            NfaView {
                states: self.states.update(
                    id as int,
                    StateView { is_ending: true, ..self.states[id as int] },
                ),
                initial: self.initial,
                ending: if self.ending.contains(id) {
                    self.ending
                } else {
                    self.ending.push(id)
                },
            }
        } else {
            self
        }
    }

    /// State `id` no longer flagged and no longer listed as an ending state. An
    /// index that names no state changes nothing.
    pub open spec fn remove_ending(self, id: usize) -> NfaView {
        if id < self.states.len() {
            NfaView {
                states: self.states.update(
                    id as int,
                    StateView { is_ending: false, ..self.states[id as int] },
                ),
                initial: self.initial,
                ending: without(self.ending, id),
            }
        } else {
            self
        }
    }

    /// A transition more at the tail of the transitions of state `from`. An
    /// index `from` that names no state changes nothing.
    pub open spec fn add_transition(self, from: usize, to: usize, m: MatcherKind) -> NfaView {
        if from < self.states.len() {
            let s = self.states[from as int];
            NfaView {
                states: self.states.update(
                    from as int,
                    StateView { transitions: s.transitions.push((m, to)), ..s },
                ),
                ..self
            }
        } else {
            self
        }
    }

    /// A transition more at the head of the transitions of state `from`. An
    /// index `from` that names no state changes nothing.
    pub open spec fn unshift_transition(self, from: usize, to: usize, m: MatcherKind) -> NfaView {
        if from < self.states.len() {
            let s = self.states[from as int];
            NfaView {
                states: self.states.update(
                    from as int,
                    StateView { transitions: seq![(m, to)] + s.transitions, ..s },
                ),
                ..self
            }
        } else {
            self
        }
    }

    /// A start marker of group `index` more at state `state`.
    pub open spec fn mark_start(self, state: usize, index: u32, name: Option<Seq<char>>) -> NfaView {
        if state < self.states.len() {
            let s = self.states[state as int];
            NfaView {
                states: self.states.update(
                    state as int,
                    StateView { start_groups: s.start_groups.push((index, name)), ..s },
                ),
                ..self
            }
        } else {
            self
        }
    }

    /// An end marker of group `index` more at state `state`.
    pub open spec fn mark_end(self, state: usize, index: u32, name: Option<Seq<char>>) -> NfaView {
        if state < self.states.len() {
            let s = self.states[state as int];
            NfaView {
                states: self.states.update(
                    state as int,
                    StateView { end_groups: s.end_groups.push((index, name)), ..s },
                ),
                ..self
            }
        } else {
            self
        }
    }

    /// The end marker of group `index` on the first `n` ending states.
    pub open spec fn mark_endings(self, index: u32, name: Option<Seq<char>>, n: nat) -> NfaView
        decreases n,
    {
        if n == 0 || n > self.ending.len() {
            self
        } else {
            self.mark_endings(index, name, (n - 1) as nat).mark_end(self.ending[n - 1], index, name)
        }
    }

    /// The start marker of group `index` on the initial state and its end
    /// marker on every ending state.
    pub open spec fn mark_capture_group(self, index: u32, name: Option<Seq<char>>) -> NfaView {
        self.mark_start(self.initial, index, name).mark_endings(index, name, self.ending.len())
    }

    /// Where state `k` of a spliced automaton lands: its initial state on
    /// `union_state`, every other state in the region that begins at `base`,
    /// one place lower because the initial state takes none.
    pub open spec fn graft_index(other: NfaView, base: nat, union_state: usize, k: int) -> usize {
        if other.states[k].is_initial {
            union_state
        } else {
            (k + base - 1) as usize
        }
    }

    /// The first `n` ending states of `other`, added under the mapping.
    pub open spec fn graft_endings(self, other: NfaView, base: nat, union_state: usize, n: nat) -> NfaView
        decreases n,
    {
        if n == 0 || n > other.ending.len() {
            self
        } else {
            self.graft_endings(other, base, union_state, (n - 1) as nat).add_ending(
                Self::graft_index(other, base, union_state, other.ending[n - 1] as int),
            )
        }
    }

    /// The first `n` of `marks`, added as start markers of state `at`.
    pub open spec fn graft_starts(self, marks: Seq<(u32, Option<Seq<char>>)>, at: usize, n: nat) -> NfaView
        decreases n,
    {
        if n == 0 || n > marks.len() {
            self
        } else {
            self.graft_starts(marks, at, (n - 1) as nat).mark_start(
                at,
                marks[n - 1].0,
                marks[n - 1].1,
            )
        }
    }

    /// The first `n` of `marks`, added as end markers of state `at`.
    pub open spec fn graft_ends(self, marks: Seq<(u32, Option<Seq<char>>)>, at: usize, n: nat) -> NfaView
        decreases n,
    {
        if n == 0 || n > marks.len() {
            self
        } else {
            self.graft_ends(marks, at, (n - 1) as nat).mark_end(at, marks[n - 1].0, marks[n - 1].1)
        }
    }

    /// The first `n` transitions of state `k` of `other`, added with both ends
    /// under the mapping.
    pub open spec fn graft_transitions(
        self,
        other: NfaView,
        base: nat,
        union_state: usize,
        k: int,
        n: nat,
    ) -> NfaView
        decreases n,
    {
        let trs = other.states[k].transitions;
        if n == 0 || n > trs.len() {
            self
        } else {
            self.graft_transitions(other, base, union_state, k, (n - 1) as nat).add_transition(
                Self::graft_index(other, base, union_state, k),
                Self::graft_index(other, base, union_state, trs[n - 1].1 as int),
                trs[n - 1].0,
            )
        }
    }

    /// The markers and transitions of state `k` of `other`, added under the
    /// mapping.
    pub open spec fn graft_state(self, other: NfaView, base: nat, union_state: usize, k: int) -> NfaView {
        let at = Self::graft_index(other, base, union_state, k);
        let s = other.states[k];
        self.graft_starts(s.start_groups, at, s.start_groups.len()).graft_ends(
            s.end_groups,
            at,
            s.end_groups.len(),
        ).graft_transitions(other, base, union_state, k, s.transitions.len())
    }

    /// The markers and transitions of the first `n` states of `other`.
    pub open spec fn graft_states(self, other: NfaView, base: nat, union_state: usize, n: nat) -> NfaView
        decreases n,
    {
        if n == 0 || n > other.states.len() {
            self
        } else {
            self.graft_states(other, base, union_state, (n - 1) as nat).graft_state(
                other,
                base,
                union_state,
                n - 1,
            )
        }
    }

    /// `other` spliced in at `union_state`: the initial state of `other` is
    /// identified with `union_state`, its other states are new, `union_state`
    /// stops being an ending state, and the ending states, markers and
    /// transitions of `other` are copied under that mapping. An `other` with
    /// fewer than two states changes nothing.
    pub open spec fn append(self, other: NfaView, union_state: usize) -> NfaView {
        if other.states.len() < 2 {
            self
        } else {
            let base = self.states.len();
            self.fill_state((other.states.len() - 1) as nat).remove_ending(
                union_state,
            ).graft_endings(other, base, union_state, other.ending.len()).graft_states(
                other,
                base,
                union_state,
                other.states.len(),
            )
        }
    }

    /// Every transition leads to a state of the automaton.
    pub open spec fn targets_valid(self) -> bool {
        forall|k: int, j: int|
            0 <= k < self.states.len() && 0 <= j < self.states[k].transitions.len()
                ==> (#[trigger] self.states[k].transitions[j]).1 < self.states.len()
    }

    /// The list of ending states names each flagged state once, and no other.
    pub open spec fn endings_consistent(self) -> bool {
        &&& self.ending.no_duplicates()
        &&& forall|i: int| 0 <= i < self.ending.len() ==> #[trigger] self.ending[i] < self.states.len()
        &&& forall|k: int|
            0 <= k < self.states.len() ==> ((#[trigger] self.states[k]).is_ending <==> listed(
                self.ending,
                k,
            ))
    }

    /// No state but the recorded initial one carries the initial flag.
    pub open spec fn initial_consistent(self) -> bool {
        forall|k: int|
            0 <= k < self.states.len() && (#[trigger] self.states[k]).is_initial ==> k
                == self.initial
    }

    /// What a search asks of an automaton: an initial state that exists, and
    /// transitions that lead to states that exist.
    pub open spec fn runnable(self) -> bool {
        &&& self.initial < self.states.len()
        &&& self.targets_valid()
    }

    /// What holds of an automaton at every stage of its construction.
    pub open spec fn inv(self) -> bool {
        &&& self.targets_valid()
        &&& self.endings_consistent()
        &&& self.initial_consistent()
    }

    /// What holds of an automaton that is ready to run: the invariant, and an
    /// initial state that exists and is flagged.
    pub open spec fn wf(self) -> bool {
        &&& self.inv()
        &&& self.initial < self.states.len()
        &&& self.states[self.initial as int].is_initial
    }
}


/// Appending blank states adds that many states and leaves the rest alone.
pub proof fn lemma_fill_state(a: NfaView, number: nat)
    ensures
        a.fill_state(number).states.len() == a.states.len() + number,
        a.fill_state(number).initial == a.initial,
        a.fill_state(number).ending == a.ending,
        forall|k: int| 0 <= k < a.states.len() ==> a.fill_state(number).states[k] == a.states[k],
        forall|k: int|
            a.states.len() <= k < a.states.len() + number ==> a.fill_state(number).states[k]
                == blank_state(),
    decreases number,
{
    if number > 0 {
        lemma_fill_state(a, (number - 1) as nat);
    }
}

/// A node of the automaton.
#[derive(Clone)]
pub struct State {
    pub matchers: VecDeque<(MatcherKind, usize)>,
    pub is_initial: bool,
    pub is_ending: bool,
    pub start_group: Vec<(u32, Option<String>)>,
    pub end_group: Vec<(u32, Option<String>)>,
}

impl View for State {
    type V = StateView;

    open spec fn view(&self) -> StateView {
        StateView {
            transitions: self.matchers@,
            is_initial: self.is_initial,
            is_ending: self.is_ending,
            start_groups: marks_view(self.start_group@),
            end_groups: marks_view(self.end_group@),
        }
    }
}

/// A nondeterministic automaton, or a fragment of one.
#[derive(Clone)]
pub struct NFAutomata {
    pub states: Vec<State>,
    pub initial: usize,
    pub ending: Vec<usize>,
}

impl View for NFAutomata {
    type V = NfaView;

    open spec fn view(&self) -> NfaView {
        NfaView {
            states: Seq::new(self.states@.len(), |i: int| self.states@[i]@),
            initial: self.initial,
            ending: self.ending@,
        }
    }
}

impl Default for NFAutomata {
    fn default() -> (r: Self)
        ensures
            r@ == NfaView::empty(),
    {
        Self::new()
    }
}

/// A state with no transition, no flag and no marker.
pub fn create_state() -> (s: State)
    ensures
        s@ == blank_state(),
{
    State {
        matchers: VecDeque::new(),
        is_initial: false,
        is_ending: false,
        start_group: Vec::new(),
        end_group: Vec::new(),
    }
}

impl NFAutomata {
    /// An automaton with no state.
    pub fn new() -> (r: Self)
        ensures
            r@ == NfaView::empty(),
    {
        Self { states: Vec::new(), initial: 0, ending: Vec::new() }
    }

    /// Appends a blank state and returns its index.
    pub fn add_state(&mut self) -> (id: usize)
        ensures
            final(self)@ == old(self)@.add_state(),
            id == old(self)@.states.len(),
            old(self)@.inv() ==> final(self)@.inv(),
    {
        proof {
            if self@.inv() {
                crate::wellformed::lemma_add_state_inv(self@);
            }
        }
        self.states.push(create_state());
        assert(self@ =~~= old(self)@.add_state());
        self.states.len() - 1
    }

    /// Appends `number` blank states.
    pub fn fill_state(&mut self, number: usize)
        ensures
            final(self)@ == old(self)@.fill_state(number as nat),
            old(self)@.inv() ==> final(self)@.inv(),
    {
        proof {
            if self@.inv() {
                crate::wellformed::lemma_fill_state_inv(self@, number as nat);
            }
        }
        let mut i: usize = 0;
        while i < number
            invariant
                i <= number,
                self@ == old(self)@.fill_state(i as nat),
            decreases number - i,
        {
            self.add_state();
            i += 1;
        }
    }

    /// Makes `initial` the initial state, if there is such a state.
    pub fn set_initial(&mut self, initial: usize)
        ensures
            final(self)@ == old(self)@.set_initial(initial),
            old(self)@.inv() ==> final(self)@.inv(),
            old(self)@.inv() && initial < old(self)@.states.len() ==> final(self)@.wf(),
    {
        proof {
            if self@.inv() {
                crate::wellformed::lemma_set_initial_inv(self@, initial);
            }
        }
        if initial < self.states.len() {
            let previous = self.initial;
            if previous < self.states.len() {
                self.states[previous].is_initial = false;
            }
            self.states[initial].is_initial = true;
            self.initial = initial;
        }
        assert(self@ =~~= old(self)@.set_initial(initial));
    }

    /// Makes `ending` an ending state, if there is such a state.
    pub fn add_ending(&mut self, ending: usize)
        ensures
            final(self)@ == old(self)@.add_ending(ending),
            old(self)@.inv() ==> final(self)@.inv(),
    {
        proof {
            if self@.inv() {
                crate::wellformed::lemma_add_ending_inv(self@, ending);
            }
        }
        if ending < self.states.len() {
            self.states[ending].is_ending = true;
            if !contains_index(&self.ending, ending) {
                self.ending.push(ending);
            }
        }
        assert(self@ =~~= old(self)@.add_ending(ending));
    }

    /// Takes `ending` out of the ending states, if there is such a state.
    pub fn remove_ending(&mut self, ending: usize)
        ensures
            final(self)@ == old(self)@.remove_ending(ending),
            old(self)@.inv() ==> final(self)@.inv(),
    {
        proof {
            if self@.inv() {
                crate::wellformed::lemma_remove_ending_inv(self@, ending);
            }
        }
        if ending < self.states.len() {
            self.states[ending].is_ending = false;
            self.ending = remove_index(&self.ending, ending);
        }
        assert(self@ =~~= old(self)@.remove_ending(ending));
    }

    /// Appends a transition to the tail of the transitions of `from_state`.
    pub fn add_transition(&mut self, from_state: usize, to_state: usize, transition: MatcherKind)
        ensures
            final(self)@ == old(self)@.add_transition(from_state, to_state, transition),
            old(self)@.inv() && to_state < old(self)@.states.len() ==> final(self)@.inv(),
    {
        proof {
            if self@.inv() && to_state < self@.states.len() {
                crate::wellformed::lemma_add_transition_inv(self@, from_state, to_state, transition);
            }
        }
        if from_state < self.states.len() {
            self.states[from_state].matchers.push_back((transition, to_state));
        }
        assert(self@ =~~= old(self)@.add_transition(from_state, to_state, transition));
    }

    /// Puts a transition at the head of the transitions of `from_state`, where
    /// the search tries it first.
    pub fn unshift_transition(
        &mut self,
        from_state: usize,
        to_state: usize,
        transition: MatcherKind,
    )
        ensures
            final(self)@ == old(self)@.unshift_transition(from_state, to_state, transition),
            old(self)@.inv() && to_state < old(self)@.states.len() ==> final(self)@.inv(),
    {
        proof {
            if self@.inv() && to_state < self@.states.len() {
                crate::wellformed::lemma_unshift_transition_inv(
                    self@,
                    from_state,
                    to_state,
                    transition,
                );
            }
        }
        if from_state < self.states.len() {
            self.states[from_state].matchers.push_front((transition, to_state));
        }
        assert(self@ =~~= old(self)@.unshift_transition(from_state, to_state, transition));
    }

    /// Appends `number` blank states, then sets the initial state and adds an
    /// ending state.
    pub fn declare_state(&mut self, number: usize, initial: usize, ending: usize)
        ensures
            final(self)@ == old(self)@.fill_state(number as nat).set_initial(initial).add_ending(
                ending,
            ),
            old(self)@.inv() ==> final(self)@.inv(),
    {
        self.fill_state(number);
        self.set_initial(initial);
        self.add_ending(ending);
    }

    /// Appends a transition on the character `c`.
    pub fn add_char_transition(&mut self, from: usize, to: usize, c: char)
        ensures
            final(self)@ == old(self)@.add_transition(from, to, MatcherKind::Char(c)),
            old(self)@.inv() && to < old(self)@.states.len() ==> final(self)@.inv(),
    {
        self.add_transition(from, to, MatcherKind::Char(c))
    }

    /// Appends a transition that reads nothing.
    pub fn add_epsilon_transition(&mut self, from: usize, to: usize)
        ensures
            final(self)@ == old(self)@.add_transition(from, to, MatcherKind::Epsilon),
            old(self)@.inv() && to < old(self)@.states.len() ==> final(self)@.inv(),
    {
        self.add_transition(from, to, MatcherKind::Epsilon)
    }

    /// Records that group `capture_index` opens at `state_index`.
    pub fn mark_start_capture_group(
        &mut self,
        state_index: usize,
        capture_index: u32,
        name: Option<String>,
    )
        ensures
            final(self)@ == old(self)@.mark_start(state_index, capture_index, name_view(name)),
            old(self)@.inv() ==> final(self)@.inv(),
    {
        proof {
            crate::wellformed::lemma_mark_start(self@, state_index, capture_index, name_view(name));
            crate::wellformed::lemma_same_graph(
                self@,
                self@.mark_start(state_index, capture_index, name_view(name)),
            );
        }
        if state_index < self.states.len() {
            self.states[state_index].start_group.push((capture_index, name));
            proof {
                let before = old(self).states@[state_index as int].start_group@;
                assert(marks_view(before.push((capture_index, name))) =~= marks_view(before).push(
                    (capture_index, name_view(name)),
                ));
            }
        }
    }

    /// Records that group `capture_index` closes at `state_index`.
    pub fn mark_end_capture_group(
        &mut self,
        state_index: usize,
        capture_index: u32,
        name: Option<String>,
    )
        ensures
            final(self)@ == old(self)@.mark_end(state_index, capture_index, name_view(name)),
            old(self)@.inv() ==> final(self)@.inv(),
    {
        proof {
            crate::wellformed::lemma_mark_end(self@, state_index, capture_index, name_view(name));
            crate::wellformed::lemma_same_graph(
                self@,
                self@.mark_end(state_index, capture_index, name_view(name)),
            );
        }
        if state_index < self.states.len() {
            self.states[state_index].end_group.push((capture_index, name));
            proof {
                let before = old(self).states@[state_index as int].end_group@;
                assert(marks_view(before.push((capture_index, name))) =~= marks_view(before).push(
                    (capture_index, name_view(name)),
                ));
            }
        }
    }

    /// Opens group `index` at the initial state and closes it at every ending
    /// state.
    pub fn mark_capture_group(&mut self, index: u32, name: Option<String>)
        ensures
            final(self)@ == old(self)@.mark_capture_group(index, name_view(name)),
            old(self)@.inv() ==> final(self)@.inv(),
    {
        proof {
            crate::wellformed::lemma_mark_capture_group(self@, index, name_view(name));
            crate::wellformed::lemma_same_graph(self@, self@.mark_capture_group(index, name_view(name)));
        }
        let initial = self.initial;
        self.mark_start_capture_group(initial, index, name.clone());
        let n = self.ending.len();
        let ghost started = self@;
        let mut i: usize = 0;
        while i < n
            invariant
                i <= n,
                n == started.ending.len(),
                self@.ending == started.ending,
                self@ == started.mark_endings(index, name_view(name), i as nat),
                started.ending == old(self)@.ending,
                started == old(self)@.mark_start(old(self)@.initial, index, name_view(name)),
            decreases n - i,
        {
            let e = self.ending[i];
            self.mark_end_capture_group(e, index, name.clone());
            i += 1;
        }
    }

    /// Splices `other_nfa` into this automaton at `union_state`, a state of
    /// this automaton: see [`NfaView::append`].
    pub fn append(&mut self, other_nfa: &NFAutomata, union_state: usize)
        requires
            union_state < old(self)@.states.len(),
            other_nfa@.inv(),
        ensures
            final(self)@ == old(self)@.append(other_nfa@, union_state),
            old(self)@.inv() && crate::fragment::is_fragment(other_nfa@) ==> final(self)@.inv(),
    {
        if other_nfa.states.len() < 2 {
            return ;
        }
        let ghost before = self@;
        let origin_len = self.states.len();
        let added = other_nfa.states.len() - 1;
        proof {
            lemma_fill_state(self@, added as nat);
        }
        self.fill_state(added);
        assert(self@.states.len() == origin_len + added);
        self.remove_ending(union_state);
        let ghost cleared = self@;
        let total = self.states.len();
        assert(self@.states.len() == total);
        let mut i: usize = 0;
        while i < other_nfa.ending.len()
            invariant
                i <= other_nfa.ending.len(),
                other_nfa@.inv(),
                1 <= origin_len,
                total == origin_len + other_nfa.states.len() - 1,
                self@.states.len() == total,
                self@ == cleared.graft_endings(
                    other_nfa@,
                    origin_len as nat,
                    union_state,
                    i as nat,
                ),
            decreases other_nfa.ending.len() - i,
        {
            let e = other_nfa.ending[i];
            assert(other_nfa@.ending[i as int] < other_nfa@.states.len());
            let target = if other_nfa.states[e].is_initial {
                union_state
            } else {
                e + origin_len - 1
            };
            self.add_ending(target);
            i += 1;
        }
        let ghost ended = self@;
        let mut k: usize = 0;
        while k < other_nfa.states.len()
            invariant
                k <= other_nfa.states.len(),
                other_nfa@.inv(),
                1 <= origin_len,
                total == origin_len + other_nfa.states.len() - 1,
                self@.states.len() == total,
                self@ == ended.graft_states(other_nfa@, origin_len as nat, union_state, k as nat),
            decreases other_nfa.states.len() - k,
        {
            self.graft_state(other_nfa, origin_len, union_state, k);
            k += 1;
        }
        proof {
            if before.inv() && crate::fragment::is_fragment(other_nfa@) {
                crate::wellformed::lemma_append_inv(before, other_nfa@, union_state);
            }
        }
    }

    /// Copies the markers and transitions of state `k` of `other_nfa` onto the
    /// state it is mapped to.
    fn graft_state(&mut self, other_nfa: &NFAutomata, origin_len: usize, union_state: usize, k: usize)
        requires
            k < other_nfa@.states.len(),
            other_nfa@.inv(),
            1 <= origin_len,
            old(self)@.states.len() == origin_len + other_nfa@.states.len() - 1,
        ensures
            final(self)@ == old(self)@.graft_state(
                other_nfa@,
                origin_len as nat,
                union_state,
                k as int,
            ),
            final(self)@.states.len() == old(self)@.states.len(),
    {
        let state = &other_nfa.states[k];
        let total = self.states.len();
        assert(self@.states.len() == total);
        let at = if state.is_initial {
            union_state
        } else {
            k + origin_len - 1
        };
        let ghost other = other_nfa@;
        let ghost base = origin_len as nat;
        let ghost s = other.states[k as int];
        assert(s == state@);
        let mut j: usize = 0;
        while j < state.start_group.len()
            invariant
                j <= state.start_group.len(),
                s.start_groups == marks_view(state.start_group@),
                self@.states.len() == total,
                self@ == old(self)@.graft_starts(s.start_groups, at, j as nat),
            decreases state.start_group.len() - j,
        {
            let name = state.start_group[j].1.clone();
            self.mark_start_capture_group(at, state.start_group[j].0, name);
            j += 1;
        }
        let ghost started = self@;
        let mut j: usize = 0;
        while j < state.end_group.len()
            invariant
                j <= state.end_group.len(),
                s.end_groups == marks_view(state.end_group@),
                self@.states.len() == total,
                self@ == started.graft_ends(s.end_groups, at, j as nat),
            decreases state.end_group.len() - j,
        {
            let name = state.end_group[j].1.clone();
            self.mark_end_capture_group(at, state.end_group[j].0, name);
            j += 1;
        }
        let ghost marked = self@;
        let mut j: usize = 0;
        while j < state.matchers.len()
            invariant
                j <= state.matchers.len(),
                k < other.states.len(),
                other == other_nfa@,
                other.inv(),
                s == other.states[k as int],
                s.transitions == state.matchers@,
                at == NfaView::graft_index(other, base, union_state, k as int),
                base == origin_len,
                1 <= origin_len,
                total == origin_len + other.states.len() - 1,
                self@.states.len() == total,
                self@ == marked.graft_transitions(other, base, union_state, k as int, j as nat),
            decreases state.matchers.len() - j,
        {
            let (m, to) = state.matchers[j];
            assert(other.states[k as int].transitions[j as int].1 < other.states.len());
            let target = if other_nfa.states[to].is_initial {
                union_state
            } else {
                to + origin_len - 1
            };
            self.add_transition(at, target, m);
            j += 1;
        }
    }
}

/// Whether `x` occurs in `v`.
fn contains_index(v: &Vec<usize>, x: usize) -> (r: bool)
    ensures
        r == v@.contains(x),
{
    let mut i: usize = 0;
    while i < v.len()
        invariant
            i <= v.len(),
            forall|j: int| 0 <= j < i ==> v@[j] != x,
        decreases v.len() - i,
    {
        if v[i] == x {
            return true;
        }
        i += 1;
    }
    false
}

/// A copy of `v` without the occurrences of `x`.
fn remove_index(v: &Vec<usize>, x: usize) -> (r: Vec<usize>)
    ensures
        r@ == without(v@, x),
{
    let mut r: Vec<usize> = Vec::new();
    let mut i: usize = 0;
    while i < v.len()
        invariant
            i <= v.len(),
            r@ == without(v@.take(i as int), x),
        decreases v.len() - i,
    {
        assert(v@.take(i + 1).drop_last() =~= v@.take(i as int));
        if v[i] != x {
            r.push(v[i]);
        }
        i += 1;
    }
    assert(v@.take(v.len() as int) =~= v@);
    r
}

} // verus!
