//! From a pattern tree to an automaton: one fragment for each node, the
//! fragments of the children spliced together.
use crate::fragment::alternate;
use crate::fragment::alternate_from;
use crate::fragment::build;
use crate::fragment::build_each;
use crate::fragment::bypass;
use crate::fragment::class_frag;
use crate::fragment::class_partial;
use crate::fragment::close_junction;
use crate::fragment::close_loop;
use crate::fragment::concat_all;
use crate::fragment::is_fragment;
use crate::fragment::join_endings;
use crate::fragment::literal_chain;
use crate::fragment::literal_frag;
use crate::fragment::optional_copies;
use crate::fragment::repeat;
use crate::fragment::repeat_splice;
use crate::fragment::step_frag;
use crate::fragment::unit;
use crate::ir::Ir;
use crate::matcher::MatcherKind;
use crate::nfa::name_view;
use crate::nfa::NFAutomata;
use crate::wellformed::is_junction;
use crate::wellformed::lemma_add_transition_fragment;
use crate::wellformed::lemma_append_len;
use crate::wellformed::lemma_class_fragment;
use crate::wellformed::lemma_close_junction;
use crate::wellformed::lemma_close_loop;
use crate::wellformed::lemma_fragment_rooted;
use crate::wellformed::lemma_junction_start;
use crate::wellformed::lemma_junction_step;
use crate::wellformed::lemma_literal_fragment;
use crate::wellformed::lemma_mark_capture_group;
use crate::wellformed::lemma_same_graph;
use crate::wellformed::lemma_splice_fragment;
use crate::wellformed::lemma_step_fragment;
use crate::wellformed::lemma_unit_fragment;
use vstd::prelude::*;

verus! {

/// The fragments of the children, one by one.
pub proof fn lemma_build_each(children: Seq<Ir>, n: nat)
    requires
        n <= children.len(),
    ensures
        build_each(children, n).len() == n,
        forall|i: int| 0 <= i < n ==> #[trigger] build_each(children, n)[i] == build(children[i]),
    decreases n,
{
    if n > 0 {
        lemma_build_each(children, (n - 1) as nat);
    }
}

/// Builds the automaton of a pattern.
pub struct NFAutomataBuilder {
    pub nfa: NFAutomata,
}

impl Default for NFAutomataBuilder {
    fn default() -> (r: Self)
        ensures
            r.nfa@ == crate::nfa::NfaView::empty(),
    {
        NFAutomataBuilder { nfa: NFAutomata::new() }
    }
}

/// The fragment of one state, initial and ending.
fn unit_nfa() -> (nfa: NFAutomata)
    ensures
        nfa@ == unit(),
        is_fragment(nfa@),
{
    let mut nfa = NFAutomata::new();
    nfa.add_state();
    nfa.set_initial(0);
    nfa.add_ending(0);
    assert(nfa@ =~~= unit());
    proof {
        lemma_unit_fragment();
    }
    nfa
}

/// The last ending state of a fragment.
fn last_ending(nfa: &NFAutomata) -> (e: usize)
    requires
        is_fragment(nfa@),
    ensures
        e == nfa@.ending.last(),
        e < nfa@.states.len(),
{
    nfa.ending[nfa.ending.len() - 1]
}

impl NFAutomataBuilder {
    /// The fragment of two states with one transition, on the character
    /// given or else on nothing.
    pub fn one_step(&mut self, char_or_epsilon: Option<char>)
        ensures
            final(self).nfa@ == step_frag(char_or_epsilon),
            is_fragment(final(self).nfa@),
    {
        let mut nfa = NFAutomata::new();
        nfa.declare_state(2, 0, 1);
        if let Some(c) = char_or_epsilon {
            nfa.add_char_transition(0, 1, c);
        } else {
            nfa.add_epsilon_transition(0, 1);
        }
        proof {
            reveal_with_fuel(crate::nfa::NfaView::fill_state, 3);
            assert(nfa@ =~~= step_frag(char_or_epsilon));
            lemma_step_fragment(char_or_epsilon);
        }
        self.nfa = nfa;
    }

    /// Splices `other_nfa` into the automaton under construction at
    /// `union_state`.
    pub fn append(&mut self, other_nfa: NFAutomata, union_state: usize)
        requires
            union_state < old(self).nfa@.states.len(),
            other_nfa@.inv(),
        ensures
            final(self).nfa@ == old(self).nfa@.append(other_nfa@, union_state),
    {
        self.nfa.append(&other_nfa, union_state);
    }

    /// The fragment of a literal.
    pub fn literal(&mut self, literal: &Vec<u8>)
        ensures
            final(self).nfa@ == literal_frag(literal@),
            is_fragment(final(self).nfa@),
    {
        let mut nfa = NFAutomata::new();
        nfa.add_state();
        nfa.set_initial(0);
        assert(nfa@ =~~= literal_chain(literal@, 0));
        let mut i: usize = 0;
        while i < literal.len()
            invariant
                i <= literal.len(),
                nfa@ == literal_chain(literal@, i as nat),
            decreases literal.len() - i,
        {
            let id = nfa.add_state();
            nfa.add_char_transition(i, id, literal[i] as char);
            i += 1;
            assert(nfa@ =~~= literal_chain(literal@, i as nat));
        }
        let total = nfa.states.len();
        assert(nfa@.states.len() == total);
        nfa.add_ending(i);
        proof {
            lemma_literal_fragment(literal@);
        }
        self.nfa = nfa;
    }

    /// The fragment of a character class.
    pub fn class(&mut self, ranges: &Vec<(char, char)>)
        ensures
            final(self).nfa@ == class_frag(ranges@),
            is_fragment(final(self).nfa@),
    {
        let mut nfa = NFAutomata::new();
        nfa.declare_state(2, 0, 1);
        proof {
            reveal_with_fuel(crate::nfa::NfaView::fill_state, 3);
            assert(nfa@ =~~= class_partial(ranges@, 0));
        }
        let mut i: usize = 0;
        while i < ranges.len()
            invariant
                i <= ranges.len(),
                nfa@ == class_partial(ranges@, i as nat),
            decreases ranges.len() - i,
        {
            let r = ranges[i];
            nfa.add_transition(0, 1, MatcherKind::Range(r.0, r.1));
            proof {
                let grown = crate::fragment::class_transitions(ranges@, (i + 1) as nat);
                assert(crate::fragment::class_transitions(ranges@, i as nat).push(
                    (crate::fragment::range_label(ranges@[i as int]), 1usize),
                ) =~= grown);
                assert(nfa@.states[0].transitions == grown);
                assert(nfa@.states[0] == crate::fragment::entry_state(grown));
                assert(nfa@.states[1] == crate::fragment::exit_state());
            }
            i += 1;
            assert(nfa@ =~~= class_partial(ranges@, i as nat));
        }
        proof {
            lemma_class_fragment(ranges@);
        }
        self.nfa = nfa;
    }

    /// The fragment of a concatenation: the fragments of the children, each
    /// spliced in at the ending state of what stands before it.
    pub fn concat(&mut self, ast_vec: &Vec<Ir>)
        ensures
            final(self).nfa@ == concat_all(
                build_each(ast_vec@, ast_vec@.len()),
                ast_vec@.len(),
            ),
            is_fragment(final(self).nfa@),
        decreases ast_vec, 1nat,
    {
        let mut nfa = unit_nfa();
        let ghost frags = build_each(ast_vec@, ast_vec@.len());
        proof {
            lemma_build_each(ast_vec@, ast_vec@.len());
        }
        let mut i: usize = 0;
        while i < ast_vec.len()
            invariant
                i <= ast_vec.len(),
                frags == build_each(ast_vec@, ast_vec@.len()),
                frags.len() == ast_vec@.len(),
                forall|j: int| 0 <= j < ast_vec@.len() ==> #[trigger] frags[j] == build(ast_vec@[j]),
                nfa@ == concat_all(frags, i as nat),
                is_fragment(nfa@),
            decreases ast_vec.len() - i,
        {
            proof {
                vstd::std_specs::vec::axiom_vec_index_decreases(*ast_vec, i as int);
            }
            let sub = Self::ast_to_nfa(&ast_vec[i]);
            let e = last_ending(&nfa);
            let ghost before = nfa@;
            proof {
                lemma_fragment_rooted(sub.nfa@);
            }
            nfa.append(&sub.nfa, e);
            let total = nfa.states.len();
            proof {
                assert(nfa@.states.len() == total);
                lemma_append_len(before, sub.nfa@, e);
                lemma_splice_fragment(before, sub.nfa@);
            }
            i += 1;
        }
        self.nfa = nfa;
    }

    /// The fragment of an alternation: the fragments of the children, all
    /// spliced in at one initial state, and one new ending state.
    pub fn alternation(&mut self, ast_vec: &Vec<Ir>)
        ensures
            final(self).nfa@ == alternate(build_each(ast_vec@, ast_vec@.len())),
            is_fragment(final(self).nfa@),
        decreases ast_vec, 1nat,
    {
        let mut nfa = NFAutomata::new();
        nfa.add_state();
        nfa.set_initial(0);
        let ghost frags = build_each(ast_vec@, ast_vec@.len());
        proof {
            lemma_build_each(ast_vec@, ast_vec@.len());
            assert(nfa@ =~~= alternate_from(frags, 0));
            lemma_junction_start(frags);
        }
        let mut i: usize = 0;
        while i < ast_vec.len()
            invariant
                i <= ast_vec.len(),
                frags == build_each(ast_vec@, ast_vec@.len()),
                frags.len() == ast_vec@.len(),
                forall|j: int| 0 <= j < ast_vec@.len() ==> #[trigger] frags[j] == build(ast_vec@[j]),
                nfa@ == alternate_from(frags, i as nat),
                is_junction(nfa@),
            decreases ast_vec.len() - i,
        {
            proof {
                vstd::std_specs::vec::axiom_vec_index_decreases(*ast_vec, i as int);
            }
            let sub = Self::ast_to_nfa(&ast_vec[i]);
            let ghost before = nfa@;
            proof {
                lemma_fragment_rooted(sub.nfa@);
            }
            nfa.append(&sub.nfa, 0);
            let total = nfa.states.len();
            proof {
                assert(nfa@.states.len() == total);
                lemma_append_len(before, sub.nfa@, 0);
                lemma_junction_step(before, sub.nfa@);
            }
            i += 1;
        }
        let ghost spliced = nfa@;
        let real_ending = nfa.add_state();
        let total = nfa.states.len();
        assert(nfa@.states.len() == total);
        let ghost opened = nfa@;
        let n = nfa.ending.len();
        let mut k: usize = 0;
        while k < n
            invariant
                k <= n,
                n == spliced.ending.len(),
                opened == spliced.add_state(),
                real_ending == spliced.states.len(),
                real_ending < opened.states.len(),
                opened.inv(),
                opened.ending == spliced.ending,
                nfa@ == join_endings(opened, spliced.ending, real_ending, k as nat),
                nfa@.ending == spliced.ending.skip(k as int),
            decreases n - k,
        {
            let from = nfa.ending[0];
            assert(from == spliced.ending[k as int]);
            nfa.add_epsilon_transition(from, real_ending);
            nfa.remove_ending(from);
            k += 1;
            proof {
                crate::wellformed::lemma_join_endings(opened, real_ending, k as nat);
            }
        }
        nfa.add_ending(real_ending);
        proof {
            lemma_close_junction(spliced);
            assert(nfa@ == close_junction(spliced));
        }
        self.nfa = nfa;
    }

    /// The fragment of a repetition of `sub`.
    pub fn repetition(&mut self, min: usize, max: Option<usize>, sub: &Ir)
        ensures
            final(self).nfa@ == repeat(build(*sub), min, max),
            is_fragment(final(self).nfa@),
        decreases sub, 1nat,
    {
        let copy = Self::ast_to_nfa(sub);
        let ghost s = copy.nfa@;
        let mut nfa = unit_nfa();
        proof {
            lemma_fragment_rooted(s);
        }
        let mut i: usize = 0;
        while i < min
            invariant
                i <= min,
                s == copy.nfa@,
                is_fragment(s),
                s.inv(),
                nfa@ == repeat_splice(unit(), s, i as nat),
                is_fragment(nfa@),
            decreases min - i,
        {
            let e = last_ending(&nfa);
            let ghost before = nfa@;
            nfa.append(&copy.nfa, e);
            let total = nfa.states.len();
            proof {
                assert(nfa@.states.len() == total);
                lemma_append_len(before, s, e);
                lemma_splice_fragment(before, s);
            }
            i += 1;
        }
        match max {
            Some(m) => {
                let mut entries: Vec<usize> = Vec::new();
                let mut k: usize = min;
                while k < m
                    invariant
                        min <= k,
                        k <= m || k == min,
                        s == copy.nfa@,
                        is_fragment(s),
                        s.inv(),
                        entries@.len() == k - min,
                        forall|j: int|
                            0 <= j < entries@.len() ==> #[trigger] entries@[j] == repeat_splice(
                                unit(),
                                s,
                                (min + j) as nat,
                            ).ending.last(),
                        nfa@ == repeat_splice(unit(), s, k as nat),
                        is_fragment(nfa@),
                    decreases m - k,
                {
                    let e = last_ending(&nfa);
                    let ghost before = nfa@;
                    nfa.append(&copy.nfa, e);
                    let total = nfa.states.len();
                    proof {
                        assert(nfa@.states.len() == total);
                        lemma_append_len(before, s, e);
                        lemma_splice_fragment(before, s);
                    }
                    entries.push(e);
                    k += 1;
                }
                let ghost count = optional_copies(min as nat, m as nat);
                assert(entries@.len() == count);
                let ghost full = nfa@;
                let target = last_ending(&nfa);
                let mut j: usize = 0;
                while j < entries.len()
                    invariant
                        j <= entries.len(),
                        entries@.len() == count,
                        forall|x: int|
                            0 <= x < entries@.len() ==> #[trigger] entries@[x] == repeat_splice(
                                unit(),
                                s,
                                (min + x) as nat,
                            ).ending.last(),
                        target < full.states.len(),
                        nfa@ == bypass(full, s, min as nat, target, j as nat),
                        nfa@.states.len() == full.states.len(),
                        is_fragment(nfa@),
                    decreases entries.len() - j,
                {
                    let ghost before = nfa@;
                    nfa.add_epsilon_transition(entries[j], target);
                    proof {
                        lemma_add_transition_fragment(
                            before,
                            entries@[j as int],
                            target,
                            MatcherKind::Epsilon,
                        );
                    }
                    j += 1;
                }
            },
            None => {
                let e0 = last_ending(&nfa);
                let ghost before = nfa@;
                nfa.append(&copy.nfa, e0);
                let total = nfa.states.len();
                proof {
                    assert(nfa@.states.len() == total);
                    lemma_append_len(before, s, e0);
                    lemma_splice_fragment(before, s);
                }
                let ghost b = nfa@;
                let e1 = last_ending(&nfa);
                nfa.remove_ending(e1);
                let new_ending = nfa.add_state();
                let grown = nfa.states.len();
                assert(nfa@.states.len() == grown);
                nfa.add_epsilon_transition(e1, e0);
                nfa.add_epsilon_transition(e1, new_ending);
                nfa.add_epsilon_transition(e0, e1);
                nfa.add_ending(new_ending);
                proof {
                    assert(nfa@ == close_loop(b, e0));
                    lemma_close_loop(b, e0);
                }
            },
        }
        self.nfa = nfa;
    }

    /// The fragment of a group: the fragment of `sub` with the markers of the
    /// group at its initial and at its ending state.
    pub fn capture(&mut self, index: u32, name: &Option<String>, sub: &Ir)
        ensures
            final(self).nfa@ == build(*sub).mark_capture_group(index, name_view(*name)),
            is_fragment(final(self).nfa@),
        decreases sub, 1nat,
    {
        let mut e = Self::ast_to_nfa(sub);
        let ghost before = e.nfa@;
        e.nfa.mark_capture_group(index, name.clone());
        proof {
            lemma_mark_capture_group(before, index, name_view(*name));
            lemma_same_graph(before, e.nfa@);
        }
        self.nfa = e.nfa;
    }

    /// The fragment of a pattern.
    pub fn ast_to_nfa(ast: &Ir) -> (b: Self)
        ensures
            b.nfa@ == build(*ast),
            is_fragment(b.nfa@),
        decreases ast, 0nat,
    {
        let mut builder = NFAutomataBuilder { nfa: NFAutomata::new() };
        match ast {
            Ir::Alternation(ast_vec) => builder.alternation(ast_vec),
            Ir::Concat(ast_vec) => builder.concat(ast_vec),
            Ir::Literal(literal) => builder.literal(literal),
            Ir::Repetition { min, max, sub } => builder.repetition(*min, *max, sub),
            Ir::Class(class) => builder.class(class),
            Ir::Capture { index, name, sub } => builder.capture(*index, name, sub),
            Ir::Unsupported => {
                builder.nfa = unit_nfa();
            },
        }
        builder
    }
}

} // verus!
