//! Patterns that spell one word: literals, and what concatenation, grouping
//! and exact repetition make of them. Their automaton is a chain, which
//! accepts that word and nothing else.
use crate::fragment::build;
use crate::fragment::build_each;
use crate::fragment::compiled;
use crate::fragment::concat_all;
use crate::fragment::is_fragment;
use crate::fragment::literal_chain;
use crate::fragment::literal_frag;
use crate::fragment::repeat_splice;
use crate::fragment::splice;
use crate::fragment::unit;
use crate::ir::Ir;
use crate::language::accepting_path;
use crate::language::accepts;
use crate::language::is_final;
use crate::language::is_path;
use crate::language::moves;
use crate::language::step;
use crate::language::Config;
use crate::matcher::MatcherKind;
use crate::nfa::listed;
use crate::nfa::without;
use crate::nfa::NfaView;
use crate::nfa_builder::lemma_build_each;
use crate::splice::lemma_append;
use crate::splice::lemma_without;
use crate::splice::remap;
use crate::wellformed::lemma_fragment_rooted;
use crate::wellformed::lemma_mark_capture_group;
use crate::wellformed::same_graph;
use vstd::prelude::*;

verus! {

/// The character with the code of a byte.
pub open spec fn byte_char(b: u8) -> char {
    b as char
}

/// The text of a literal: one character for each byte.
pub open spec fn text(bytes: Seq<u8>) -> Seq<char> {
    Seq::new(bytes.len(), |i: int| byte_char(bytes[i]))
}

/// `w` written `n` times.
pub open spec fn power(w: Seq<char>, n: nat) -> Seq<char>
    decreases n,
{
    if n == 0 {
        Seq::empty()
    } else {
        power(w, (n - 1) as nat) + w
    }
}

/// The word that a pattern spells, if it is made of literals by
/// concatenation, grouping and repetition an exact number of times.
pub open spec fn word(ir: Ir) -> Option<Seq<char>>
    decreases ir, 0nat,
{
    match ir {
        Ir::Literal(bytes) => Some(text(bytes@)),
        Ir::Concat(children) => words(children@, children@.len()),
        Ir::Capture { index, name, sub } => word(*sub),
        Ir::Repetition { min, max, sub } => if max == Some(min) {
            match word(*sub) {
                Some(w) => Some(power(w, min as nat)),
                None => None,
            }
        } else {
            None
        },
        Ir::Unsupported => Some(Seq::empty()),
        _ => None,
    }
}

/// The word that the first `n` of `children` spell one after the other.
pub open spec fn words(children: Seq<Ir>, n: nat) -> Option<Seq<char>>
    decreases children, n,
{
    if n == 0 || n > children.len() {
        Some(Seq::empty())
    } else {
        match (words(children, (n - 1) as nat), word(children[n - 1])) {
            (Some(p), Some(w)) => Some(p + w),
            _ => None,
        }
    }
}

/// The transitions of a state of a chain: one, on the character `c`, to the
/// state `next`.
pub open spec fn link(c: char, next: int) -> Seq<(MatcherKind, usize)> {
    seq![(char_label(c), next as usize)]
}

/// The label that holds of the character `c` alone.
pub open spec fn char_label(c: char) -> MatcherKind {
    MatcherKind::Char(c)
}

/// The automaton is a chain for the word `w`: a state for each place in the
/// word, the first initial, the last ending, and from each state but the
/// last one transition, on the character at its place, to the next.
pub open spec fn is_chain(a: NfaView, w: Seq<char>) -> bool {
    &&& a.states.len() == w.len() + 1
    &&& a.states.len() <= usize::MAX
    &&& a.initial == 0
    &&& a.ending == seq![w.len() as usize]
    &&& forall|i: int|
        0 <= i <= w.len() ==> (#[trigger] a.states[i]).is_initial == (i == 0) && a.states[i].is_ending
            == (i == w.len())
    &&& forall|i: int|
        0 <= i < w.len() ==> (#[trigger] a.states[i]).transitions == link(w[i], i + 1)
    &&& a.states[w.len() as int].transitions == Seq::<(MatcherKind, usize)>::empty()
}

/// A chain is a fragment.
pub proof fn lemma_chain_fragment(a: NfaView, w: Seq<char>)
    requires
        is_chain(a, w),
    ensures
        is_fragment(a),
{
    assert(a.ending[0] == w.len());
    assert(a.ending.no_duplicates());
    assert forall|k: int| 0 <= k < a.states.len() implies ((#[trigger] a.states[k]).is_ending
        <==> listed(a.ending, k)) by {
        if k == w.len() {
            assert(a.ending[0] == k);
        }
    }
    assert forall|k: int, j: int|
        0 <= k < a.states.len() && 0 <= j < a.states[k].transitions.len() implies (
    #[trigger] a.states[k].transitions[j]).1 < a.states.len() by {
        if k < w.len() {
            assert(a.states[k].transitions == link(w[k], k + 1));
        }
    }
}

/// Being a chain depends on the graph alone.
pub proof fn lemma_chain_same_graph(a: NfaView, b: NfaView, w: Seq<char>)
    requires
        is_chain(a, w),
        same_graph(a, b),
    ensures
        is_chain(b, w),
{
    assert forall|i: int| 0 <= i <= w.len() implies (#[trigger] b.states[i]).is_initial == (i == 0)
        && b.states[i].is_ending == (i == w.len()) by {
        assert(a.states[i].is_initial == b.states[i].is_initial);
    }
    assert forall|i: int| 0 <= i < w.len() implies (#[trigger] b.states[i]).transitions == link(
        w[i],
        i + 1,
    ) by {
        assert(a.states[i].transitions == b.states[i].transitions);
    }
    assert(a.states[w.len() as int].transitions == b.states[w.len() as int].transitions);
}

/// The fragment of one state is the chain for the empty word.
pub proof fn lemma_unit_chain()
    ensures
        is_chain(unit(), Seq::empty()),
{
}

/// The fragment of a literal is the chain for its text.
pub proof fn lemma_literal_chain(bytes: Seq<u8>)
    requires
        bytes.len() < usize::MAX,
    ensures
        is_chain(literal_frag(bytes), text(bytes)),
{
    let a = literal_frag(bytes);
    let w = text(bytes);
    let n = bytes.len();
    assert(a.ending =~= seq![n as usize]);
    assert forall|i: int| 0 <= i < w.len() implies (#[trigger] a.states[i]).transitions == link(
        w[i],
        i + 1,
    ) by {
        assert(literal_chain(bytes, n).states[i].transitions =~= link(w[i], i + 1));
    }
}

/// A chain spliced onto a chain is the chain for the two words one after the
/// other.
pub proof fn lemma_splice_chain(a: NfaView, c: NfaView, w1: Seq<char>, w2: Seq<char>)
    requires
        is_chain(a, w1),
        is_chain(c, w2),
        w1.len() + w2.len() < usize::MAX,
    ensures
        is_chain(splice(a, c), w1 + w2),
{
    let r = splice(a, c);
    let w = w1 + w2;
    if w2.len() == 0 {
        assert(w =~= w1);
    } else {
        lemma_chain_fragment(a, w1);
        lemma_chain_fragment(c, w2);
        lemma_fragment_rooted(c);
        let u = w1.len() as usize;
        let base = a.states.len();
        assert(a.ending.last() == u);
        lemma_append(a, c, u);
        lemma_without(a.ending, u);
        assert(without(a.ending, u).len() == 0) by {
            let rest = without(a.ending, u);
            if rest.len() > 0 {
                assert(listed(rest, rest[0] as int));
                assert(listed(a.ending, rest[0] as int));
                let i = choose|i: int| 0 <= i < a.ending.len() && a.ending[i] == rest[0];
            }
        }
        assert(c.ending[0] == w2.len());
        assert(!c.states[w2.len() as int].is_initial);
        assert(r.ending =~= seq![w.len() as usize]);
        assert forall|i: int| 0 <= i <= w.len() implies (#[trigger] r.states[i]).is_initial == (i
            == 0) && r.states[i].is_ending == (i == w.len()) by {
            if i < u {
                assert(r.states[i] == a.states[i]);
            } else if i == u {
            } else {
                let k = i - base + 1;
                assert(r.states[base + k - 1].is_ending == c.states[k].is_ending);
            }
        }
        assert forall|i: int| 0 <= i < w.len() implies (#[trigger] r.states[i]).transitions == link(
            w[i],
            i + 1,
        ) by {
            if i < u {
                assert(r.states[i] == a.states[i]);
                assert(a.states[i].transitions == link(w1[i], i + 1));
            } else if i == u {
                let moved = remap(c, base as nat, u, c.states[0].transitions);
                assert(c.states[0].transitions == link(w2[0], 1));
                assert(!c.states[1].is_initial);
                assert(moved =~= link(w2[0], u + 1));
                assert(r.states[i].transitions =~= moved);
            } else {
                let k = i - base + 1;
                let moved = remap(c, base as nat, u, c.states[k].transitions);
                assert(r.states[base + k - 1].transitions == moved);
                assert(c.states[k].transitions == link(w2[k], k + 1));
                assert(!c.states[k + 1].is_initial);
                assert(moved =~= link(w2[k], i + 1));
            }
        }
        let last = w.len() as int;
        let k = last - base + 1;
        assert(r.states[base + k - 1].transitions == remap(
            c,
            base as nat,
            u,
            c.states[k].transitions,
        ));
        assert(r.states[last].transitions =~= Seq::<(MatcherKind, usize)>::empty());
    }
}

/// The length of a word written `n` times grows with `n`.
pub proof fn lemma_power_len(w: Seq<char>, k: nat, n: nat)
    requires
        k <= n,
    ensures
        power(w, k).len() <= power(w, n).len(),
    decreases n,
{
    if k < n {
        lemma_power_len(w, k, (n - 1) as nat);
    }
}

/// Copies of a chain spliced one after the other are the chain for the word
/// written as many times.
pub proof fn lemma_repeat_chain(s: NfaView, w: Seq<char>, n: nat)
    requires
        is_chain(s, w),
        power(w, n).len() < usize::MAX,
    ensures
        is_chain(repeat_splice(unit(), s, n), power(w, n)),
    decreases n,
{
    if n == 0 {
        lemma_unit_chain();
    } else {
        lemma_power_len(w, (n - 1) as nat, n);
        lemma_repeat_chain(s, w, (n - 1) as nat);
        lemma_splice_chain(repeat_splice(unit(), s, (n - 1) as nat), s, power(w, (n - 1) as nat), w);
    }
}

/// The fragment of a pattern that spells a word is the chain for that word.
pub proof fn lemma_word_chain(ir: Ir)
    requires
        word(ir) is Some,
        word(ir)->0.len() < usize::MAX,
    ensures
        is_chain(build(ir), word(ir)->0),
    decreases ir, 0nat,
{
    match ir {
        Ir::Literal(bytes) => {
            lemma_literal_chain(bytes@);
        },
        Ir::Concat(children) => {
            lemma_words_chain(children@, children@.len());
        },
        Ir::Capture { index, name, sub } => {
            lemma_word_chain(*sub);
            lemma_mark_capture_group(build(*sub), index, crate::nfa::name_view(name));
            lemma_chain_same_graph(build(*sub), build(ir), word(ir)->0);
        },
        Ir::Repetition { min, max, sub } => {
            let w = word(*sub)->0;
            if min == 0 {
                assert(crate::fragment::repeat_bounded(build(*sub), 0, 0) == unit());
                lemma_unit_chain();
            } else {
                lemma_power_len(w, 1, min as nat);
                assert(power(w, 1) =~= w) by {
                    reveal_with_fuel(power, 2);
                }
                lemma_word_chain(*sub);
                lemma_repeat_chain(build(*sub), w, min as nat);
            }
            assert(crate::fragment::optional_copies(min as nat, min as nat) == 0);
        },
        Ir::Unsupported => {
            lemma_unit_chain();
        },
        _ => {},
    }
}

/// The words of the children of a concatenation are no longer than the
/// word of the whole.
pub proof fn lemma_words_len(children: Seq<Ir>, k: nat, n: nat)
    requires
        k <= n <= children.len(),
        words(children, n) is Some,
    ensures
        words(children, k) is Some,
        words(children, k)->0.len() <= words(children, n)->0.len(),
        k > 0 ==> word(children[k - 1]) is Some && word(children[k - 1])->0.len() <= words(
            children,
            n,
        )->0.len(),
    decreases n,
{
    if k < n {
        lemma_words_len(children, k, (n - 1) as nat);
    }
}

/// The fragment of a concatenation of patterns that spell words is the chain
/// for the words one after the other.
pub proof fn lemma_words_chain(children: Seq<Ir>, n: nat)
    requires
        n <= children.len(),
        words(children, n) is Some,
        words(children, n)->0.len() < usize::MAX,
    ensures
        is_chain(
            concat_all(build_each(children, children.len()), n),
            words(children, n)->0,
        ),
    decreases children, n,
{
    if n == 0 {
        lemma_unit_chain();
    } else {
        lemma_words_len(children, (n - 1) as nat, n);
        lemma_words_len(children, n, n);
        lemma_words_chain(children, (n - 1) as nat);
        lemma_word_chain(children[n - 1]);
        lemma_build_each(children, children.len());
        lemma_splice_chain(
            concat_all(build_each(children, children.len()), (n - 1) as nat),
            build(children[n - 1]),
            words(children, (n - 1) as nat)->0,
            word(children[n - 1])->0,
        );
    }
}

/// A run along a chain reads the rest of the word.
pub proof fn lemma_chain_run(a: NfaView, w: Seq<char>, input: Seq<char>, path: Seq<Config>)
    requires
        is_chain(a, w),
        is_path(a, input, path),
        path[0].pos == path[0].state,
        is_final(a, input, true, path.last()),
    ensures
        path[0].pos <= w.len(),
        input.len() == w.len(),
        input.subrange(path[0].pos as int, input.len() as int) == w.subrange(
            path[0].pos as int,
            w.len() as int,
        ),
    decreases path.len(),
{
    let p = path[0].pos as int;
    if path.len() == 1 {
        assert(a.states[p].is_ending);
        assert(input.subrange(p, input.len() as int) =~= w.subrange(p, w.len() as int));
    } else {
        assert(step(a, input, path[0], path[1]));
        let k = choose|k: int|
            0 <= k < a.states[p].transitions.len() && moves(
                a,
                input,
                path[0],
                #[trigger] a.states[p].transitions[k],
                path[1],
            );
        assert(p < w.len());
        assert(a.states[p].transitions == link(w[p], p + 1));
        assert(k == 0);
        let rest = path.skip(1);
        assert forall|i: int| 0 <= i < rest.len() - 1 implies step(
            a,
            input,
            #[trigger] rest[i],
            rest[i + 1],
        ) by {
            assert(step(a, input, path[i + 1], path[i + 2]));
        }
        assert(rest.last() == path.last());
        lemma_chain_run(a, w, input, rest);
        assert(input[p] == w[p]);
        assert(input.subrange(p, input.len() as int) =~= seq![input[p]] + input.subrange(
            p + 1,
            input.len() as int,
        ));
        assert(w.subrange(p, w.len() as int) =~= seq![w[p]] + w.subrange(p + 1, w.len() as int));
    }
}

/// A chain accepts its word and nothing else.
pub proof fn lemma_chain_accepts(a: NfaView, w: Seq<char>, input: Seq<char>)
    requires
        is_chain(a, w),
    ensures
        accepts(a, input) <==> input == w,
{
    let start = Config { pos: 0, state: 0 };
    if accepts(a, input) {
        let path = choose|p: Seq<Config>| accepting_path(a, input, true, start, p);
        lemma_chain_run(a, w, input, path);
        assert(input.subrange(0, input.len() as int) =~= input);
        assert(w.subrange(0, w.len() as int) =~= w);
    }
    if input == w {
        let path = Seq::new(w.len() + 1, |i: int| Config { pos: i as nat, state: i as usize });
        assert forall|i: int| 0 <= i < path.len() - 1 implies step(
            a,
            input,
            #[trigger] path[i],
            path[i + 1],
        ) by {
            assert(a.states[i].transitions == link(w[i], i + 1));
            assert(moves(a, input, path[i], a.states[i].transitions[0], path[i + 1]));
        }
        assert(a.states[w.len() as int].is_ending);
        assert(accepting_path(a, input, true, start, path));
    }
}

/// The automaton of a pattern that spells a word accepts that word and
/// nothing else.
pub proof fn lemma_word_accepts(ir: Ir, input: Seq<char>)
    requires
        word(ir) is Some,
        word(ir)->0.len() < usize::MAX,
    ensures
        accepts(compiled(ir), input) <==> input == word(ir)->0,
{
    lemma_word_chain(ir);
    lemma_mark_capture_group(build(ir), 0, None);
    lemma_chain_same_graph(build(ir), compiled(ir), word(ir)->0);
    lemma_chain_accepts(compiled(ir), word(ir)->0, input);
}

} // verus!
