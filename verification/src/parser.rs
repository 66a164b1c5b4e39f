//! From the text of a pattern to its tree. The text is parsed by
//! `regex_syntax`; the tree that comes back is copied, node by node, into an
//! [`Ir`].
use crate::fragment::build;
use crate::fragment::build_each;
use crate::ir::Ir;
use crate::nfa::name_view;
use regex_syntax::hir::Class;
use regex_syntax::hir::Hir;
use regex_syntax::hir::HirKind;
use vstd::prelude::*;

verus! {

/// The tree that `regex_syntax` hands back for a pattern.
#[verifier::external_type_specification]
#[verifier::external_body]
pub struct ExHir(Hir);

/// The error that `regex_syntax` hands back for a pattern it rejects.
#[verifier::external_type_specification]
#[verifier::external_body]
pub struct ExSyntaxError(regex_syntax::Error);

/// The pattern tree that a tree of `regex_syntax` stands for.
pub uninterp spec fn hir_ir(hir: Hir) -> Ir;

/// What `regex_syntax::parse` makes of a pattern: its tree, or nothing where
/// the pattern is rejected.
pub uninterp spec fn parsed(pattern: Seq<char>) -> Option<Ir>;

/// One node of a tree of `regex_syntax`: its kind, the values it holds, and
/// its children as they are.
pub enum HirNode<'a> {
    Literal(Vec<u8>),
    Class(Vec<(char, char)>),
    Concat(&'a Vec<Hir>),
    Alternation(&'a Vec<Hir>),
    Repetition(usize, Option<usize>, &'a Hir),
    Capture(u32, Option<String>, &'a Hir),
    Unsupported,
}

/// The trees `hirs` stand, one by one, for the patterns `irs`.
pub open spec fn children_match(hirs: Seq<Hir>, irs: Seq<Ir>) -> bool {
    &&& hirs.len() == irs.len()
    &&& forall|i: int| 0 <= i < hirs.len() ==> hir_ir(#[trigger] hirs[i]) == irs[i]
}

/// `node` is the root of the pattern `ir`: the same kind, the same values,
/// and children that stand for the children of `ir`.
pub open spec fn describes(node: HirNode, ir: Ir) -> bool {
    match node {
        HirNode::Literal(bytes) => ir matches Ir::Literal(b) && b@ == bytes@,
        HirNode::Class(ranges) => ir matches Ir::Class(r) && r@ == ranges@,
        HirNode::Concat(hirs) => ir matches Ir::Concat(cs) && children_match(hirs@, cs@),
        HirNode::Alternation(hirs) => ir matches Ir::Alternation(cs) && children_match(
            hirs@,
            cs@,
        ),
        HirNode::Repetition(min, max, sub) => ir matches Ir::Repetition { min: m, max: x, sub: s }
            && m == min && x == max && hir_ir(*sub) == *s,
        HirNode::Capture(index, name, sub) => ir matches Ir::Capture { index: i, name: n, sub: s }
            && i == index && name_view(n) == name_view(name) && hir_ir(*sub) == *s,
        HirNode::Unsupported => ir is Unsupported,
    }
}

/// `regex_syntax::parse`: the tree of the pattern, or the error that says
/// why it is none. The outcome depends on the pattern alone.
#[verifier::external_body]
pub fn parse_by_regex_syntax(pattern: &str) -> (r: Result<Hir, regex_syntax::Error>)
    ensures
        match r {
            Ok(hir) => parsed(pattern@) == Some(hir_ir(hir)),
            Err(_) => parsed(pattern@) is None,
        },
{
    regex_syntax::parse(pattern)
}

/// `Hir::kind`: the root of a tree of `regex_syntax`. A literal gives its
/// bytes, a class of characters its ranges, a repetition its bounds, a group
/// its index and name; a class of bytes, an empty pattern and a look-around
/// are nodes without support.
#[verifier::external_body]
fn hir_node(hir: &Hir) -> (node: HirNode<'_>)
    ensures
        describes(node, hir_ir(*hir)),
{
    match hir.kind() {
        HirKind::Literal(l) => HirNode::Literal(l.0.to_vec()),
        HirKind::Class(Class::Unicode(c)) => HirNode::Class(
            c.iter().map(|r| (r.start(), r.end())).collect(),
        ),
        HirKind::Repetition(r) => HirNode::Repetition(
            r.min as usize,
            r.max.map(|m| m as usize),
            &r.sub,
        ),
        HirKind::Capture(c) => HirNode::Capture(c.index, c.name.as_deref().map(String::from), &c.sub),
        HirKind::Concat(v) => HirNode::Concat(v),
        HirKind::Alternation(v) => HirNode::Alternation(v),
        _ => HirNode::Unsupported,
    }
}

/// Two patterns that are the same tree with the same values.
pub open spec fn same_tree(a: Ir, b: Ir) -> bool
    decreases a, 0nat,
{
    match a {
        Ir::Literal(x) => b matches Ir::Literal(y) && x@ == y@,
        Ir::Class(x) => b matches Ir::Class(y) && x@ == y@,
        Ir::Concat(x) => b matches Ir::Concat(y) && x@.len() == y@.len() && same_trees(
            x@,
            y@,
            x@.len(),
        ),
        Ir::Alternation(x) => b matches Ir::Alternation(y) && x@.len() == y@.len() && same_trees(
            x@,
            y@,
            x@.len(),
        ),
        Ir::Repetition { min, max, sub } => b matches Ir::Repetition { min: m, max: x, sub: s }
            && m == min && x == max && same_tree(*sub, *s),
        Ir::Capture { index, name, sub } => b matches Ir::Capture { index: i, name: n, sub: s }
            && i == index && name_view(n) == name_view(name) && same_tree(*sub, *s),
        Ir::Unsupported => b is Unsupported,
    }
}

/// Two lists of patterns of one length whose first `n` members are the same
/// trees.
pub open spec fn same_trees(a: Seq<Ir>, b: Seq<Ir>, n: nat) -> bool
    decreases a, n,
{
    &&& a.len() == b.len()
    &&& n <= a.len()
    &&& (n > 0 ==> same_trees(a, b, (n - 1) as nat) && same_tree(a[n - 1], b[n - 1]))
}

/// The fragment of a pattern depends on its tree and its values alone.
pub proof fn lemma_same_tree_build(a: Ir, b: Ir)
    requires
        same_tree(a, b),
    ensures
        build(a) == build(b),
    decreases a, 0nat,
{
    match a {
        Ir::Concat(x) => {
            let y = b->Concat_0;
            assert(b is Concat);
            assert(same_trees(x@, y@, x@.len()));
            lemma_same_trees_build(x@, y@, x@.len());
            assert(x@.len() == y@.len());
            assert(b == Ir::Concat(y));
        },
        Ir::Alternation(x) => {
            let y = b->Alternation_0;
            lemma_same_trees_build(x@, y@, x@.len());
            assert(x@.len() == y@.len());
            assert(b == Ir::Alternation(y));
        },
        Ir::Repetition { min, max, sub } => {
            lemma_same_tree_build(*sub, *b->Repetition_sub);
        },
        Ir::Capture { index, name, sub } => {
            lemma_same_tree_build(*sub, *b->Capture_sub);
        },
        _ => {},
    }
}

/// The fragments of two lists of patterns that are the same trees.
pub proof fn lemma_same_trees_build(a: Seq<Ir>, b: Seq<Ir>, n: nat)
    requires
        same_trees(a, b, n),
    ensures
        build_each(a, n) == build_each(b, n),
    decreases a, n,
{
    if n > 0 {
        lemma_same_trees_build(a, b, (n - 1) as nat);
        lemma_same_tree_build(a[n - 1], b[n - 1]);
    }
}

/// The patterns that the trees `hirs` stand for.
fn irs_of_hirs(hirs: &Vec<Hir>, Ghost(irs): Ghost<Vec<Ir>>) -> (r: Vec<Ir>)
    requires
        children_match(hirs@, irs@),
    ensures
        same_trees(r@, irs@, irs@.len()),
    decreases irs, 1nat,
{
    let mut r: Vec<Ir> = Vec::new();
    let mut i: usize = 0;
    while i < hirs.len()
        invariant
            i <= hirs.len(),
            children_match(hirs@, irs@),
            r@.len() == i,
            forall|j: int| 0 <= j < i ==> same_tree(#[trigger] r@[j], irs@[j]),
        decreases hirs.len() - i,
    {
        proof {
            vstd::std_specs::vec::axiom_vec_index_decreases(irs, i as int);
            assert(hir_ir(hirs@[i as int]) == irs@[i as int]);
        }
        let child = ir_of_hir(&hirs[i]);
        r.push(child);
        i += 1;
    }
    proof {
        lemma_same_trees_from_each(r@, irs@, irs@.len());
    }
    r
}

/// Lists whose members are the same trees, one by one.
proof fn lemma_same_trees_from_each(a: Seq<Ir>, b: Seq<Ir>, n: nat)
    requires
        a.len() == b.len(),
        n <= a.len(),
        forall|j: int| 0 <= j < a.len() ==> same_tree(#[trigger] a[j], b[j]),
    ensures
        same_trees(a, b, n),
    decreases n,
{
    if n > 0 {
        lemma_same_trees_from_each(a, b, (n - 1) as nat);
    }
}

/// The pattern that a tree of `regex_syntax` stands for, copied node by
/// node.
pub fn ir_of_hir(hir: &Hir) -> (ir: Ir)
    ensures
        same_tree(ir, hir_ir(*hir)),
    decreases hir_ir(*hir), 0nat,
{
    let ghost whole = hir_ir(*hir);
    match hir_node(hir) {
        HirNode::Literal(bytes) => Ir::Literal(bytes),
        HirNode::Class(ranges) => Ir::Class(ranges),
        HirNode::Concat(hirs) => {
            let ghost irs = whole->Concat_0;
            Ir::Concat(irs_of_hirs(hirs, Ghost(irs)))
        },
        HirNode::Alternation(hirs) => {
            let ghost irs = whole->Alternation_0;
            Ir::Alternation(irs_of_hirs(hirs, Ghost(irs)))
        },
        HirNode::Repetition(min, max, sub) => {
            let inner = ir_of_hir(sub);
            Ir::Repetition { min, max, sub: Box::new(inner) }
        },
        HirNode::Capture(index, name, sub) => {
            let inner = ir_of_hir(sub);
            Ir::Capture { index, name, sub: Box::new(inner) }
        },
        HirNode::Unsupported => Ir::Unsupported,
    }
}

} // verus!
