//! The engine: a pattern compiled into an automaton, and the automaton run
//! against inputs.
use crate::fragment::compiled;
use crate::fragment::is_fragment;
use crate::ir::Ir;
use crate::nfa::NFAutomata;
use crate::nfa_builder::NFAutomataBuilder;
use crate::parser::ir_of_hir;
use crate::parser::lemma_same_tree_build;
use crate::parser::parse_by_regex_syntax;
use crate::parser::parsed;
use crate::search::captures_of;
use crate::search::decimal;
use crate::search::search;
use crate::wellformed::lemma_mark_capture_group;
use crate::wellformed::lemma_same_graph;
use vstd::hash_map::StringHashMap;
use vstd::prelude::*;

verus! {

/// A pattern that the parser rejects, with the parser's own account of it.
#[derive(Debug)]
pub struct ParseError {
    pub error: regex_syntax::Error,
}

/// A compiled pattern.
pub struct Engine {
    pub nfa: NFAutomata,
}

impl Default for Engine {
    fn default() -> (r: Self)
        ensures
            r.nfa@ == crate::nfa::NfaView::empty(),
    {
        Engine { nfa: NFAutomata::new() }
    }
}

impl Engine {
    /// The engine of a pattern tree: the fragment of the tree, with the whole
    /// of it inside group 0.
    pub fn from_ir(ir: &Ir) -> (e: Engine)
        ensures
            e.nfa@ == compiled(*ir),
            is_fragment(e.nfa@),
    {
        let mut built = NFAutomataBuilder::ast_to_nfa(ir);
        let ghost before = built.nfa@;
        built.nfa.mark_capture_group(0, None);
        proof {
            lemma_mark_capture_group(before, 0, None);
            lemma_same_graph(before, built.nfa@);
        }
        Engine { nfa: built.nfa }
    }

    /// Compiles a pattern. A pattern that parses gives the engine of its
    /// tree; one that the parser rejects gives the parser's error.
    pub fn compile(pattern: &str) -> (r: Result<Engine, ParseError>)
        ensures
            match parsed(pattern@) {
                Some(ir) => r matches Ok(e) && e.nfa@ == compiled(ir) && is_fragment(e.nfa@),
                None => r is Err,
            },
    {
        match parse_by_regex_syntax(pattern) {
            Ok(hir) => {
                let ir = ir_of_hir(&hir);
                proof {
                    lemma_same_tree_build(ir, crate::parser::hir_ir(hir));
                }
                Ok(Engine::from_ir(&ir))
            },
            Err(error) => Err(ParseError { error }),
        }
    }

    /// Runs the engine on `input`: the captures, if the whole input is
    /// accepted.
    pub fn execute(&self, input: &str) -> (r: Option<StringHashMap<String>>)
        requires
            self.nfa@.runnable(),
        ensures
            match r {
                Some(m) => search(self.nfa@, input@, true) == Some(captures_of(m)),
                None => search(self.nfa@, input@, true) is None,
            },
            r is Some <==> crate::language::accepts(self.nfa@, input@),
    {
        self.nfa.compute(input)
    }

    /// Whether the whole of `input` is accepted.
    pub fn matches(&self, input: &str) -> (r: bool)
        requires
            self.nfa@.runnable(),
        ensures
            r == search(self.nfa@, input@, true) is Some,
            r == crate::language::accepts(self.nfa@, input@),
    {
        self.nfa.compute(input).is_some()
    }

    /// The text of group 0 for an input that is accepted.
    pub fn exec(&self, s: &str) -> (r: String)
        requires
            self.nfa@.runnable(),
            search(self.nfa@, s@, true) matches Some(m) && m.contains_key(decimal(0)),
        ensures
            r@ == search(self.nfa@, s@, true)->0[decimal(0)],
    {
        let found = self.nfa.compute(s).unwrap();
        proof {
            reveal_strlit("0");
            assert("0"@ =~= decimal(0));
        }
        let text = found.get("0").unwrap();
        text.clone()
    }
}

impl vstd::std_specs::convert::TryFromSpecImpl<&str> for Engine {
    /// The conversion is stated by the contract of `try_from`: an engine is
    /// no value that a contract could construct.
    open spec fn obeys_try_from_spec() -> bool {
        false
    }

    open spec fn try_from_spec(pattern: &str) -> Result<Engine, ParseError> {
        arbitrary()
    }
}

impl TryFrom<&str> for Engine {
    type Error = ParseError;

    fn try_from(pattern: &str) -> (r: Result<Engine, ParseError>)
        ensures
            match parsed(pattern@) {
                Some(ir) => r matches Ok(e) && e.nfa@ == compiled(ir) && is_fragment(e.nfa@),
                None => r is Err,
            },
    {
        Engine::compile(pattern)
    }
}

} // verus!
