//! A regular-expression engine on Thompson-style automata with capture groups.
//!
//! A pattern tree ([`ir::Ir`]) is turned into a nondeterministic automaton
//! ([`nfa::NFAutomata`]) by [`nfa_builder::NFAutomataBuilder`]; the automaton is
//! run against an input by an ordered depth-first search ([`search`]) that
//! records where each capture group opened and closed. [`engine::Engine`]
//! ties the parser ([`parser`]), the builder and the search together.
//!
//! The other modules hold what is proved of these: what each fragment looks
//! like ([`fragment`], [`splice`], [`wellformed`], [`built`]), which inputs an
//! automaton accepts and that the search finds exactly those ([`language`]),
//! and what follows for patterns ([`chains`], [`alternation`], [`groups`],
//! [`whole`], [`laws`]).
pub mod alternation;
pub mod built;
pub mod chains;
pub mod engine;
pub mod fragment;
pub mod groups;
pub mod ir;
pub mod language;
pub mod laws;
pub mod matcher;
pub mod nfa;
pub mod nfa_builder;
pub mod parser;
pub mod search;
pub mod splice;
pub mod wellformed;
pub mod whole;
