//! A small parser-generator runtime.
//!
//! A BNF-style grammar text is compiled into a [`StateManager`]: a table of
//! states connected by actions, with a start state for every rule. A
//! [`StateMachineParser`] then walks that table against a sequence of caller
//! supplied tokens, trying the alternatives of every choice point in their
//! declared order, and yields a [`MatchRecord`] tree or the position at which
//! the input left the grammar.
//!
//! The modules, in the order in which a grammar passes through them:
//!
//! - [`grammar_text`] reads the text: bytes to lexemes, lexemes to rules.
//!   [`spelling`] proves that the rules that are read are those that the
//!   text spells, and that every text of the syntax is read.
//! - [`rule_graph`] lays the body of a rule out as states;
//!   [`bnf_rules_compiler`] does so for all rules, asks the token type for
//!   the types that the names stand for, and holds the compiled tables.
//!   [`graph_paths`] and [`rule_meaning`] prove that the walks through the
//!   states of a body are the ways in which the body matches.
//! - [`empty_matches`] finds the rules that may match nothing, and the
//!   repetitions whose bodies may. [`left_recursion`] rejects rules that
//!   call themselves before a token is consumed, be it behind rules that
//!   may match nothing.
//! - [`state_machine`] is the engine, [`match_record`] what it hands back,
//!   [`derivation`] the proof that what it hands back is a path through
//!   the states, and [`grammatical`] the proof that it is therefore what
//!   the rules of the grammar allow. [`no_circles`] proves that the
//!   compiled states lead round in circles only where the rules do, and
//!   [`progress`] that on a compiled grammar the engine therefore never
//!   goes round in circles, and that compiling a text twice comes to the
//!   same.
//! - [`error`] holds the two error families and their texts.
pub mod bnf_rules_compiler;
pub mod derivation;
pub mod empty_matches;
pub mod error;
pub mod grammar_text;
pub mod grammatical;
pub mod graph_paths;
pub mod left_recursion;
pub mod match_record;
pub mod no_circles;
pub mod progress;
pub mod rule_graph;
pub mod rule_meaning;
pub mod spelling;
pub mod state_machine;

pub use bnf_rules_compiler::{compile_bnf_rules, RuleId, StateId, StateManager};
pub use error::{BNFCompileError, ParseError};
pub use match_record::MatchRecord;
pub use state_machine::{State, StateAction, StateMachineParser, Token, TokenType};
