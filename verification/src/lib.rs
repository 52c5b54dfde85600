//! LALR(1) parser construction and a table-driven shift/reduce parser.
//!
//! The crate is a pipeline, leaves first:
//!
//! - `grammar`: grammars as they are written, with names;
//! - `symbolic_grammar`: grammars over dense ids, and their `FIRST` sets;
//! - `lookahead`: lookahead sets, and the graph along which they flow;
//! - `slr`: items, closures and goto sets, and the automaton without
//!   lookaheads;
//! - `lalr`: the automaton with one lookahead node per item, and the
//!   generation of tables from it;
//! - `parsing`: actions, and the tables that hold them;
//! - `parser`: the parser that runs on tables;
//! - `render`: text for all of these.

pub mod expansion;
pub mod grammar;
pub mod lalr;
pub mod lookahead;
pub mod parser;
pub mod parsing;
pub mod production;
pub mod render;
pub mod slr;
pub mod symbol;
pub mod symbolic_grammar;
pub mod token_set;
