//! Symbols of a grammar by position.

use crate::grammar::Grammar;
use vstd::prelude::*;

verus! {

/// A symbol of a grammar: the terminals come first, then the
/// non-terminals, then the end of input.
#[derive(Clone, Copy, Debug, PartialEq, Eq, Structural)]
pub enum Symbol {
    NonTerminal(usize),
    Token(usize),
    EOF,
}

impl Symbol {
    /// The position of the symbol among all symbols of `grammar`.
    pub open spec fn position(self, grammar: &Grammar) -> int {
        match self {
            Symbol::Token(i) => i as int,
            Symbol::NonTerminal(i) => i + grammar.tokens@.len(),
            Symbol::EOF => (grammar.tokens@.len() + grammar.non_terminals@.len()) as int,
        }
    }

    /// The position of the symbol among all symbols of `grammar`.
    pub fn index(&self, grammar: &Grammar) -> (index: usize)
        requires
            self.position(grammar) <= usize::MAX,
        ensures
            index == self.position(grammar),
    {
        match self {
            Symbol::Token(i) => *i,
            Symbol::NonTerminal(i) => *i + grammar.tokens.len(),
            Symbol::EOF => grammar.tokens.len() + grammar.non_terminals.len(),
        }
    }
}

} // verus!
