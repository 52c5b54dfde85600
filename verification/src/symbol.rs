//! Symbols with their declarations.

use crate::grammar::non_terminal::NonTerminal;
use crate::grammar::token::Token;
use vstd::prelude::*;

verus! {

pub enum Symbol {
    NonTerminal(NonTerminal),
    Token(Token),
}

} // verus!
