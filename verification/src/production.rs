//! Productions with their declarations.

use crate::expansion::Expansion;
use crate::grammar::non_terminal::NonTerminal;
use vstd::prelude::*;

verus! {

pub struct Production {
    pub name: String,
    pub head: NonTerminal,
    pub body: Expansion,
}

} // verus!
