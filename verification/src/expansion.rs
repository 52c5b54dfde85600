//! Bodies of productions as sequences of symbols.

use crate::symbol::Symbol;
use vstd::prelude::*;

verus! {

pub struct Expansion {
    pub symbols: Vec<Symbol>,
}

impl Expansion {
    pub fn new(symbols: Vec<Symbol>) -> (expansion: Self)
        ensures
            expansion.symbols == symbols,
    {
        Self { symbols }
    }
}

} // verus!
