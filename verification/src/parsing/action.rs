//! What a parser does on a symbol in a state.

use vstd::prelude::*;

verus! {

/// A cell of an action table. Productions and states are named by their ids.
#[derive(Clone, Copy, Debug, PartialEq, Eq, Structural)]
pub enum Action {
    Shift(usize),
    Reduce(usize),
    Accept,
}

/// What a parser does on a token.
#[derive(Debug)]
pub enum TokenAction<Prod> {
    Shift(usize),
    Reduce(Prod),
}

/// What a parser does at the end of input.
#[derive(Debug)]
pub enum EofAction<Prod> {
    Reduce(Prod),
    Accept,
}

} // verus!
