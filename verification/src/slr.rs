//! LR(0) items, the sets they form, and the automaton without lookaheads.

pub mod automaton;
pub mod item;
