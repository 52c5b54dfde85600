//! Non-terminals by name.

use vstd::prelude::*;

verus! {

#[derive(Debug)]
pub struct NonTerminal {
    pub name: String,
}

impl NonTerminal {
    pub fn new(name: String) -> (non_terminal: Self)
        ensures
            non_terminal.name == name,
    {
        Self { name }
    }

    pub fn name(&self) -> (name: &String)
        ensures
            *name == self.name,
    {
        &self.name
    }
}

} // verus!
