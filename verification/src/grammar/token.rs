//! Terminals by name.

use vstd::prelude::*;

verus! {

#[derive(Debug)]
pub struct Token {
    pub name: String,
}

impl Token {
    pub fn new(name: String) -> (token: Self)
        ensures
            token.name == name,
    {
        Self { name }
    }

    pub fn name(&self) -> (name: &String)
        ensures
            *name == self.name,
    {
        &self.name
    }
}

} // verus!
