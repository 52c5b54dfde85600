//! Productions by name.

use vstd::prelude::*;

verus! {

#[derive(Debug)]
pub struct Production {
    pub name: String,
    pub head: String,
    pub body: Vec<String>,
}

impl Production {
    pub fn new(name: String, head: String, body: Vec<String>) -> (production: Self)
        ensures
            production.name == name,
            production.head == head,
            production.body == body,
    {
        Self { name, head, body }
    }

    pub fn name(&self) -> (name: &String)
        ensures
            *name == self.name,
    {
        &self.name
    }

    pub fn arity(&self) -> (arity: usize)
        ensures
            arity == self.body@.len(),
    {
        self.body.len()
    }

    pub fn head(&self) -> (head: &String)
        ensures
            *head == self.head,
    {
        &self.head
    }

    pub fn body(&self) -> (body: &Vec<String>)
        ensures
            *body == self.body,
    {
        &self.body
    }
}

} // verus!
