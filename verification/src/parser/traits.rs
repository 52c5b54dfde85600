//! What a parser needs from its user: tables to look actions up in, and
//! productions that know how to reduce.

use crate::parser::Symbol;
use crate::parsing::action::{EofAction, TokenAction};
use vstd::prelude::*;

verus! {

/// The tables of a parser. What each query answers is a function of the
/// tables and of the arguments.
pub trait Tables<NonTerminal, Token, Prod> {
    spec fn token_action(&self, state: usize, token: &Token) -> Option<TokenAction<Prod>>;

    spec fn eof_action(&self, state: usize) -> Option<EofAction<Prod>>;

    spec fn goto_target(&self, state: usize, non_terminal: &NonTerminal) -> Option<usize>;

    /// The names of the terminals that `state` has an action for, in the
    /// order in which `tokens_in_state` gives them.
    spec fn names_in(&self, state: usize) -> Seq<Seq<char>>;

    /// The action in `current_state` on `current_token`, if there is one.
    fn query_token_table(&self, current_state: usize, current_token: &Token) -> (action: Option<
        TokenAction<Prod>,
    >)
        ensures
            action == self.token_action(current_state, current_token),
    ;

    /// The action in `current_state` at the end of input, if there is one.
    fn query_eof_table(&self, current_state: usize) -> (action: Option<EofAction<Prod>>)
        ensures
            action == self.eof_action(current_state),
    ;

    /// The state to go to from `current_state` over `non_terminal`, if there
    /// is one.
    fn query_goto_table(&self, current_state: usize, non_terminal: &NonTerminal) -> (target:
        Option<usize>)
        ensures
            target == self.goto_target(current_state, non_terminal),
    ;

    /// The names of the terminals that `current_state` has an action for.
    fn tokens_in_state(&self, current_state: usize) -> (names: Vec<String>)
        ensures
            names@.len() == self.names_in(current_state).len(),
            forall|i: int|
                0 <= i < names@.len() ==> (#[trigger] names@[i])@ == self.names_in(
                    current_state,
                )[i],
    ;
}

/// A production that a parser can reduce by. The parser pops as many symbols
/// as `arity` says and hands them over in the order of the body. What
/// `reduce` does to the context and returns is a function of the production,
/// the context and the body.
pub trait Reduce<NonTerminal, Token, Ctx> {
    spec fn body_len(&self) -> usize;

    spec fn reduced(&self, ctx: Ctx, body: Seq<Symbol<NonTerminal, Token>>) -> (Ctx, NonTerminal);

    /// Length of the body.
    fn arity(&self) -> (arity: usize)
        ensures
            arity == self.body_len(),
    ;

    /// Makes the head of the production from its body.
    fn reduce(&self, ctx: &mut Ctx, body: Vec<Symbol<NonTerminal, Token>>) -> (head: NonTerminal)
        requires
            body@.len() == self.body_len(),
        ensures
            (*final(ctx), head) == self.reduced(*old(ctx), body@),
    ;
}

/// A production as its author writes it: how the head is made from the body.
pub trait Production {
    type Head;

    type Body;

    type Ctx;

    fn synthesize(ctx: &mut Self::Ctx, body: Self::Body) -> Self::Head;
}

} // verus!
