//! Outcomes of the steps of a parse, and of a whole parse.

use crate::parser::traits::{Reduce, Tables};
use crate::parser::Parser;
use vstd::prelude::*;

verus! {

/// What became of a token.
#[derive(Debug)]
pub enum ParseToken<Token> {
    /// The token is on the stack.
    Shifted,
    /// A reduction took place; the token is to be offered again.
    Reduced { leftover_token: Token },
}

/// What happened at the end of input.
#[derive(Debug)]
pub enum ParseEof {
    Reduced,
    Accepted,
}

#[derive(Debug)]
pub enum ParseTokenError<NonTerminal, Token> {
    /// The state has no action for the token.
    ActionNotFound { leftover_token: Token },
    /// After a reduction, the state on top has no goto for the head.
    GotoNotFound { leftover_non_terminal: NonTerminal },
    /// The tables ask for a reduction by a production whose body is longer
    /// than the symbol stack.
    StackUnderflow { leftover_token: Token },
}

#[derive(Debug)]
pub enum ParseEofError<NonTerminal> {
    /// The state has no action for the end of input.
    ActionNotFound,
    /// After a reduction, the state on top has no goto for the head.
    GotoNotFound { leftover_non_terminal: NonTerminal },
    /// The tables ask for a reduction by a production whose body is longer
    /// than the symbol stack, or accept where no non-terminal is on top.
    StackUnderflow,
}

#[derive(Debug)]
pub enum ParseOneError<NonTerminal, Token> {
    ParseTokenError(ParseTokenError<NonTerminal, Token>),
    ParseEofError(ParseEofError<NonTerminal>),
    /// The parse took more reductions than a machine word counts.
    StepLimit,
}

/// A failed parse: what went wrong, and the parser as it was then.
pub struct ParseError<
    NonTerminal: Into<StartSymbol>,
    Token,
    StartSymbol,
    Prod: Reduce<NonTerminal, Token, Ctx>,
    Tab: Tables<NonTerminal, Token, Prod>,
    Ctx,
> {
    pub parser: Parser<NonTerminal, Token, StartSymbol, Prod, Tab, Ctx>,
    pub parse_one_error: ParseOneError<NonTerminal, Token>,
}

impl<
    NonTerminal: Into<StartSymbol>,
    Token,
    StartSymbol,
    Prod: Reduce<NonTerminal, Token, Ctx>,
    Tab: Tables<NonTerminal, Token, Prod>,
    Ctx,
> ParseError<NonTerminal, Token, StartSymbol, Prod, Tab, Ctx> {
    pub fn new(
        parser: Parser<NonTerminal, Token, StartSymbol, Prod, Tab, Ctx>,
        parse_one_error: ParseOneError<NonTerminal, Token>,
    ) -> (error: Self)
        ensures
            error.parser == parser,
            error.parse_one_error == parse_one_error,
    {
        Self { parser, parse_one_error }
    }

    /// The state in which the parse failed.
    pub fn state(&self) -> (state: Option<usize>)
        ensures
            state == if self.parser.stacks.state_stack@.len() > 0 {
                Some(self.parser.stacks.state_stack@.last())
            } else {
                None
            },
    {
        let depth = self.parser.stacks.state_stack.len();
        if depth > 0 {
            Some(self.parser.stacks.state_stack[depth - 1])
        } else {
            None
        }
    }
}

/// A failed lexer run: the lexer's error, and the parser as it was then.
pub struct LexError<
    NonTerminal: Into<StartSymbol>,
    Token,
    StartSymbol,
    Prod: Reduce<NonTerminal, Token, Ctx>,
    Tab: Tables<NonTerminal, Token, Prod>,
    Ctx,
    LexerError,
> {
    pub parser: Parser<NonTerminal, Token, StartSymbol, Prod, Tab, Ctx>,
    pub lexer_error: LexerError,
}

impl<
    NonTerminal: Into<StartSymbol>,
    Token,
    StartSymbol,
    Prod: Reduce<NonTerminal, Token, Ctx>,
    Tab: Tables<NonTerminal, Token, Prod>,
    Ctx,
    LexerError,
> LexError<NonTerminal, Token, StartSymbol, Prod, Tab, Ctx, LexerError> {
    pub fn new(
        parser: Parser<NonTerminal, Token, StartSymbol, Prod, Tab, Ctx>,
        lexer_error: LexerError,
    ) -> (error: Self)
        ensures
            error.parser == parser,
            error.lexer_error == lexer_error,
    {
        Self { parser, lexer_error }
    }
}

/// Why a parse of lexed input failed.
pub enum LexParseError<
    NonTerminal: Into<StartSymbol>,
    Token,
    StartSymbol,
    Prod: Reduce<NonTerminal, Token, Ctx>,
    Tab: Tables<NonTerminal, Token, Prod>,
    Ctx,
    LexerError,
> {
    LexError(LexError<NonTerminal, Token, StartSymbol, Prod, Tab, Ctx, LexerError>),
    ParseError(ParseError<NonTerminal, Token, StartSymbol, Prod, Tab, Ctx>),
}

} // verus!
