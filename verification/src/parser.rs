//! The table-driven shift/reduce parser.
//!
//! A parser holds a stack of states, a stack of symbols that is one shorter,
//! and the user's context. It reads its actions from tables and leaves the
//! making of non-terminals to the productions.

pub mod balance;
pub mod fitting;
pub mod generated;
pub mod results;
pub mod sentences;
pub mod traits;

use crate::parser::results::{
    LexError, LexParseError, ParseEof, ParseEofError, ParseError, ParseOneError, ParseToken,
    ParseTokenError,
};
use crate::parser::traits::{Reduce, Tables};
use crate::parsing::action::{EofAction, TokenAction};
use std::marker::PhantomData;
use vstd::prelude::*;

verus! {

/// A symbol on the stack, with its payload.
#[derive(Debug)]
pub enum Symbol<NonTerminal, Token> {
    NonTerminal(NonTerminal),
    Token(Token),
}

#[derive(Debug)]
pub struct Stacks<NonTerminal, Token> {
    pub state_stack: Vec<usize>,
    pub symbol_stack: Vec<Symbol<NonTerminal, Token>>,
}

impl<NonTerminal, Token> Stacks<NonTerminal, Token> {
    /// The stacks of a parse that has read nothing: state 0, and no symbol.
    pub fn new() -> (stacks: Self)
        ensures
            stacks.state_stack@ == seq![0usize],
            stacks.symbol_stack@ == Seq::<Symbol<NonTerminal, Token>>::empty(),
    {
        let mut state_stack: Vec<usize> = Vec::new();
        state_stack.push(0);
        assert(state_stack@ =~= seq![0usize]);
        Self { state_stack, symbol_stack: Vec::new() }
    }

    /// The state on top.
    pub fn current_state(&self) -> (state: usize)
        requires
            self.state_stack@.len() > 0,
        ensures
            state == self.state_stack@.last(),
    {
        self.state_stack[self.state_stack.len() - 1]
    }

    pub fn shift(&mut self, new_state: usize, token: Token)
        ensures
            final(self).state_stack@ == old(self).state_stack@.push(new_state),
            final(self).symbol_stack@ == old(self).symbol_stack@.push(Symbol::Token(token)),
    {
        self.state_stack.push(new_state);
        self.symbol_stack.push(Symbol::Token(token));
    }

    pub fn goto(&mut self, new_state: usize, non_terminal: NonTerminal)
        ensures
            final(self).state_stack@ == old(self).state_stack@.push(new_state),
            final(self).symbol_stack@ == old(self).symbol_stack@.push(
                Symbol::NonTerminal(non_terminal),
            ),
    {
        self.state_stack.push(new_state);
        self.symbol_stack.push(Symbol::NonTerminal(non_terminal));
    }
}

/// A parser as the contracts see it.
pub struct Config<NonTerminal, Token, Ctx> {
    pub state_stack: Seq<usize>,
    pub symbol_stack: Seq<Symbol<NonTerminal, Token>>,
    pub ctx: Ctx,
}

impl<NonTerminal, Token, Ctx> Config<NonTerminal, Token, Ctx> {
    /// There is one state more than there are symbols.
    pub open spec fn wf(self) -> bool {
        self.state_stack.len() == self.symbol_stack.len() + 1
    }

    /// The parser that has read nothing.
    pub open spec fn initial(ctx: Ctx) -> Self {
        Config { state_stack: seq![0usize], symbol_stack: Seq::empty(), ctx }
    }
}

/// A parse in progress: the parser, the reductions made so far, and the
/// error that ended it, if one did.
pub struct Run<NonTerminal, Token, Ctx> {
    pub config: Config<NonTerminal, Token, Ctx>,
    pub steps: nat,
    pub error: Option<ParseOneError<NonTerminal, Token>>,
}

pub struct Parser<
    NonTerminal: Into<StartSymbol>,
    Token,
    StartSymbol,
    Prod: Reduce<NonTerminal, Token, Ctx>,
    Tab: Tables<NonTerminal, Token, Prod>,
    Ctx,
> {
    pub stacks: Stacks<NonTerminal, Token>,
    pub ctx: Ctx,
    pub phantom_data: PhantomData<(StartSymbol, Prod, Tab)>,
}

impl<
    NonTerminal: Into<StartSymbol>,
    Token,
    StartSymbol,
    Prod: Reduce<NonTerminal, Token, Ctx>,
    Tab: Tables<NonTerminal, Token, Prod>,
    Ctx,
> Parser<NonTerminal, Token, StartSymbol, Prod, Tab, Ctx> {
    pub open spec fn config(&self) -> Config<NonTerminal, Token, Ctx> {
        Config {
            state_stack: self.stacks.state_stack@,
            symbol_stack: self.stacks.symbol_stack@,
            ctx: self.ctx,
        }
    }

    /// A reduction by `production`: as many symbols and states as its body is
    /// long leave the stacks, the production makes its head of the symbols,
    /// and the head goes onto the stack with the state that the tables give
    /// for it. Where the tables give none, the head is left over.
    pub open spec fn reduce_step(
        tables: &Tab,
        config: Config<NonTerminal, Token, Ctx>,
        production: Prod,
    ) -> (Config<NonTerminal, Token, Ctx>, Option<NonTerminal>) {
        let arity = production.body_len() as int;
        let kept = config.symbol_stack.len() - arity;
        let body = config.symbol_stack.subrange(kept, config.symbol_stack.len() as int);
        let (ctx, head) = production.reduced(config.ctx, body);
        let states = config.state_stack.subrange(0, config.state_stack.len() - arity);
        let symbols = config.symbol_stack.subrange(0, kept);
        match tables.goto_target(states.last(), &head) {
            Some(next) => (
                Config {
                    state_stack: states.push(next),
                    symbol_stack: symbols.push(Symbol::NonTerminal(head)),
                    ctx,
                },
                None,
            ),
            None => (Config { state_stack: states, symbol_stack: symbols, ctx }, Some(head)),
        }
    }

    /// One step on `token`: the parser afterwards, and what became of the token.
    pub open spec fn token_step(
        tables: &Tab,
        config: Config<NonTerminal, Token, Ctx>,
        token: Token,
    ) -> (Config<NonTerminal, Token, Ctx>, Result<ParseToken<Token>, ParseTokenError<NonTerminal, Token>>) {
        match tables.token_action(config.state_stack.last(), &token) {
            Some(TokenAction::Shift(new_state)) => (
                Config {
                    state_stack: config.state_stack.push(new_state),
                    symbol_stack: config.symbol_stack.push(Symbol::Token(token)),
                    ctx: config.ctx,
                },
                Ok(ParseToken::Shifted),
            ),
            Some(TokenAction::Reduce(production)) => {
                if production.body_len() > config.symbol_stack.len() {
                    (config, Err(ParseTokenError::StackUnderflow { leftover_token: token }))
                } else {
                    let (next, left_over) = Self::reduce_step(tables, config, production);
                    match left_over {
                        Some(head) => (
                            next,
                            Err(ParseTokenError::GotoNotFound { leftover_non_terminal: head }),
                        ),
                        None => (next, Ok(ParseToken::Reduced { leftover_token: token })),
                    }
                }
            },
            None => (config, Err(ParseTokenError::ActionNotFound { leftover_token: token })),
        }
    }

    /// One step at the end of input.
    pub open spec fn eof_step(tables: &Tab, config: Config<NonTerminal, Token, Ctx>) -> (
        Config<NonTerminal, Token, Ctx>,
        Result<ParseEof, ParseEofError<NonTerminal>>,
    ) {
        match tables.eof_action(config.state_stack.last()) {
            Some(EofAction::Reduce(production)) => {
                if production.body_len() > config.symbol_stack.len() {
                    (config, Err(ParseEofError::StackUnderflow))
                } else {
                    let (next, left_over) = Self::reduce_step(tables, config, production);
                    match left_over {
                        Some(head) => (
                            next,
                            Err(ParseEofError::GotoNotFound { leftover_non_terminal: head }),
                        ),
                        None => (next, Ok(ParseEof::Reduced)),
                    }
                }
            },
            Some(EofAction::Accept) => (config, Ok(ParseEof::Accepted)),
            None => (config, Err(ParseEofError::ActionNotFound)),
        }
    }

    /// Offers `token` until it is shifted or the parse fails.
    pub open spec fn feed(
        tables: &Tab,
        config: Config<NonTerminal, Token, Ctx>,
        token: Token,
        steps: nat,
    ) -> Run<NonTerminal, Token, Ctx>
        decreases usize::MAX - steps,
    {
        let (next, outcome) = Self::token_step(tables, config, token);
        match outcome {
            Ok(ParseToken::Shifted) => Run { config: next, steps, error: None },
            Ok(ParseToken::Reduced { leftover_token }) => {
                if steps >= usize::MAX {
                    Run { config: next, steps, error: Some(ParseOneError::StepLimit) }
                } else {
                    Self::feed(tables, next, leftover_token, steps + 1)
                }
            },
            Err(error) => Run {
                config: next,
                steps,
                error: Some(ParseOneError::ParseTokenError(error)),
            },
        }
    }

    /// Feeds the first `count` of `tokens`, as long as the parse does not fail.
    pub open spec fn feed_all(
        tables: &Tab,
        start: Run<NonTerminal, Token, Ctx>,
        tokens: Seq<Token>,
        count: nat,
    ) -> Run<NonTerminal, Token, Ctx>
        decreases count,
    {
        if count == 0 {
            start
        } else {
            let earlier = Self::feed_all(tables, start, tokens, (count - 1) as nat);
            if earlier.error is Some {
                earlier
            } else {
                Self::feed(tables, earlier.config, tokens[count - 1], earlier.steps)
            }
        }
    }

    /// Steps at the end of input until the parse is accepted or fails.
    pub open spec fn finish(
        tables: &Tab,
        config: Config<NonTerminal, Token, Ctx>,
        steps: nat,
    ) -> Run<NonTerminal, Token, Ctx>
        decreases usize::MAX - steps,
    {
        let (next, outcome) = Self::eof_step(tables, config);
        match outcome {
            Ok(ParseEof::Accepted) => Run { config: next, steps, error: None },
            Ok(ParseEof::Reduced) => {
                if steps >= usize::MAX {
                    Run { config: next, steps, error: Some(ParseOneError::StepLimit) }
                } else {
                    Self::finish(tables, next, steps + 1)
                }
            },
            Err(error) => Run {
                config: next,
                steps,
                error: Some(ParseOneError::ParseEofError(error)),
            },
        }
    }

    /// What a parse ends with: the start symbol's payload with the context,
    /// or the parser as it failed with the error.
    pub open spec fn ending(run: Run<NonTerminal, Token, Ctx>) -> Result<
        (NonTerminal, Config<NonTerminal, Token, Ctx>),
        (Config<NonTerminal, Token, Ctx>, ParseOneError<NonTerminal, Token>),
    > {
        match run.error {
            Some(error) => Err((run.config, error)),
            None => {
                if run.config.symbol_stack.len() > 0 && run.config.symbol_stack.last() is NonTerminal {
                    Ok(
                        (
                            run.config.symbol_stack.last()->NonTerminal_0,
                            Config {
                                state_stack: run.config.state_stack,
                                symbol_stack: run.config.symbol_stack.drop_last(),
                                ctx: run.config.ctx,
                            },
                        ),
                    )
                } else {
                    Err(
                        (
                            Config {
                                state_stack: run.config.state_stack,
                                symbol_stack: if run.config.symbol_stack.len() > 0 {
                                    run.config.symbol_stack.drop_last()
                                } else {
                                    run.config.symbol_stack
                                },
                                ctx: run.config.ctx,
                            },
                            ParseOneError::ParseEofError(ParseEofError::StackUnderflow),
                        ),
                    )
                }
            },
        }
    }

    /// A parse of `tokens` from start to end.
    pub open spec fn parsed(tables: &Tab, ctx: Ctx, tokens: Seq<Token>) -> Result<
        (NonTerminal, Config<NonTerminal, Token, Ctx>),
        (Config<NonTerminal, Token, Ctx>, ParseOneError<NonTerminal, Token>),
    > {
        let fed = Self::feed_all(
            tables,
            Run { config: Config::initial(ctx), steps: 0, error: None },
            tokens,
            tokens.len(),
        );
        if fed.error is Some {
            Err((fed.config, fed.error.unwrap()))
        } else {
            Self::ending(Self::finish(tables, fed.config, fed.steps))
        }
    }

    pub fn new(ctx: Ctx) -> (parser: Self)
        ensures
            parser.config() == Config::<NonTerminal, Token, Ctx>::initial(ctx),
    {
        Self { stacks: Stacks::new(), ctx, phantom_data: PhantomData }
    }

    /// Reduces by `production`, whose body the symbol stack is long enough for.
    fn reduce(&mut self, tables: &Tab, production: Prod) -> (left_over: Option<NonTerminal>)
        requires
            old(self).config().wf(),
            production.body_len() <= old(self).config().symbol_stack.len(),
        ensures
            (final(self).config(), left_over) == Self::reduce_step(
                tables,
                old(self).config(),
                production,
            ),
            left_over is None ==> final(self).config().wf(),
    {
        let arity = production.arity();
        let kept = self.stacks.symbol_stack.len() - arity;
        let body = self.stacks.symbol_stack.split_off(kept);
        self.stacks.state_stack.truncate(self.stacks.state_stack.len() - arity);
        let head = production.reduce(&mut self.ctx, body);
        let state = self.stacks.current_state();
        match tables.query_goto_table(state, &head) {
            Some(next) => {
                self.stacks.goto(next, head);
                None
            },
            None => Some(head),
        }
    }

    /// Offers `token` once: it is shifted, or a reduction takes place and
    /// the token comes back, or the parse fails.
    pub fn parse_token(&mut self, tables: &Tab, token: Token) -> (outcome: Result<
        ParseToken<Token>,
        ParseTokenError<NonTerminal, Token>,
    >)
        requires
            old(self).config().wf(),
        ensures
            (final(self).config(), outcome) == Self::token_step(tables, old(self).config(), token),
            outcome is Ok ==> final(self).config().wf(),
            outcome == Ok::<ParseToken<Token>, ParseTokenError<NonTerminal, Token>>(
                ParseToken::Shifted,
            ) ==> final(self).stacks.state_stack@.len() == old(self).stacks.state_stack@.len() + 1,
            outcome is Ok && outcome != Ok::<
                ParseToken<Token>,
                ParseTokenError<NonTerminal, Token>,
            >(ParseToken::Shifted) ==> {
                let production = tables.token_action(
                    old(self).stacks.state_stack@.last(),
                    &token,
                )->Some_0->Reduce_0;
                let kept = old(self).stacks.symbol_stack@.len() - production.body_len();
                &&& final(self).stacks.symbol_stack@.len() == kept + 1
                &&& final(self).stacks.state_stack@.len() == kept + 2
                &&& final(self).stacks.symbol_stack@.subrange(0, kept) == old(
                    self,
                ).stacks.symbol_stack@.subrange(0, kept)
                &&& final(self).stacks.state_stack@.subrange(0, kept + 1) == old(
                    self,
                ).stacks.state_stack@.subrange(0, kept + 1)
                &&& final(self).stacks.symbol_stack@.last() is NonTerminal
            },
    {
        let current_state = self.stacks.current_state();
        match tables.query_token_table(current_state, &token) {
            Some(TokenAction::Shift(new_state)) => {
                self.stacks.shift(new_state, token);
                Ok(ParseToken::Shifted)
            },
            Some(TokenAction::Reduce(production)) => {
                if production.arity() > self.stacks.symbol_stack.len() {
                    return Err(ParseTokenError::StackUnderflow { leftover_token: token });
                }
                match self.reduce(tables, production) {
                    Some(head) => Err(ParseTokenError::GotoNotFound { leftover_non_terminal: head }),
                    None => {
                        proof {
                            let kept = old(self).stacks.symbol_stack@.len() - production.body_len();
                            assert(self.stacks.symbol_stack@.subrange(0, kept) =~= old(
                                self,
                            ).stacks.symbol_stack@.subrange(0, kept));
                            assert(self.stacks.state_stack@.subrange(0, kept + 1) =~= old(
                                self,
                            ).stacks.state_stack@.subrange(0, kept + 1));
                        }
                        Ok(ParseToken::Reduced { leftover_token: token })
                    },
                }
            },
            None => Err(ParseTokenError::ActionNotFound { leftover_token: token }),
        }
    }

    /// One step at the end of input: a reduction, or acceptance, or failure.
    pub fn parse_eof(&mut self, tables: &Tab) -> (outcome: Result<
        ParseEof,
        ParseEofError<NonTerminal>,
    >)
        requires
            old(self).config().wf(),
        ensures
            (final(self).config(), outcome) == Self::eof_step(tables, old(self).config()),
            outcome is Ok ==> final(self).config().wf(),
            outcome == Ok::<ParseEof, ParseEofError<NonTerminal>>(ParseEof::Reduced) ==> {
                let production = tables.eof_action(
                    old(self).stacks.state_stack@.last(),
                )->Some_0->Reduce_0;
                let kept = old(self).stacks.symbol_stack@.len() - production.body_len();
                &&& final(self).stacks.symbol_stack@.len() == kept + 1
                &&& final(self).stacks.state_stack@.len() == kept + 2
                &&& final(self).stacks.symbol_stack@.subrange(0, kept) == old(
                    self,
                ).stacks.symbol_stack@.subrange(0, kept)
                &&& final(self).stacks.state_stack@.subrange(0, kept + 1) == old(
                    self,
                ).stacks.state_stack@.subrange(0, kept + 1)
                &&& final(self).stacks.symbol_stack@.last() is NonTerminal
            },
    {
        let current_state = self.stacks.current_state();
        match tables.query_eof_table(current_state) {
            Some(EofAction::Reduce(production)) => {
                if production.arity() > self.stacks.symbol_stack.len() {
                    return Err(ParseEofError::StackUnderflow);
                }
                match self.reduce(tables, production) {
                    Some(head) => Err(ParseEofError::GotoNotFound { leftover_non_terminal: head }),
                    None => {
                        proof {
                            let kept = old(self).stacks.symbol_stack@.len() - production.body_len();
                            assert(self.stacks.symbol_stack@.subrange(0, kept) =~= old(
                                self,
                            ).stacks.symbol_stack@.subrange(0, kept));
                            assert(self.stacks.state_stack@.subrange(0, kept + 1) =~= old(
                                self,
                            ).stacks.state_stack@.subrange(0, kept + 1));
                        }
                        Ok(ParseEof::Reduced)
                    },
                }
            },
            Some(EofAction::Accept) => Ok(ParseEof::Accepted),
            None => Err(ParseEofError::ActionNotFound),
        }
    }

    /// Offers `token` until it is shifted. `steps` counts the reductions.
    fn feed_token(&mut self, tables: &Tab, token: Token, steps: &mut usize) -> (error: Option<
        ParseOneError<NonTerminal, Token>,
    >)
        requires
            old(self).config().wf(),
        ensures
            Self::feed(tables, old(self).config(), token, *old(steps) as nat) == (Run {
                config: final(self).config(),
                steps: *final(steps) as nat,
                error,
            }),
            error is None ==> final(self).config().wf(),
    {
        let mut current = token;
        loop
            invariant
                self.config().wf(),
                Self::feed(tables, old(self).config(), token, *old(steps) as nat) == Self::feed(
                    tables,
                    self.config(),
                    current,
                    *steps as nat,
                ),
            decreases usize::MAX - *steps,
        {
            match self.parse_token(tables, current) {
                Ok(ParseToken::Shifted) => {
                    return None;
                },
                Ok(ParseToken::Reduced { leftover_token }) => {
                    if *steps == usize::MAX {
                        return Some(ParseOneError::StepLimit);
                    }
                    *steps = *steps + 1;
                    current = leftover_token;
                },
                Err(error) => {
                    return Some(ParseOneError::ParseTokenError(error));
                },
            }
        }
    }

    /// Steps at the end of input until acceptance or failure.
    fn finish_input(&mut self, tables: &Tab, steps: &mut usize) -> (error: Option<
        ParseOneError<NonTerminal, Token>,
    >)
        requires
            old(self).config().wf(),
        ensures
            Self::finish(tables, old(self).config(), *old(steps) as nat) == (Run {
                config: final(self).config(),
                steps: *final(steps) as nat,
                error,
            }),
            error is None ==> final(self).config().wf(),
    {
        loop
            invariant
                self.config().wf(),
                Self::finish(tables, old(self).config(), *old(steps) as nat) == Self::finish(
                    tables,
                    self.config(),
                    *steps as nat,
                ),
            decreases usize::MAX - *steps,
        {
            match self.parse_eof(tables) {
                Ok(ParseEof::Accepted) => {
                    return None;
                },
                Ok(ParseEof::Reduced) => {
                    if *steps == usize::MAX {
                        return Some(ParseOneError::StepLimit);
                    }
                    *steps = *steps + 1;
                },
                Err(error) => {
                    return Some(ParseOneError::ParseEofError(error));
                },
            }
        }
    }

    /// Takes the start symbol's payload off an accepted parser.
    fn take_result(self, tables: &Tab, Ghost(run): Ghost<Run<NonTerminal, Token, Ctx>>) -> (res:
        Result<StartSymbol, ParseError<NonTerminal, Token, StartSymbol, Prod, Tab, Ctx>>)
        requires
            run.error is None,
            run.config == self.config(),
        ensures
            match res {
                Ok(start) => Self::ending(run) is Ok && call_ensures(
                    <NonTerminal as Into<StartSymbol>>::into,
                    (Self::ending(run)->Ok_0.0,),
                    start,
                ),
                Err(error) => Self::ending(run) == Err::<
                    (NonTerminal, Config<NonTerminal, Token, Ctx>),
                    (Config<NonTerminal, Token, Ctx>, ParseOneError<NonTerminal, Token>),
                >((error.parser.config(), error.parse_one_error)),
            },
    {
        let mut parser = self;
        match parser.stacks.symbol_stack.pop() {
            Some(Symbol::NonTerminal(non_terminal)) => Ok(non_terminal.into()),
            _ => {
                proof {
                    if run.config.symbol_stack.len() > 0 {
                        assert(parser.stacks.symbol_stack@ =~= run.config.symbol_stack.drop_last());
                    }
                }
                Err(
                    ParseError::new(
                        parser,
                        ParseOneError::ParseEofError(ParseEofError::StackUnderflow),
                    ),
                )
            },
        }
    }

    /// Parses `tokens` with the context `ctx`: each token is offered until it
    /// is shifted, then the end of input is offered until the parse is
    /// accepted. The result is what the payload of the start symbol
    /// converts to; a failure comes with the parser as it was then.
    pub fn parse_with_ctx(tables: &Tab, ctx: Ctx, tokens: Vec<Token>) -> (res: Result<
        StartSymbol,
        ParseError<NonTerminal, Token, StartSymbol, Prod, Tab, Ctx>,
    >)
        ensures
            match res {
                Ok(start) => Self::parsed(tables, ctx, tokens@) is Ok && call_ensures(
                    <NonTerminal as Into<StartSymbol>>::into,
                    (Self::parsed(tables, ctx, tokens@)->Ok_0.0,),
                    start,
                ),
                Err(error) => Self::parsed(tables, ctx, tokens@) == Err::<
                    (NonTerminal, Config<NonTerminal, Token, Ctx>),
                    (Config<NonTerminal, Token, Ctx>, ParseOneError<NonTerminal, Token>),
                >((error.parser.config(), error.parse_one_error)),
            },
    {
        let mut parser = Self::new(ctx);
        let mut steps: usize = 0;
        let ghost all = tokens@;
        let ghost start = Run::<NonTerminal, Token, Ctx> {
            config: Config::initial(ctx),
            steps: 0,
            error: None,
        };
        for token in it: tokens.into_iter()
            invariant
                it.seq() == all,
                all == tokens@,
                start == (Run::<NonTerminal, Token, Ctx> {
                    config: Config::initial(ctx),
                    steps: 0,
                    error: None,
                }),
                parser.config().wf(),
                Self::feed_all(tables, start, all, it.index() as nat) == (Run {
                    config: parser.config(),
                    steps: steps as nat,
                    error: None,
                }),
        {
            match parser.feed_token(tables, token, &mut steps) {
                Some(error) => {
                    proof {
                        let failed = Run::<NonTerminal, Token, Ctx> {
                            config: parser.config(),
                            steps: steps as nat,
                            error: Some(error),
                        };
                        assert(Self::feed_all(tables, start, all, (it.index() + 1) as nat)
                            == failed);
                        Self::lemma_feed_all_failed(
                            tables,
                            start,
                            all,
                            (it.index() + 1) as nat,
                            all.len(),
                        );
                    }
                    return Err(ParseError::new(parser, error));
                },
                None => {},
            }
        }
        let ghost fed = Run::<NonTerminal, Token, Ctx> {
            config: parser.config(),
            steps: steps as nat,
            error: None,
        };
        match parser.finish_input(tables, &mut steps) {
            Some(error) => Err(ParseError::new(parser, error)),
            None => {
                let ghost run = Run::<NonTerminal, Token, Ctx> {
                    config: parser.config(),
                    steps: steps as nat,
                    error: None,
                };
                parser.take_result(tables, Ghost(run))
            },
        }
    }

    /// Once a parse has failed, feeding more tokens changes nothing.
    pub proof fn lemma_feed_all_failed(
        tables: &Tab,
        start: Run<NonTerminal, Token, Ctx>,
        tokens: Seq<Token>,
        count: nat,
        more: nat,
    )
        requires
            Self::feed_all(tables, start, tokens, count).error is Some,
            count <= more,
        ensures
            Self::feed_all(tables, start, tokens, more) == Self::feed_all(
                tables,
                start,
                tokens,
                count,
            ),
        decreases more,
    {
        if count < more {
            Self::lemma_feed_all_failed(tables, start, tokens, count, (more - 1) as nat);
        }
    }
}

/// The position of the first lexer error at or behind `from`, or the length
/// of `lexed` if there is none.
pub open spec fn first_error<Token, LexerError>(
    lexed: Seq<Result<Token, LexerError>>,
    from: nat,
) -> nat
    decreases lexed.len() - from,
{
    if from >= lexed.len() {
        lexed.len()
    } else if lexed[from as int] is Err {
        from
    } else {
        first_error(lexed, from + 1)
    }
}

/// The tokens of `lexed`, position by position. Where the lexer failed, the
/// token is left open.
pub open spec fn lexed_tokens<Token, LexerError>(lexed: Seq<Result<Token, LexerError>>) -> Seq<
    Token,
> {
    Seq::new(lexed.len(), |i: int| lexed[i]->Ok_0)
}

proof fn lemma_first_error_skips<Token, LexerError>(
    lexed: Seq<Result<Token, LexerError>>,
    from: nat,
    upto: nat,
)
    requires
        from <= upto <= lexed.len(),
        forall|i: int| from <= i < upto ==> #[trigger] lexed[i] is Ok,
    ensures
        first_error(lexed, from) == first_error(lexed, upto),
    decreases upto - from,
{
    if from < upto {
        lemma_first_error_skips(lexed, from + 1, upto);
    }
}

proof fn lemma_first_error_bounds<Token, LexerError>(
    lexed: Seq<Result<Token, LexerError>>,
    from: nat,
)
    requires
        from <= lexed.len(),
    ensures
        from <= first_error(lexed, from) <= lexed.len(),
    decreases lexed.len() - from,
{
    if from < lexed.len() && lexed[from as int] is Ok {
        lemma_first_error_bounds(lexed, from + 1);
    }
}

/// What a parse of lexed input ends with.
pub enum LexedEnding<NonTerminal, Token, Ctx, LexerError> {
    Parsed(NonTerminal, Config<NonTerminal, Token, Ctx>),
    ParseFailed(Config<NonTerminal, Token, Ctx>, ParseOneError<NonTerminal, Token>),
    LexFailed(Config<NonTerminal, Token, Ctx>, LexerError),
}

impl<
    NonTerminal: Into<StartSymbol>,
    Token,
    StartSymbol,
    Prod: Reduce<NonTerminal, Token, Ctx>,
    Tab: Tables<NonTerminal, Token, Prod>,
    Ctx,
> Parser<NonTerminal, Token, StartSymbol, Prod, Tab, Ctx> {
    /// A parse of what a lexer gave: the tokens before the first lexer error
    /// are fed. If that fails, the parse has failed. Otherwise the lexer's
    /// error ends the parse, if there is one; if there is none, the end of
    /// input is offered.
    pub open spec fn lex_parsed<LexerError>(
        tables: &Tab,
        ctx: Ctx,
        lexed: Seq<Result<Token, LexerError>>,
    ) -> LexedEnding<NonTerminal, Token, Ctx, LexerError> {
        let good = first_error(lexed, 0);
        let fed = Self::feed_all(
            tables,
            Run { config: Config::initial(ctx), steps: 0, error: None },
            lexed_tokens(lexed),
            good,
        );
        if fed.error is Some {
            LexedEnding::ParseFailed(fed.config, fed.error.unwrap())
        } else if good < lexed.len() {
            LexedEnding::LexFailed(fed.config, lexed[good as int]->Err_0)
        } else {
            match Self::ending(Self::finish(tables, fed.config, fed.steps)) {
                Ok((start, config)) => LexedEnding::Parsed(start, config),
                Err((config, error)) => LexedEnding::ParseFailed(config, error),
            }
        }
    }

    /// Parses `tokens` with the default context.
    pub fn parse_default_ctx(tables: &Tab, tokens: Vec<Token>) -> (res: Result<
        StartSymbol,
        ParseError<NonTerminal, Token, StartSymbol, Prod, Tab, Ctx>,
    >) where Ctx: Default
        ensures
            exists|ctx: Ctx|
                call_ensures(Ctx::default, (), ctx) && match res {
                    Ok(start) => (#[trigger] Self::parsed(tables, ctx, tokens@)) is Ok
                        && call_ensures(
                        <NonTerminal as Into<StartSymbol>>::into,
                        (Self::parsed(tables, ctx, tokens@)->Ok_0.0,),
                        start,
                    ),
                    Err(error) => Self::parsed(tables, ctx, tokens@) == Err::<
                        (NonTerminal, Config<NonTerminal, Token, Ctx>),
                        (Config<NonTerminal, Token, Ctx>, ParseOneError<NonTerminal, Token>),
                    >((error.parser.config(), error.parse_one_error)),
                },
    {
        let ctx = Ctx::default();
        let ghost given = ctx;
        let res = Self::parse_with_ctx(tables, ctx, tokens);
        proof {
            assert(call_ensures(Ctx::default, (), given));
            assert(match res {
                Ok(start) => (#[trigger] Self::parsed(tables, given, tokens@)) is Ok
                    && call_ensures(
                    <NonTerminal as Into<StartSymbol>>::into,
                    (Self::parsed(tables, given, tokens@)->Ok_0.0,),
                    start,
                ),
                Err(error) => Self::parsed(tables, given, tokens@) == Err::<
                    (NonTerminal, Config<NonTerminal, Token, Ctx>),
                    (Config<NonTerminal, Token, Ctx>, ParseOneError<NonTerminal, Token>),
                >((error.parser.config(), error.parse_one_error)),
            });
        }
        res
    }

    /// Parses what a lexer gave, with the context `ctx`. A lexer error ends
    /// the parse and comes back with the parser as it was then.
    pub fn lex_parse_with_ctx<LexerError>(
        tables: &Tab,
        ctx: Ctx,
        lexed: Vec<Result<Token, LexerError>>,
    ) -> (res: Result<
        StartSymbol,
        LexParseError<NonTerminal, Token, StartSymbol, Prod, Tab, Ctx, LexerError>,
    >)
        ensures
            match res {
                Ok(start) => Self::lex_parsed(tables, ctx, lexed@) is Parsed && call_ensures(
                    <NonTerminal as Into<StartSymbol>>::into,
                    (Self::lex_parsed(tables, ctx, lexed@)->Parsed_0,),
                    start,
                ),
                Err(LexParseError::ParseError(error)) => Self::lex_parsed(tables, ctx, lexed@)
                    == LexedEnding::<NonTerminal, Token, Ctx, LexerError>::ParseFailed(
                    error.parser.config(),
                    error.parse_one_error,
                ),
                Err(LexParseError::LexError(error)) => Self::lex_parsed(tables, ctx, lexed@)
                    == LexedEnding::<NonTerminal, Token, Ctx, LexerError>::LexFailed(
                    error.parser.config(),
                    error.lexer_error,
                ),
            },
    {
        let mut parser = Self::new(ctx);
        let mut steps: usize = 0;
        let ghost all = lexed@;
        let ghost tokens = lexed_tokens(all);
        let ghost start = Run::<NonTerminal, Token, Ctx> {
            config: Config::initial(ctx),
            steps: 0,
            error: None,
        };
        for item in it: lexed.into_iter()
            invariant
                it.seq() == all,
                all == lexed@,
                tokens == lexed_tokens(all),
                start == (Run::<NonTerminal, Token, Ctx> {
                    config: Config::initial(ctx),
                    steps: 0,
                    error: None,
                }),
                parser.config().wf(),
                forall|i: int| 0 <= i < it.index() ==> #[trigger] all[i] is Ok,
                Self::feed_all(tables, start, tokens, it.index() as nat) == (Run {
                    config: parser.config(),
                    steps: steps as nat,
                    error: None,
                }),
        {
            let token = match item {
                Ok(token) => token,
                Err(lexer_error) => {
                    proof {
                        lemma_first_error_skips(all, 0, it.index() as nat);
                    }
                    return Err(LexParseError::LexError(LexError::new(parser, lexer_error)));
                },
            };
            match parser.feed_token(tables, token, &mut steps) {
                Some(error) => {
                    proof {
                        let failed = Run::<NonTerminal, Token, Ctx> {
                            config: parser.config(),
                            steps: steps as nat,
                            error: Some(error),
                        };
                        assert(tokens[it.index() as int] == token);
                        assert(Self::feed_all(tables, start, tokens, (it.index() + 1) as nat)
                            == failed);
                        assert forall|i: int| 0 <= i < it.index() + 1 implies #[trigger] all[i] is Ok by {}
                        lemma_first_error_skips(all, 0, (it.index() + 1) as nat);
                        lemma_first_error_bounds(all, (it.index() + 1) as nat);
                        Self::lemma_feed_all_failed(
                            tables,
                            start,
                            tokens,
                            (it.index() + 1) as nat,
                            first_error(all, 0),
                        );
                    }
                    return Err(LexParseError::ParseError(ParseError::new(parser, error)));
                },
                None => {
                    assert(tokens[it.index() as int] == token);
                },
            }
        }
        proof {
            lemma_first_error_skips(all, 0, all.len());
        }
        match parser.finish_input(tables, &mut steps) {
            Some(error) => Err(LexParseError::ParseError(ParseError::new(parser, error))),
            None => {
                let ghost run = Run::<NonTerminal, Token, Ctx> {
                    config: parser.config(),
                    steps: steps as nat,
                    error: None,
                };
                match parser.take_result(tables, Ghost(run)) {
                    Ok(start) => Ok(start),
                    Err(error) => Err(LexParseError::ParseError(error)),
                }
            },
        }
    }

    /// Parses what a lexer gave, with the default context.
    pub fn lex_parse_default_ctx<LexerError>(
        tables: &Tab,
        lexed: Vec<Result<Token, LexerError>>,
    ) -> (res: Result<
        StartSymbol,
        LexParseError<NonTerminal, Token, StartSymbol, Prod, Tab, Ctx, LexerError>,
    >) where Ctx: Default
        ensures
            exists|ctx: Ctx|
                call_ensures(Ctx::default, (), ctx) && match res {
                    Ok(start) => (#[trigger] Self::lex_parsed(tables, ctx, lexed@)) is Parsed
                        && call_ensures(
                        <NonTerminal as Into<StartSymbol>>::into,
                        (Self::lex_parsed(tables, ctx, lexed@)->Parsed_0,),
                        start,
                    ),
                    Err(LexParseError::ParseError(error)) => Self::lex_parsed(
                        tables,
                        ctx,
                        lexed@,
                    ) == LexedEnding::<NonTerminal, Token, Ctx, LexerError>::ParseFailed(
                        error.parser.config(),
                        error.parse_one_error,
                    ),
                    Err(LexParseError::LexError(error)) => Self::lex_parsed(tables, ctx, lexed@)
                        == LexedEnding::<NonTerminal, Token, Ctx, LexerError>::LexFailed(
                        error.parser.config(),
                        error.lexer_error,
                    ),
                },
    {
        let ctx = Ctx::default();
        let ghost given = ctx;
        let res = Self::lex_parse_with_ctx(tables, ctx, lexed);
        proof {
            assert(call_ensures(Ctx::default, (), given));
            assert(match res {
                Ok(start) => (#[trigger] Self::lex_parsed(tables, given, lexed@)) is Parsed
                    && call_ensures(
                    <NonTerminal as Into<StartSymbol>>::into,
                    (Self::lex_parsed(tables, given, lexed@)->Parsed_0,),
                    start,
                ),
                Err(LexParseError::ParseError(error)) => Self::lex_parsed(tables, given, lexed@)
                    == LexedEnding::<NonTerminal, Token, Ctx, LexerError>::ParseFailed(
                    error.parser.config(),
                    error.parse_one_error,
                ),
                Err(LexParseError::LexError(error)) => Self::lex_parsed(tables, given, lexed@)
                    == LexedEnding::<NonTerminal, Token, Ctx, LexerError>::LexFailed(
                    error.parser.config(),
                    error.lexer_error,
                ),
            });
        }
        res
    }
}

impl<
    NonTerminal: Into<StartSymbol>,
    Token,
    StartSymbol,
    Prod: Reduce<NonTerminal, Token, ()>,
    Tab: Tables<NonTerminal, Token, Prod>,
> Parser<NonTerminal, Token, StartSymbol, Prod, Tab, ()> {
    /// Parses `tokens` without a context.
    pub fn parse(tables: &Tab, tokens: Vec<Token>) -> (res: Result<
        StartSymbol,
        ParseError<NonTerminal, Token, StartSymbol, Prod, Tab, ()>,
    >)
        ensures
            match res {
                Ok(start) => Self::parsed(tables, (), tokens@) is Ok && call_ensures(
                    <NonTerminal as Into<StartSymbol>>::into,
                    (Self::parsed(tables, (), tokens@)->Ok_0.0,),
                    start,
                ),
                Err(error) => Self::parsed(tables, (), tokens@) == Err::<
                    (NonTerminal, Config<NonTerminal, Token, ()>),
                    (Config<NonTerminal, Token, ()>, ParseOneError<NonTerminal, Token>),
                >((error.parser.config(), error.parse_one_error)),
            },
    {
        Self::parse_with_ctx(tables, (), tokens)
    }

    /// Parses what a lexer gave, without a context.
    pub fn lex_parse<LexerError>(tables: &Tab, lexed: Vec<Result<Token, LexerError>>) -> (res:
        Result<
            StartSymbol,
            LexParseError<NonTerminal, Token, StartSymbol, Prod, Tab, (), LexerError>,
        >)
        ensures
            match res {
                Ok(start) => Self::lex_parsed(tables, (), lexed@) is Parsed && call_ensures(
                    <NonTerminal as Into<StartSymbol>>::into,
                    (Self::lex_parsed(tables, (), lexed@)->Parsed_0,),
                    start,
                ),
                Err(LexParseError::ParseError(error)) => Self::lex_parsed(tables, (), lexed@)
                    == LexedEnding::<NonTerminal, Token, (), LexerError>::ParseFailed(
                    error.parser.config(),
                    error.parse_one_error,
                ),
                Err(LexParseError::LexError(error)) => Self::lex_parsed(tables, (), lexed@)
                    == LexedEnding::<NonTerminal, Token, (), LexerError>::LexFailed(
                    error.parser.config(),
                    error.lexer_error,
                ),
            },
    {
        Self::lex_parse_with_ctx(tables, (), lexed)
    }
}

} // verus!
