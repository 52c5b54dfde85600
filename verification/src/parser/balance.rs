//! The stacks of a parser follow its tables, and so they are balanced when
//! the parse is accepted.

use crate::parser::results::{ParseEof, ParseToken};
use crate::parser::traits::{Reduce, Tables};
use crate::parser::{Config, Parser, Run, Symbol};
use crate::parsing::action::{EofAction, TokenAction};
use vstd::prelude::*;

verus! {

impl<
    NonTerminal: Into<StartSymbol>,
    Token,
    StartSymbol,
    Prod: Reduce<NonTerminal, Token, Ctx>,
    Tab: Tables<NonTerminal, Token, Prod>,
    Ctx,
> Parser<NonTerminal, Token, StartSymbol, Prod, Tab, Ctx> {
    /// The tables lead from `from` over `symbol` to `to`: by a shift over a
    /// token, by a goto over a non-terminal.
    pub open spec fn leads(
        tables: &Tab,
        from: usize,
        symbol: Symbol<NonTerminal, Token>,
        to: usize,
    ) -> bool {
        match symbol {
            Symbol::Token(token) => tables.token_action(from, &token) matches Some(
                TokenAction::Shift(target),
            ) && target == to,
            Symbol::NonTerminal(non_terminal) => tables.goto_target(from, &non_terminal) == Some(
                to,
            ),
        }
    }

    /// The state stack begins with state 0, and each state above is where
    /// the tables lead from the state below over the symbol between them.
    pub open spec fn linked(tables: &Tab, config: Config<NonTerminal, Token, Ctx>) -> bool {
        &&& config.wf()
        &&& config.state_stack[0] == 0
        &&& forall|i: int|
            0 <= i < config.symbol_stack.len() ==> Self::leads(
                tables,
                #[trigger] config.state_stack[i],
                config.symbol_stack[i],
                config.state_stack[i + 1],
            )
    }

    /// The tables accept at the end of input in `state`.
    pub open spec fn accepts_in(tables: &Tab, state: usize) -> bool {
        tables.eof_action(state) matches Some(EofAction::Accept)
    }

    /// Nothing leads to state 0, state 0 does not accept, and what leads to
    /// a state that accepts is a goto from state 0.
    pub open spec fn accept_guarded(tables: &Tab) -> bool {
        &&& !Self::accepts_in(tables, 0)
        &&& forall|from: usize, symbol: Symbol<NonTerminal, Token>| !#[trigger]
                Self::leads(tables, from, symbol, 0)
        &&& forall|from: usize, symbol: Symbol<NonTerminal, Token>, to: usize| #[trigger]
                Self::leads(tables, from, symbol, to) && Self::accepts_in(tables, to) ==> from == 0
                    && symbol is NonTerminal
    }

    /// Stack balance at accept: where the stacks follow the tables, the
    /// tables are guarded, and the state on top accepts, the symbol stack
    /// holds one non-terminal, and the state stack holds state 0 and the
    /// state that the goto over that non-terminal gives.
    pub proof fn lemma_accept_balance(tables: &Tab, config: Config<NonTerminal, Token, Ctx>)
        requires
            Self::linked(tables, config),
            Self::accept_guarded(tables),
            Self::accepts_in(tables, config.state_stack.last()),
        ensures
            config.symbol_stack.len() == 1,
            config.state_stack.len() == 2,
            config.symbol_stack[0] is NonTerminal,
            tables.goto_target(0, &config.symbol_stack[0]->NonTerminal_0) == Some(
                config.state_stack[1],
            ),
    {
        let depth = config.symbol_stack.len() as int;
        if depth > 0 {
            let below = config.state_stack[depth - 1];
            assert(Self::leads(
                tables,
                below,
                config.symbol_stack[depth - 1],
                config.state_stack[depth],
            ));
            if depth > 1 {
                assert(Self::leads(
                    tables,
                    config.state_stack[depth - 2],
                    config.symbol_stack[depth - 2],
                    config.state_stack[depth - 1],
                ));
            }
        }
    }

    /// Reduction accounting: a reduction that finds its goto takes as many
    /// entries off each stack as the body of the production is long, and
    /// puts one entry onto each: the head onto the symbol stack, the state
    /// of the goto onto the state stack. What lies below stays.
    pub proof fn lemma_reduction_accounting(
        tables: &Tab,
        config: Config<NonTerminal, Token, Ctx>,
        production: Prod,
    )
        requires
            config.wf(),
            production.body_len() <= config.symbol_stack.len(),
            Self::reduce_step(tables, config, production).1 is None,
        ensures
            ({
                let next = Self::reduce_step(tables, config, production).0;
                let kept = config.symbol_stack.len() - production.body_len();
                &&& next.symbol_stack.len() == kept + 1
                &&& next.state_stack.len() == kept + 2
                &&& next.symbol_stack.subrange(0, kept) == config.symbol_stack.subrange(0, kept)
                &&& next.state_stack.subrange(0, kept + 1) == config.state_stack.subrange(
                    0,
                    kept + 1,
                )
                &&& next.symbol_stack.last() is NonTerminal
                &&& tables.goto_target(
                    config.state_stack[kept],
                    &next.symbol_stack.last()->NonTerminal_0,
                ) == Some(next.state_stack.last())
            }),
    {
        let next = Self::reduce_step(tables, config, production).0;
        let kept = config.symbol_stack.len() - production.body_len();
        assert(next.symbol_stack.subrange(0, kept) =~= config.symbol_stack.subrange(0, kept));
        assert(next.state_stack.subrange(0, kept + 1) =~= config.state_stack.subrange(
            0,
            kept + 1,
        ));
    }

    /// Determinism: two parses that stand alike and are fed the same tokens
    /// stand alike after each token, with the same count of reductions and
    /// the same error, if any.
    pub proof fn lemma_repeated_parses_agree(
        tables: &Tab,
        first: Run<NonTerminal, Token, Ctx>,
        second: Run<NonTerminal, Token, Ctx>,
        tokens: Seq<Token>,
        count: nat,
    )
        requires
            first == second,
        ensures
            Self::feed_all(tables, first, tokens, count) == Self::feed_all(
                tables,
                second,
                tokens,
                count,
            ),
            Self::finish(
                tables,
                Self::feed_all(tables, first, tokens, count).config,
                Self::feed_all(tables, first, tokens, count).steps,
            ) == Self::finish(
                tables,
                Self::feed_all(tables, second, tokens, count).config,
                Self::feed_all(tables, second, tokens, count).steps,
            ),
    {
    }

    /// A reduction leaves the stacks following the tables.
    pub proof fn lemma_reduce_keeps_linked(
        tables: &Tab,
        config: Config<NonTerminal, Token, Ctx>,
        production: Prod,
    )
        requires
            Self::linked(tables, config),
            production.body_len() <= config.symbol_stack.len(),
            Self::reduce_step(tables, config, production).1 is None,
        ensures
            Self::linked(tables, Self::reduce_step(tables, config, production).0),
    {
        let next = Self::reduce_step(tables, config, production).0;
        let kept = config.symbol_stack.len() - production.body_len();
        assert forall|i: int| 0 <= i < next.symbol_stack.len() implies Self::leads(
            tables,
            #[trigger] next.state_stack[i],
            next.symbol_stack[i],
            next.state_stack[i + 1],
        ) by {
            if i < kept {
                assert(Self::leads(
                    tables,
                    config.state_stack[i],
                    config.symbol_stack[i],
                    config.state_stack[i + 1],
                ));
            }
        }
    }

    /// A step on a token leaves the stacks following the tables.
    pub proof fn lemma_token_step_keeps_linked(
        tables: &Tab,
        config: Config<NonTerminal, Token, Ctx>,
        token: Token,
    )
        requires
            Self::linked(tables, config),
            Self::token_step(tables, config, token).1 is Ok,
        ensures
            Self::linked(tables, Self::token_step(tables, config, token).0),
    {
        let next = Self::token_step(tables, config, token).0;
        match tables.token_action(config.state_stack.last(), &token) {
            Some(TokenAction::Shift(new_state)) => {
                assert forall|i: int| 0 <= i < next.symbol_stack.len() implies Self::leads(
                    tables,
                    #[trigger] next.state_stack[i],
                    next.symbol_stack[i],
                    next.state_stack[i + 1],
                ) by {
                    if i < config.symbol_stack.len() {
                        assert(Self::leads(
                            tables,
                            config.state_stack[i],
                            config.symbol_stack[i],
                            config.state_stack[i + 1],
                        ));
                    }
                }
            },
            Some(TokenAction::Reduce(production)) => {
                Self::lemma_reduce_keeps_linked(tables, config, production);
            },
            None => {},
        }
    }

    /// A step at the end of input leaves the stacks following the tables.
    pub proof fn lemma_eof_step_keeps_linked(tables: &Tab, config: Config<NonTerminal, Token, Ctx>)
        requires
            Self::linked(tables, config),
            Self::eof_step(tables, config).1 is Ok,
        ensures
            Self::linked(tables, Self::eof_step(tables, config).0),
    {
        match tables.eof_action(config.state_stack.last()) {
            Some(EofAction::Reduce(production)) => {
                Self::lemma_reduce_keeps_linked(tables, config, production);
            },
            _ => {},
        }
    }

    pub proof fn lemma_feed_keeps_linked(
        tables: &Tab,
        config: Config<NonTerminal, Token, Ctx>,
        token: Token,
        steps: nat,
    )
        requires
            Self::linked(tables, config),
            Self::feed(tables, config, token, steps).error is None,
        ensures
            Self::linked(tables, Self::feed(tables, config, token, steps).config),
        decreases usize::MAX - steps,
    {
        let (next, outcome) = Self::token_step(tables, config, token);
        match outcome {
            Ok(ParseToken::Shifted) => {
                Self::lemma_token_step_keeps_linked(tables, config, token);
            },
            Ok(ParseToken::Reduced { leftover_token }) => {
                Self::lemma_token_step_keeps_linked(tables, config, token);
                if steps < usize::MAX {
                    Self::lemma_feed_keeps_linked(tables, next, leftover_token, steps + 1);
                }
            },
            Err(_) => {},
        }
    }

    pub proof fn lemma_feed_all_keeps_linked(
        tables: &Tab,
        start: Run<NonTerminal, Token, Ctx>,
        tokens: Seq<Token>,
        count: nat,
    )
        requires
            Self::linked(tables, start.config),
            start.error is None,
            Self::feed_all(tables, start, tokens, count).error is None,
        ensures
            Self::linked(tables, Self::feed_all(tables, start, tokens, count).config),
        decreases count,
    {
        if count > 0 {
            let earlier = Self::feed_all(tables, start, tokens, (count - 1) as nat);
            if earlier.error is None {
                Self::lemma_feed_all_keeps_linked(tables, start, tokens, (count - 1) as nat);
                Self::lemma_feed_keeps_linked(
                    tables,
                    earlier.config,
                    tokens[count - 1],
                    earlier.steps,
                );
            }
        }
    }

    /// Where the end of input was offered until acceptance, the stacks
    /// follow the tables and the state on top accepts.
    pub proof fn lemma_finish_keeps_linked(
        tables: &Tab,
        config: Config<NonTerminal, Token, Ctx>,
        steps: nat,
    )
        requires
            Self::linked(tables, config),
            Self::finish(tables, config, steps).error is None,
        ensures
            Self::linked(tables, Self::finish(tables, config, steps).config),
            Self::accepts_in(tables, Self::finish(tables, config, steps).config.state_stack.last()),
        decreases usize::MAX - steps,
    {
        let (next, outcome) = Self::eof_step(tables, config);
        match outcome {
            Ok(ParseEof::Accepted) => {},
            Ok(ParseEof::Reduced) => {
                Self::lemma_eof_step_keeps_linked(tables, config);
                if steps < usize::MAX {
                    Self::lemma_finish_keeps_linked(tables, next, steps + 1);
                }
            },
            Err(_) => {},
        }
    }

    /// Stack balance of a whole parse: with guarded tables, a parse that
    /// succeeds ends with one non-terminal on the symbol stack, which is the
    /// result, and with two states: state 0 and the state that the goto from
    /// state 0 over the result gives.
    pub proof fn lemma_parsed_balance(tables: &Tab, ctx: Ctx, tokens: Seq<Token>)
        requires
            Self::accept_guarded(tables),
            Self::parsed(tables, ctx, tokens) is Ok,
        ensures
            Self::parsed(tables, ctx, tokens)->Ok_0.1.symbol_stack.len() == 0,
            Self::parsed(tables, ctx, tokens)->Ok_0.1.state_stack.len() == 2,
            Self::parsed(tables, ctx, tokens)->Ok_0.1.state_stack[0] == 0,
            tables.goto_target(0, &Self::parsed(tables, ctx, tokens)->Ok_0.0) == Some(
                Self::parsed(tables, ctx, tokens)->Ok_0.1.state_stack[1],
            ),
    {
        let start = Run::<NonTerminal, Token, Ctx> {
            config: Config::initial(ctx),
            steps: 0,
            error: None,
        };
        let fed = Self::feed_all(tables, start, tokens, tokens.len());
        Self::lemma_feed_all_keeps_linked(tables, start, tokens, tokens.len());
        let done = Self::finish(tables, fed.config, fed.steps);
        Self::lemma_finish_keeps_linked(tables, fed.config, fed.steps);
        Self::lemma_accept_balance(tables, done.config);
    }
}

} // verus!
