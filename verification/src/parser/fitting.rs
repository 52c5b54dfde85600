//! Generated tables fit the parser: with them a parse fails only where the
//! input is wrong, never for want of a goto or of symbols on the stack.

use crate::lalr::automaton::LalrAutomaton;
use crate::lalr::fresh_item;
use crate::parser::generated::{lemma_generated_tables_guarded, symbol_id, Indexed, LalrTables};
use crate::parser::results::{ParseEof, ParseEofError, ParseOneError, ParseToken, ParseTokenError};
use crate::parser::traits::{Reduce, Tables};
use crate::parser::{Config, Parser, Run, Symbol};
use crate::parsing::action::{Action, EofAction, TokenAction};
use crate::symbolic_grammar::{SymbolicGrammar, SymbolicSymbol};
use vstd::prelude::*;

verus! {

/// The productions behind the ids are those of `grammar`: each is as long
/// as the body of its production, and makes a payload of its head.
pub open spec fn productions_match<
    NonTerminal: Indexed,
    Token,
    Prod: Copy + Reduce<NonTerminal, Token, Ctx>,
    Ctx,
>(tables: &LalrTables<Prod>, grammar: &SymbolicGrammar) -> bool {
    &&& forall|p: int|
        0 <= p < tables.productions@.len() && p < grammar.productions@.len() ==> (
        #[trigger] tables.productions@[p]).body_len() == grammar.productions@[p].body@.len()
    &&& forall|p: int, ctx: Ctx, body: Seq<Symbol<NonTerminal, Token>>|
        0 <= p < tables.productions@.len() && p < grammar.productions@.len() ==> (
        #[trigger] tables.productions@[p].reduced(ctx, body)).1.index()
            == grammar.productions@[p].head
}

/// The symbols of the grammar that the symbols on the stack stand for.
pub open spec fn stack_symbols<NonTerminal: Indexed, Token: Indexed>(
    symbols: Seq<Symbol<NonTerminal, Token>>,
) -> Seq<SymbolicSymbol> {
    Seq::new(symbols.len(), |i: int| symbol_id(symbols[i]))
}

/// An error that the input is to blame for: a token or an end of input
/// that the state has no action for. The limit of steps counts among them.
pub open spec fn input_error<NonTerminal, Token>(error: ParseOneError<NonTerminal, Token>) -> bool {
    match error {
        ParseOneError::ParseTokenError(ParseTokenError::ActionNotFound { .. }) => true,
        ParseOneError::ParseEofError(ParseEofError::ActionNotFound) => true,
        ParseOneError::StepLimit => true,
        _ => false,
    }
}

/// Where generated tables lead, the automaton has a transition.
pub proof fn lemma_leads_is_transition<
    NonTerminal: Indexed + Into<StartSymbol>,
    Token: Indexed,
    StartSymbol,
    Prod: Copy + Reduce<NonTerminal, Token, Ctx>,
    Ctx,
>(
    tables: &LalrTables<Prod>,
    automaton: &LalrAutomaton,
    from: usize,
    symbol: Symbol<NonTerminal, Token>,
    to: usize,
)
    requires
        automaton.wf(),
        tables.generated_by(automaton),
        Parser::<NonTerminal, Token, StartSymbol, Prod, LalrTables<Prod>, Ctx>::leads(
            tables,
            from,
            symbol,
            to,
        ),
    ensures
        from < automaton.states@.len(),
        automaton.transition(from as int, symbol_id(symbol)) == Some(to),
{
    match symbol {
        Symbol::Token(token) => {
            let t = token.index();
            assert(tables.token_cell(from, t) == Some(Action::Shift(to)));
            assert(tables.actions.table@[from as int]@[t as int] == automaton.cell(
                from as int,
                t as int,
            ));
            automaton.lemma_shift_cell(from as int, t as int);
        },
        Symbol::NonTerminal(non_terminal) => {
            assert(tables.goto_cell(from, non_terminal.index()) == Some(to));
            assert(tables.gotos.table@[from as int]@
                == automaton.transitions.non_terminal_table@[from as int]@);
        },
    }
}

/// The stacks of a parser that follows generated tables are a path through
/// the automaton.
pub proof fn lemma_stack_is_path<
    NonTerminal: Indexed + Into<StartSymbol>,
    Token: Indexed,
    StartSymbol,
    Prod: Copy + Reduce<NonTerminal, Token, Ctx>,
    Ctx,
>(tables: &LalrTables<Prod>, automaton: &LalrAutomaton, config: Config<NonTerminal, Token, Ctx>)
    requires
        automaton.wf(),
        tables.generated_by(automaton),
        Parser::<NonTerminal, Token, StartSymbol, Prod, LalrTables<Prod>, Ctx>::linked(
            tables,
            config,
        ),
    ensures
        automaton.is_path(config.state_stack, stack_symbols(config.symbol_stack)),
{
    let symbols = stack_symbols(config.symbol_stack);
    assert forall|i: int| 0 <= i < symbols.len() implies automaton.transition(
        config.state_stack[i] as int,
        #[trigger] symbols[i],
    ) == Some(config.state_stack[i + 1]) && config.state_stack[i] < automaton.states@.len() by {
        assert(Parser::<NonTerminal, Token, StartSymbol, Prod, LalrTables<Prod>, Ctx>::leads(
            tables,
            config.state_stack[i],
            config.symbol_stack[i],
            config.state_stack[i + 1],
        ));
        lemma_leads_is_transition::<NonTerminal, Token, StartSymbol, Prod, Ctx>(
            tables,
            automaton,
            config.state_stack[i],
            config.symbol_stack[i],
            config.state_stack[i + 1],
        );
    }
}

/// A reduction that generated tables ask for finds its symbols on the
/// stack and its goto in the state below them.
pub proof fn lemma_reduction_fits<
    NonTerminal: Indexed + Into<StartSymbol>,
    Token: Indexed,
    StartSymbol,
    Prod: Copy + Reduce<NonTerminal, Token, Ctx>,
    Ctx,
>(
    tables: &LalrTables<Prod>,
    automaton: &LalrAutomaton,
    config: Config<NonTerminal, Token, Ctx>,
    column: int,
    production: usize,
)
    requires
        automaton.wf(),
        tables.generated_by(automaton),
        productions_match::<NonTerminal, Token, Prod, Ctx>(tables, &automaton.grammar),
        Parser::<NonTerminal, Token, StartSymbol, Prod, LalrTables<Prod>, Ctx>::linked(
            tables,
            config,
        ),
        0 <= column <= automaton.grammar.token_count,
        config.state_stack.last() < automaton.states@.len(),
        automaton.cell(config.state_stack.last() as int, column) == Some(
            Action::Reduce(production),
        ),
        production < tables.productions@.len(),
    ensures
        tables.productions@[production as int].body_len() <= config.symbol_stack.len(),
        Parser::<NonTerminal, Token, StartSymbol, Prod, LalrTables<Prod>, Ctx>::reduce_step(
            tables,
            config,
            tables.productions@[production as int],
        ).1 is None,
{
    let symbols = stack_symbols(config.symbol_stack);
    let last = config.state_stack.last() as int;
    lemma_stack_is_path::<NonTerminal, Token, StartSymbol, Prod, Ctx>(tables, automaton, config);
    let item = automaton.lemma_reduce_cell_item(last, column, production);
    automaton.lemma_path_spells_item(config.state_stack, symbols, item);
    assert(tables.productions.len() == tables.productions@.len());
    assert(automaton.grammar.production_spec(production) is Some);
    assert(production < automaton.grammar.productions@.len());
    let arity = automaton.grammar.productions@[production as int].body@.len();
    let made = tables.productions@[production as int];
    assert(made.body_len() == arity);
    let kept = config.symbol_stack.len() - arity;
    let below = config.state_stack[kept];
    automaton.lemma_path_in_range(config.state_stack, symbols, kept);
    assert(fresh_item(production as int) == crate::slr::item::SlrItem {
        production_id: item.production_id,
        marker_position: 0,
    });
    automaton.lemma_goto_exists(below as int, production as int);
    let head = automaton.grammar.productions@[production as int].head;
    let body = config.symbol_stack.subrange(kept, config.symbol_stack.len() as int);
    let payload = made.reduced(config.ctx, body).1;
    assert(payload.index() == head);
    let states = config.state_stack.subrange(0, config.state_stack.len() - arity);
    assert(states.last() == below);
    assert(tables.gotos.table@[below as int]@
        == automaton.transitions.non_terminal_table@[below as int]@);
    assert(crate::lalr::automaton::row_ok(
        &automaton.grammar,
        crate::lalr::automaton::kernel_sets(automaton.states@),
        below as int,
        automaton.transitions.token_table@[below as int]@,
        automaton.transitions.non_terminal_table@[below as int]@,
    ));
    assert(tables.goto_cell(below, head) == automaton.transition(
        below as int,
        SymbolicSymbol::NonTerminal(head),
    ));
}

impl<
    NonTerminal: Indexed + Into<StartSymbol>,
    Token: Indexed,
    StartSymbol,
    Prod: Copy + Reduce<NonTerminal, Token, Ctx>,
    Ctx,
> Parser<NonTerminal, Token, StartSymbol, Prod, LalrTables<Prod>, Ctx> {
    /// With generated tables, a step on a token fails only where the state
    /// has no action for the token.
    pub proof fn lemma_token_step_fits(
        tables: &LalrTables<Prod>,
        automaton: &LalrAutomaton,
        config: Config<NonTerminal, Token, Ctx>,
        token: Token,
    )
        requires
            automaton.wf(),
            tables.generated_by(automaton),
            productions_match::<NonTerminal, Token, Prod, Ctx>(tables, &automaton.grammar),
            Self::linked(tables, config),
        ensures
            Self::token_step(tables, config, token).1 is Err ==> Self::token_step(
                tables,
                config,
                token,
            ).1->Err_0 is ActionNotFound,
    {
        let state = config.state_stack.last();
        match <LalrTables<Prod> as Tables<NonTerminal, Token, Prod>>::token_action(
            tables,
            state,
            &token,
        ) {
            Some(TokenAction::Reduce(made)) => {
                let column = token.index();
                let production = tables.token_cell(state, column)->Some_0->Reduce_0;
                assert(tables.actions.table@[state as int]@[column as int] == automaton.cell(
                    state as int,
                    column as int,
                ));
                lemma_reduction_fits::<NonTerminal, Token, StartSymbol, Prod, Ctx>(
                    tables,
                    automaton,
                    config,
                    column as int,
                    production,
                );
            },
            _ => {},
        }
    }

    /// With generated tables, a step at the end of input fails only where
    /// the state has no action for the end of input.
    pub proof fn lemma_eof_step_fits(
        tables: &LalrTables<Prod>,
        automaton: &LalrAutomaton,
        config: Config<NonTerminal, Token, Ctx>,
    )
        requires
            automaton.wf(),
            tables.generated_by(automaton),
            productions_match::<NonTerminal, Token, Prod, Ctx>(tables, &automaton.grammar),
            Self::linked(tables, config),
        ensures
            Self::eof_step(tables, config).1 is Err ==> Self::eof_step(
                tables,
                config,
            ).1->Err_0 is ActionNotFound,
    {
        let state = config.state_stack.last();
        match <LalrTables<Prod> as Tables<NonTerminal, Token, Prod>>::eof_action(tables, state) {
            Some(EofAction::Reduce(made)) => {
                let column = automaton.grammar.token_count;
                let production = tables.eof_cell(state)->Some_0->Reduce_0;
                assert(tables.actions.table@[state as int]@[column as int] == automaton.cell(
                    state as int,
                    column as int,
                ));
                lemma_reduction_fits::<NonTerminal, Token, StartSymbol, Prod, Ctx>(
                    tables,
                    automaton,
                    config,
                    column as int,
                    production,
                );
            },
            _ => {},
        }
    }

    proof fn lemma_feed_fits(
        tables: &LalrTables<Prod>,
        automaton: &LalrAutomaton,
        config: Config<NonTerminal, Token, Ctx>,
        token: Token,
        steps: nat,
    )
        requires
            automaton.wf(),
            tables.generated_by(automaton),
            productions_match::<NonTerminal, Token, Prod, Ctx>(tables, &automaton.grammar),
            Self::linked(tables, config),
        ensures
            Self::feed(tables, config, token, steps).error is Some ==> input_error(
                Self::feed(tables, config, token, steps).error->Some_0,
            ),
        decreases usize::MAX - steps,
    {
        Self::lemma_token_step_fits(tables, automaton, config, token);
        let (next, outcome) = Self::token_step(tables, config, token);
        match outcome {
            Ok(ParseToken::Reduced { leftover_token }) => {
                if steps < usize::MAX {
                    Self::lemma_token_step_keeps_linked(tables, config, token);
                    Self::lemma_feed_fits(tables, automaton, next, leftover_token, steps + 1);
                }
            },
            _ => {},
        }
    }

    proof fn lemma_feed_all_fits(
        tables: &LalrTables<Prod>,
        automaton: &LalrAutomaton,
        start: Run<NonTerminal, Token, Ctx>,
        tokens: Seq<Token>,
        count: nat,
    )
        requires
            automaton.wf(),
            tables.generated_by(automaton),
            productions_match::<NonTerminal, Token, Prod, Ctx>(tables, &automaton.grammar),
            Self::linked(tables, start.config),
            start.error is None,
        ensures
            Self::feed_all(tables, start, tokens, count).error is Some ==> input_error(
                Self::feed_all(tables, start, tokens, count).error->Some_0,
            ),
        decreases count,
    {
        if count > 0 {
            let earlier = Self::feed_all(tables, start, tokens, (count - 1) as nat);
            Self::lemma_feed_all_fits(tables, automaton, start, tokens, (count - 1) as nat);
            if earlier.error is None {
                Self::lemma_feed_all_keeps_linked(tables, start, tokens, (count - 1) as nat);
                Self::lemma_feed_fits(
                    tables,
                    automaton,
                    earlier.config,
                    tokens[count - 1],
                    earlier.steps,
                );
            }
        }
    }

    proof fn lemma_finish_fits(
        tables: &LalrTables<Prod>,
        automaton: &LalrAutomaton,
        config: Config<NonTerminal, Token, Ctx>,
        steps: nat,
    )
        requires
            automaton.wf(),
            tables.generated_by(automaton),
            productions_match::<NonTerminal, Token, Prod, Ctx>(tables, &automaton.grammar),
            Self::linked(tables, config),
        ensures
            Self::finish(tables, config, steps).error is Some ==> input_error(
                Self::finish(tables, config, steps).error->Some_0,
            ),
        decreases usize::MAX - steps,
    {
        Self::lemma_eof_step_fits(tables, automaton, config);
        let (next, outcome) = Self::eof_step(tables, config);
        match outcome {
            Ok(ParseEof::Reduced) => {
                if steps < usize::MAX {
                    Self::lemma_eof_step_keeps_linked(tables, config);
                    Self::lemma_finish_fits(tables, automaton, next, steps + 1);
                }
            },
            _ => {},
        }
    }

    /// With the tables of a complete automaton and the productions of its
    /// grammar, a parse fails only where a state has no action for a token
    /// or for the end of input, or at the limit of steps.
    pub proof fn lemma_parse_fails_on_input_only(
        tables: &LalrTables<Prod>,
        automaton: &LalrAutomaton,
        ctx: Ctx,
        tokens: Seq<Token>,
    )
        requires
            automaton.wf(),
            tables.generated_by(automaton),
            productions_match::<NonTerminal, Token, Prod, Ctx>(tables, &automaton.grammar),
        ensures
            Self::parsed(tables, ctx, tokens) is Err ==> input_error(
                Self::parsed(tables, ctx, tokens)->Err_0.1,
            ),
    {
        let start = Run::<NonTerminal, Token, Ctx> {
            config: Config::initial(ctx),
            steps: 0,
            error: None,
        };
        Self::lemma_feed_all_fits(tables, automaton, start, tokens, tokens.len());
        let fed = Self::feed_all(tables, start, tokens, tokens.len());
        if fed.error is None {
            Self::lemma_feed_all_keeps_linked(tables, start, tokens, tokens.len());
            Self::lemma_finish_fits(tables, automaton, fed.config, fed.steps);
            let done = Self::finish(tables, fed.config, fed.steps);
            if done.error is None {
                Self::lemma_finish_keeps_linked(tables, fed.config, fed.steps);
                lemma_generated_tables_guarded::<NonTerminal, Token, StartSymbol, Prod, Ctx>(
                    tables,
                    automaton,
                );
                Self::lemma_accept_balance(tables, done.config);
            }
        }
    }
}

} // verus!
