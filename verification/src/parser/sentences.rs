//! A parse with generated tables accepts sentences of the grammar only: the
//! symbols on the stack derive, one after another, the tokens that were
//! shifted.

use crate::lalr::automaton::LalrAutomaton;
use crate::parser::fitting::{
    lemma_reduction_fits, lemma_stack_is_path, productions_match, stack_symbols,
};
use crate::parser::generated::{lemma_generated_tables_guarded, Indexed, LalrTables};
use crate::parser::results::{ParseEof, ParseToken};
use crate::parser::traits::{Reduce, Tables};
use crate::parser::{Config, Parser, Run};
use crate::parsing::action::{Action, EofAction, TokenAction};
use crate::symbolic_grammar::{SymbolicGrammar, SymbolicSymbol, SymbolicToken};
use vstd::prelude::*;
use vstd::seq_lib::lemma_flatten_concat;

verus! {

/// The ids of the tokens.
pub open spec fn token_ids<Token: Indexed>(tokens: Seq<Token>) -> Seq<SymbolicToken> {
    Seq::new(tokens.len(), |i: int| tokens[i].index())
}

/// The symbols derive the words of `parts`, one each, which together are
/// `word`.
pub open spec fn spells(
    grammar: &SymbolicGrammar,
    symbols: Seq<SymbolicSymbol>,
    parts: Seq<Seq<SymbolicToken>>,
    word: Seq<SymbolicToken>,
) -> bool {
    &&& parts.len() == symbols.len()
    &&& parts.flatten() == word
    &&& forall|i: int| 0 <= i < symbols.len() ==> grammar.derives(symbols[i], #[trigger] parts[i])
}

/// The symbols on the stack derive `word`.
pub open spec fn stack_spells<NonTerminal: Indexed, Token: Indexed, Ctx>(
    grammar: &SymbolicGrammar,
    config: Config<NonTerminal, Token, Ctx>,
    word: Seq<SymbolicToken>,
) -> bool {
    exists|parts: Seq<Seq<SymbolicToken>>| #[trigger]
        spells(grammar, stack_symbols(config.symbol_stack), parts, word)
}

impl<
    NonTerminal: Indexed + Into<StartSymbol>,
    Token: Indexed,
    StartSymbol,
    Prod: Copy + Reduce<NonTerminal, Token, Ctx>,
    Ctx,
> Parser<NonTerminal, Token, StartSymbol, Prod, LalrTables<Prod>, Ctx> {
    /// A reduction leaves the word that the stack derives as it is.
    proof fn lemma_reduction_spells(
        tables: &LalrTables<Prod>,
        automaton: &LalrAutomaton,
        config: Config<NonTerminal, Token, Ctx>,
        column: int,
        production: usize,
        word: Seq<SymbolicToken>,
    )
        requires
            automaton.wf(),
            tables.generated_by(automaton),
            productions_match::<NonTerminal, Token, Prod, Ctx>(tables, &automaton.grammar),
            Self::linked(tables, config),
            0 <= column <= automaton.grammar.token_count,
            config.state_stack.last() < automaton.states@.len(),
            automaton.cell(config.state_stack.last() as int, column) == Some(
                Action::Reduce(production),
            ),
            production < tables.productions@.len(),
            stack_spells(&automaton.grammar, config, word),
        ensures
            stack_spells(
                &automaton.grammar,
                Self::reduce_step(tables, config, tables.productions@[production as int]).0,
                word,
            ),
    {
        let grammar = &automaton.grammar;
        let symbols = stack_symbols(config.symbol_stack);
        let parts = choose|parts: Seq<Seq<SymbolicToken>>| #[trigger]
            spells(grammar, symbols, parts, word);
        lemma_reduction_fits::<NonTerminal, Token, StartSymbol, Prod, Ctx>(
            tables,
            automaton,
            config,
            column,
            production,
        );
        lemma_stack_is_path::<NonTerminal, Token, StartSymbol, Prod, Ctx>(tables, automaton, config);
        let item = automaton.lemma_reduce_cell_item(
            config.state_stack.last() as int,
            column,
            production,
        );
        automaton.lemma_path_spells_item(config.state_stack, symbols, item);
        assert(tables.productions.len() == tables.productions@.len());
        assert(production < grammar.productions@.len());
        let made = tables.productions@[production as int];
        let body = grammar.body_at(production as int);
        let arity = body.len() as int;
        let kept = config.symbol_stack.len() - arity;
        let below = parts.subrange(0, kept);
        let popped = parts.subrange(kept, parts.len() as int);
        assert forall|i: int| 0 <= i < popped.len() implies grammar.derives(
            body[i],
            #[trigger] popped[i],
        ) by {
            assert(symbols[symbols.len() - item.marker_position + i] == item.body(grammar)[i]);
            assert(popped[i] == parts[kept + i]);
        }
        grammar.lemma_production_derives(production as int, popped);
        let head = grammar.productions@[production as int].head;
        let next = Self::reduce_step(tables, config, made).0;
        let next_parts = below.push(popped.flatten());
        let next_symbols = stack_symbols(next.symbol_stack);
        assert(parts =~= below + popped);
        lemma_flatten_concat(below, popped);
        below.lemma_flatten_push(popped.flatten());
        assert(next_parts.flatten() =~= word);
        let taken = config.symbol_stack.subrange(kept, config.symbol_stack.len() as int);
        let payload = made.reduced(config.ctx, taken).1;
        assert(payload.index() == head);
        assert forall|i: int| 0 <= i < next_symbols.len() implies grammar.derives(
            next_symbols[i],
            #[trigger] next_parts[i],
        ) by {
            if i < kept {
                assert(next_symbols[i] == symbols[i]);
                assert(next_parts[i] == parts[i]);
            } else {
                assert(next_symbols[i] == SymbolicSymbol::NonTerminal(head));
            }
        }
        assert(spells(grammar, next_symbols, next_parts, word));
    }

    /// A step on a token that does not fail leaves the word that the stack
    /// derives as it is where it reduces, and appends the token where it
    /// shifts.
    proof fn lemma_token_step_spells(
        tables: &LalrTables<Prod>,
        automaton: &LalrAutomaton,
        config: Config<NonTerminal, Token, Ctx>,
        token: Token,
        word: Seq<SymbolicToken>,
    )
        requires
            automaton.wf(),
            tables.generated_by(automaton),
            productions_match::<NonTerminal, Token, Prod, Ctx>(tables, &automaton.grammar),
            Self::linked(tables, config),
            stack_spells(&automaton.grammar, config, word),
            Self::token_step(tables, config, token).1 is Ok,
        ensures
            stack_spells(
                &automaton.grammar,
                Self::token_step(tables, config, token).0,
                if Self::token_step(tables, config, token).1->Ok_0 is Shifted {
                    word.push(token.index())
                } else {
                    word
                },
            ),
            Self::token_step(tables, config, token).1->Ok_0 is Reduced ==> Self::token_step(
                tables,
                config,
                token,
            ).1->Ok_0->leftover_token == token,
    {
        let grammar = &automaton.grammar;
        let state = config.state_stack.last();
        let next = Self::token_step(tables, config, token).0;
        match <LalrTables<Prod> as Tables<NonTerminal, Token, Prod>>::token_action(
            tables,
            state,
            &token,
        ) {
            Some(TokenAction::Shift(_)) => {
                let symbols = stack_symbols(config.symbol_stack);
                let parts = choose|parts: Seq<Seq<SymbolicToken>>| #[trigger]
                    spells(grammar, symbols, parts, word);
                let more = parts.push(seq![token.index()]);
                let next_symbols = stack_symbols(next.symbol_stack);
                parts.lemma_flatten_push(seq![token.index()]);
                assert(more.flatten() =~= word.push(token.index()));
                assert forall|i: int| 0 <= i < next_symbols.len() implies grammar.derives(
                    next_symbols[i],
                    #[trigger] more[i],
                ) by {
                    if i < symbols.len() {
                        assert(next_symbols[i] == symbols[i]);
                        assert(more[i] == parts[i]);
                    } else {
                        assert(next_symbols[i] == SymbolicSymbol::Token(token.index()));
                        assert(grammar.derives_within(next_symbols[i], more[i], 0));
                    }
                }
                assert(spells(grammar, next_symbols, more, word.push(token.index())));
            },
            Some(TokenAction::Reduce(made)) => {
                let column = token.index();
                let production = tables.token_cell(state, column)->Some_0->Reduce_0;
                assert(tables.actions.table@[state as int]@[column as int] == automaton.cell(
                    state as int,
                    column as int,
                ));
                Self::lemma_reduction_spells(
                    tables,
                    automaton,
                    config,
                    column as int,
                    production,
                    word,
                );
            },
            None => {},
        }
    }

    /// A step at the end of input that does not fail leaves the word that
    /// the stack derives as it is.
    proof fn lemma_eof_step_spells(
        tables: &LalrTables<Prod>,
        automaton: &LalrAutomaton,
        config: Config<NonTerminal, Token, Ctx>,
        word: Seq<SymbolicToken>,
    )
        requires
            automaton.wf(),
            tables.generated_by(automaton),
            productions_match::<NonTerminal, Token, Prod, Ctx>(tables, &automaton.grammar),
            Self::linked(tables, config),
            stack_spells(&automaton.grammar, config, word),
            Self::eof_step(tables, config).1 is Ok,
        ensures
            stack_spells(&automaton.grammar, Self::eof_step(tables, config).0, word),
    {
        let state = config.state_stack.last();
        match <LalrTables<Prod> as Tables<NonTerminal, Token, Prod>>::eof_action(tables, state) {
            Some(EofAction::Reduce(made)) => {
                let column = automaton.grammar.token_count;
                let production = tables.eof_cell(state)->Some_0->Reduce_0;
                assert(tables.actions.table@[state as int]@[column as int] == automaton.cell(
                    state as int,
                    column as int,
                ));
                Self::lemma_reduction_spells(
                    tables,
                    automaton,
                    config,
                    column as int,
                    production,
                    word,
                );
            },
            _ => {},
        }
    }

    proof fn lemma_feed_spells(
        tables: &LalrTables<Prod>,
        automaton: &LalrAutomaton,
        config: Config<NonTerminal, Token, Ctx>,
        token: Token,
        steps: nat,
        word: Seq<SymbolicToken>,
    )
        requires
            automaton.wf(),
            tables.generated_by(automaton),
            productions_match::<NonTerminal, Token, Prod, Ctx>(tables, &automaton.grammar),
            Self::linked(tables, config),
            stack_spells(&automaton.grammar, config, word),
            Self::feed(tables, config, token, steps).error is None,
        ensures
            stack_spells(
                &automaton.grammar,
                Self::feed(tables, config, token, steps).config,
                word.push(token.index()),
            ),
        decreases usize::MAX - steps,
    {
        let (next, outcome) = Self::token_step(tables, config, token);
        Self::lemma_token_step_spells(tables, automaton, config, token, word);
        match outcome {
            Ok(ParseToken::Reduced { leftover_token }) => {
                if steps < usize::MAX {
                    Self::lemma_token_step_keeps_linked(tables, config, token);
                    Self::lemma_feed_spells(tables, automaton, next, leftover_token, steps + 1, word);
                }
            },
            _ => {},
        }
    }

    proof fn lemma_feed_all_spells(
        tables: &LalrTables<Prod>,
        automaton: &LalrAutomaton,
        start: Run<NonTerminal, Token, Ctx>,
        tokens: Seq<Token>,
        count: nat,
    )
        requires
            automaton.wf(),
            tables.generated_by(automaton),
            productions_match::<NonTerminal, Token, Prod, Ctx>(tables, &automaton.grammar),
            Self::linked(tables, start.config),
            start.error is None,
            stack_spells(&automaton.grammar, start.config, Seq::empty()),
            count <= tokens.len(),
            Self::feed_all(tables, start, tokens, count).error is None,
        ensures
            stack_spells(
                &automaton.grammar,
                Self::feed_all(tables, start, tokens, count).config,
                token_ids(tokens).take(count as int),
            ),
        decreases count,
    {
        if count == 0 {
            assert(token_ids(tokens).take(0) =~= Seq::empty());
        } else {
            let earlier = Self::feed_all(tables, start, tokens, (count - 1) as nat);
            assert(earlier.error is None);
            Self::lemma_feed_all_spells(tables, automaton, start, tokens, (count - 1) as nat);
            Self::lemma_feed_all_keeps_linked(tables, start, tokens, (count - 1) as nat);
            Self::lemma_feed_spells(
                tables,
                automaton,
                earlier.config,
                tokens[count - 1],
                earlier.steps,
                token_ids(tokens).take(count - 1),
            );
            assert(token_ids(tokens).take(count - 1).push(tokens[count - 1].index())
                =~= token_ids(tokens).take(count as int));
        }
    }

    proof fn lemma_finish_spells(
        tables: &LalrTables<Prod>,
        automaton: &LalrAutomaton,
        config: Config<NonTerminal, Token, Ctx>,
        steps: nat,
        word: Seq<SymbolicToken>,
    )
        requires
            automaton.wf(),
            tables.generated_by(automaton),
            productions_match::<NonTerminal, Token, Prod, Ctx>(tables, &automaton.grammar),
            Self::linked(tables, config),
            stack_spells(&automaton.grammar, config, word),
            Self::finish(tables, config, steps).error is None,
        ensures
            stack_spells(&automaton.grammar, Self::finish(tables, config, steps).config, word),
        decreases usize::MAX - steps,
    {
        let (next, outcome) = Self::eof_step(tables, config);
        match outcome {
            Ok(ParseEof::Reduced) => {
                Self::lemma_eof_step_spells(tables, automaton, config, word);
                if steps < usize::MAX {
                    Self::lemma_eof_step_keeps_linked(tables, config);
                    Self::lemma_finish_spells(tables, automaton, next, steps + 1, word);
                }
            },
            _ => {},
        }
    }

    /// With the tables of a complete automaton and the productions of its
    /// grammar, a parse that succeeds has read a sentence of the grammar:
    /// the start symbol derives the tokens, and the result is a payload of
    /// the start symbol.
    pub proof fn lemma_parse_accepts_sentences(
        tables: &LalrTables<Prod>,
        automaton: &LalrAutomaton,
        ctx: Ctx,
        tokens: Seq<Token>,
    )
        requires
            automaton.wf(),
            tables.generated_by(automaton),
            productions_match::<NonTerminal, Token, Prod, Ctx>(tables, &automaton.grammar),
            Self::parsed(tables, ctx, tokens) is Ok,
        ensures
            Self::parsed(tables, ctx, tokens)->Ok_0.0.index() == automaton.grammar.start_symbol,
            automaton.grammar.derives(
                SymbolicSymbol::NonTerminal(automaton.grammar.start_symbol),
                token_ids(tokens),
            ),
    {
        let grammar = &automaton.grammar;
        let start = Run::<NonTerminal, Token, Ctx> {
            config: Config::initial(ctx),
            steps: 0,
            error: None,
        };
        let none = Seq::<Seq<SymbolicToken>>::empty();
        assert(stack_symbols(start.config.symbol_stack) =~= Seq::<SymbolicSymbol>::empty());
        assert(none.flatten() =~= Seq::<SymbolicToken>::empty());
        assert(spells(grammar, stack_symbols(start.config.symbol_stack), none, Seq::empty()));
        let fed = Self::feed_all(tables, start, tokens, tokens.len());
        Self::lemma_feed_all_spells(tables, automaton, start, tokens, tokens.len());
        Self::lemma_feed_all_keeps_linked(tables, start, tokens, tokens.len());
        assert(token_ids(tokens).take(tokens.len() as int) =~= token_ids(tokens));
        let done = Self::finish(tables, fed.config, fed.steps);
        Self::lemma_finish_spells(tables, automaton, fed.config, fed.steps, token_ids(tokens));
        Self::lemma_finish_keeps_linked(tables, fed.config, fed.steps);
        lemma_generated_tables_guarded::<NonTerminal, Token, StartSymbol, Prod, Ctx>(
            tables,
            automaton,
        );
        Self::lemma_accept_balance(tables, done.config);
        let symbols = stack_symbols(done.config.symbol_stack);
        let parts = choose|parts: Seq<Seq<SymbolicToken>>| #[trigger]
            spells(grammar, symbols, parts, token_ids(tokens));
        parts.lemma_flatten_one_element();
        let result = done.config.symbol_stack[0]->NonTerminal_0;
        assert(symbols[0] == SymbolicSymbol::NonTerminal(result.index()));
        assert(tables.goto_cell(0, result.index()) == Some(done.config.state_stack[1]));
        assert(tables.eof_cell(done.config.state_stack[1]) == Some(Action::Accept));
        assert(grammar.derives(symbols[0], parts[0]));
        assert(parts[0] == parts.first());
    }
}

} // verus!
