//! Tables as the generator makes them, ready for a parser.

use crate::lalr::automaton::LalrAutomaton;
use crate::parser::traits::{Reduce, Tables};
use crate::parser::{Parser, Symbol};
use crate::parsing::action::{Action, EofAction, TokenAction};
use crate::parsing::tables::{ActionTable, Conflict, GoToTable};
use crate::symbolic_grammar::SymbolicSymbol;
use vstd::prelude::*;

verus! {

/// A payload that knows the id of its terminal or non-terminal.
pub trait Indexed {
    spec fn index(&self) -> usize;

    fn id(&self) -> (id: usize)
        ensures
            id == self.index(),
    ;
}

/// A payload that is its own id.
impl Indexed for usize {
    open spec fn index(&self) -> usize {
        *self
    }

    fn id(&self) -> (id: usize) {
        *self
    }
}

/// Action and goto tables over ids, the production behind each production
/// id, and the name of each terminal.
pub struct LalrTables<Prod> {
    pub actions: ActionTable,
    pub gotos: GoToTable,
    pub productions: Vec<Prod>,
    pub token_names: Vec<String>,
}

impl<Prod: Copy> LalrTables<Prod> {
    /// The cell of `state` and the terminal `token`, if the table has it.
    pub open spec fn token_cell(&self, state: usize, token: usize) -> Option<Action> {
        if state < self.actions.table@.len() && token < self.actions.tokens_count && token
            < self.actions.table@[state as int]@.len() {
            self.actions.table@[state as int]@[token as int]
        } else {
            None
        }
    }

    /// The cell of `state` and the end of input, if the table has it.
    pub open spec fn eof_cell(&self, state: usize) -> Option<Action> {
        if state < self.actions.table@.len() && self.actions.tokens_count
            < self.actions.table@[state as int]@.len() {
            self.actions.table@[state as int]@[self.actions.tokens_count as int]
        } else {
            None
        }
    }

    /// The cell of `state` and `non_terminal`, if the table has it.
    pub open spec fn goto_cell(&self, state: usize, non_terminal: usize) -> Option<usize> {
        if state < self.gotos.table@.len() && non_terminal < self.gotos.table@[state as int]@.len() {
            self.gotos.table@[state as int]@[non_terminal as int]
        } else {
            None
        }
    }

    pub fn new(
        actions: ActionTable,
        gotos: GoToTable,
        productions: Vec<Prod>,
        token_names: Vec<String>,
    ) -> (tables: Self)
        ensures
            tables.actions == actions,
            tables.gotos == gotos,
            tables.productions == productions,
            tables.token_names == token_names,
    {
        Self { actions, gotos, productions, token_names }
    }

    /// The action of `state` on the terminal with id `token`.
    pub fn query_token(&self, state: usize, token: usize) -> (action: Option<Action>)
        ensures
            action == self.token_cell(state, token),
    {
        if state < self.actions.table.len() && token < self.actions.tokens_count && token
            < self.actions.table[state].len() {
            self.actions.table[state][token]
        } else {
            None
        }
    }

    /// The action of `state` at the end of input.
    pub fn query_eof(&self, state: usize) -> (action: Option<Action>)
        ensures
            action == self.eof_cell(state),
    {
        if state < self.actions.table.len() && self.actions.tokens_count
            < self.actions.table[state].len() {
            self.actions.table[state][self.actions.tokens_count]
        } else {
            None
        }
    }

    /// The state to go to from `state` over the non-terminal with id
    /// `non_terminal`.
    pub fn query_goto(&self, state: usize, non_terminal: usize) -> (target: Option<usize>)
        ensures
            target == self.goto_cell(state, non_terminal),
    {
        if state < self.gotos.table.len() && non_terminal < self.gotos.table[state].len() {
            self.gotos.table[state][non_terminal]
        } else {
            None
        }
    }

    /// The terminals below `upto` that `state` has an action for, in
    /// increasing order.
    pub open spec fn expected(&self, state: usize, upto: nat) -> Seq<usize>
        decreases upto,
    {
        if upto == 0 {
            Seq::empty()
        } else {
            let earlier = self.expected(state, (upto - 1) as nat);
            if self.token_cell(state, (upto - 1) as usize) is Some {
                earlier.push((upto - 1) as usize)
            } else {
                earlier
            }
        }
    }

    /// The names of the first `upto` of `tokens` that have a name.
    pub open spec fn named(&self, tokens: Seq<usize>, upto: nat) -> Seq<Seq<char>>
        decreases upto,
    {
        if upto == 0 {
            Seq::empty()
        } else if tokens[upto - 1] < self.token_names@.len() {
            self.named(tokens, (upto - 1) as nat).push(
                self.token_names@[tokens[upto - 1] as int]@,
            )
        } else {
            self.named(tokens, (upto - 1) as nat)
        }
    }

    /// The names of the terminals that `state` has an action for, in the
    /// order of their ids. A terminal without a name is passed over.
    pub open spec fn expected_names(&self, state: usize) -> Seq<Seq<char>> {
        self.named(
            self.expected(state, self.actions.tokens_count as nat),
            self.expected(state, self.actions.tokens_count as nat).len(),
        )
    }

    /// The names of the expected terminals that have one, in the order of
    /// their ids.
    pub fn names_in_state(&self, current_state: usize) -> (names: Vec<String>)
        ensures
            crate::render::views(names@) == self.expected_names(current_state),
    {
        let tokens = self.expected_tokens(current_state);
        let mut names: Vec<String> = Vec::new();
        let mut i: usize = 0;
        assert(crate::render::views(names@) =~= self.named(tokens@, 0));
        while i < tokens.len()
            invariant
                i <= tokens@.len(),
                crate::render::views(names@) == self.named(tokens@, i as nat),
            decreases tokens@.len() - i,
        {
            if tokens[i] < self.token_names.len() {
                let ghost before = names@;
                let name = self.token_names[tokens[i]].clone();
                names.push(name);
                assert(crate::render::views(names@) =~= crate::render::views(before).push(
                    name@,
                ));
            }
            i += 1;
        }
        names
    }

    /// The ids of the terminals that `state` has an action for, in
    /// increasing order.
    pub fn expected_tokens(&self, state: usize) -> (tokens: Vec<usize>)
        ensures
            tokens@ == self.expected(state, self.actions.tokens_count as nat),
    {
        let mut tokens: Vec<usize> = Vec::new();
        let mut token: usize = 0;
        while token < self.actions.tokens_count
            invariant
                token <= self.actions.tokens_count,
                tokens@ == self.expected(state, token as nat),
            decreases self.actions.tokens_count - token,
        {
            if self.query_token(state, token).is_some() {
                tokens.push(token);
            }
            token += 1;
        }
        tokens
    }
}

impl<NonTerminal: Indexed, Token: Indexed, Prod: Copy> Tables<
    NonTerminal,
    Token,
    Prod,
> for LalrTables<Prod> {
    /// A shift as the table has it; a reduction by the production behind
    /// the id in the table. A cell that accepts, or names no production, is
    /// none.
    open spec fn token_action(&self, state: usize, token: &Token) -> Option<TokenAction<Prod>> {
        match self.token_cell(state, token.index()) {
            Some(Action::Shift(target)) => Some(TokenAction::Shift(target)),
            Some(Action::Reduce(production)) => if production < self.productions@.len() {
                Some(TokenAction::Reduce(self.productions@[production as int]))
            } else {
                None
            },
            _ => None,
        }
    }

    /// Acceptance as the table has it; a reduction by the production behind
    /// the id in the table. A cell that shifts, or names no production, is
    /// none.
    open spec fn eof_action(&self, state: usize) -> Option<EofAction<Prod>> {
        match self.eof_cell(state) {
            Some(Action::Accept) => Some(EofAction::Accept),
            Some(Action::Reduce(production)) => if production < self.productions@.len() {
                Some(EofAction::Reduce(self.productions@[production as int]))
            } else {
                None
            },
            _ => None,
        }
    }

    open spec fn goto_target(&self, state: usize, non_terminal: &NonTerminal) -> Option<usize> {
        self.goto_cell(state, non_terminal.index())
    }

    /// The names of the terminals that the action table has an action for
    /// in `state`, in the order of their ids. A terminal without a name is
    /// passed over.
    open spec fn names_in(&self, state: usize) -> Seq<Seq<char>> {
        self.expected_names(state)
    }

    fn query_token_table(&self, current_state: usize, current_token: &Token) -> (action: Option<
        TokenAction<Prod>,
    >) {
        match self.query_token(current_state, current_token.id()) {
            Some(Action::Shift(target)) => Some(TokenAction::Shift(target)),
            Some(Action::Reduce(production)) => {
                if production < self.productions.len() {
                    Some(TokenAction::Reduce(self.productions[production]))
                } else {
                    None
                }
            },
            _ => None,
        }
    }

    fn query_eof_table(&self, current_state: usize) -> (action: Option<EofAction<Prod>>) {
        match self.query_eof(current_state) {
            Some(Action::Accept) => Some(EofAction::Accept),
            Some(Action::Reduce(production)) => {
                if production < self.productions.len() {
                    Some(EofAction::Reduce(self.productions[production]))
                } else {
                    None
                }
            },
            _ => None,
        }
    }

    fn query_goto_table(&self, current_state: usize, non_terminal: &NonTerminal) -> (target:
        Option<usize>) {
        self.query_goto(current_state, non_terminal.id())
    }

    /// The names of the expected terminals that have one, in the order of
    /// their ids.
    fn tokens_in_state(&self, current_state: usize) -> (names: Vec<String>) {
        let names = self.names_in_state(current_state);
        proof {
            let shown = crate::render::views(names@);
            assert(shown.len() == names@.len());
            assert forall|i: int| 0 <= i < names@.len() implies (#[trigger] names@[i])@
                == self.expected_names(current_state)[i] by {
                assert(shown[i] == names@[i]@);
            }
        }
        names
    }
}

impl<Prod: Copy> LalrTables<Prod> {
    /// The tables are those of `automaton`: the action table holds in each
    /// cell what the automaton puts there, and the goto table holds the
    /// transitions over non-terminals.
    pub open spec fn generated_by(&self, automaton: &LalrAutomaton) -> bool {
        &&& self.actions.wf()
        &&& self.actions.tokens_count == automaton.grammar.token_count
        &&& self.actions.table@.len() == automaton.states@.len()
        &&& forall|state: int, column: int|
            0 <= state < automaton.states@.len() && 0 <= column <= automaton.grammar.token_count
                ==> #[trigger] self.actions.table@[state]@[column] == automaton.cell(state, column)
        &&& self.gotos.wf()
        &&& self.gotos.non_terminals_count == automaton.grammar.non_terminal_count
        &&& self.gotos.table@.len() == automaton.states@.len()
        &&& forall|state: int|
            0 <= state < automaton.states@.len() ==> (#[trigger] self.gotos.table@[state])@
                == automaton.transitions.non_terminal_table@[state]@
    }

    /// The tables of `automaton`, with the production behind each production
    /// id and the name of each terminal, and the conflicts met on the way.
    pub fn generate(
        automaton: &LalrAutomaton,
        productions: Vec<Prod>,
        token_names: Vec<String>,
    ) -> (made: (Self, Vec<Conflict>))
        requires
            automaton.wf(),
            automaton.grammar.token_count < usize::MAX,
        ensures
            made.0.generated_by(automaton),
            made.0.productions == productions,
            made.0.token_names == token_names,
            made.1@ == automaton.action_rows(automaton.states@.len()).conflicts,
    {
        let (actions, gotos, conflicts) = automaton.generate_tables();
        (Self { actions, gotos, productions, token_names }, conflicts)
    }
}

/// The tables of a complete automaton are guarded, and what leads from
/// state 0 to a state that accepts is the goto over the start symbol.
pub proof fn lemma_generated_tables_guarded<
    NonTerminal: Indexed + Into<StartSymbol>,
    Token: Indexed,
    StartSymbol,
    Prod: Copy + Reduce<NonTerminal, Token, Ctx>,
    Ctx,
>(tables: &LalrTables<Prod>, automaton: &LalrAutomaton)
    requires
        automaton.wf(),
        tables.generated_by(automaton),
    ensures
        Parser::<
            NonTerminal,
            Token,
            StartSymbol,
            Prod,
            LalrTables<Prod>,
            Ctx,
        >::accept_guarded(tables),
        forall|non_terminal: NonTerminal, to: usize|
            #![trigger tables.goto_cell(0, non_terminal.index()), tables.eof_cell(to)]
            tables.goto_cell(0, non_terminal.index()) == Some(to) && tables.eof_cell(to) == Some(
                Action::Accept,
            ) ==> non_terminal.index() == automaton.grammar.start_symbol,
{
    assert forall|state: usize| tables.eof_cell(state) == Some(Action::Accept) implies state != 0
        && state < automaton.states@.len() && crate::lalr::core_set(
        automaton.states@[state as int].kernel@,
    ).contains(crate::lalr::cells::accepting_item()) by {
        assert(tables.actions.table@[state as int]@[automaton.grammar.token_count as int]
            == automaton.cell(state as int, automaton.grammar.token_count as int));
        automaton.lemma_accept_cell(state as int);
    }
    assert forall|from: usize, token: usize| (#[trigger] tables.token_cell(from, token)) is Some
        && tables.token_cell(from, token)->Some_0 is Shift implies from < automaton.states@.len()
        && automaton.transition(from as int, SymbolicSymbol::Token(token)) == Some(
        tables.token_cell(from, token)->Some_0->Shift_0,
    ) by {
        assert(tables.actions.table@[from as int]@[token as int] == automaton.cell(
            from as int,
            token as int,
        ));
        automaton.lemma_shift_cell(from as int, token as int);
    }
    assert forall|from: usize, non_terminal: usize| (#[trigger] tables.goto_cell(
        from,
        non_terminal,
    )) is Some implies from < automaton.states@.len() && automaton.transition(
        from as int,
        SymbolicSymbol::NonTerminal(non_terminal),
    ) == tables.goto_cell(from, non_terminal) by {
        assert(tables.gotos.table@[from as int]@
            == automaton.transitions.non_terminal_table@[from as int]@);
    }
    assert forall|from: usize, symbol: Symbol<NonTerminal, Token>, to: usize| #[trigger]
        Parser::<NonTerminal, Token, StartSymbol, Prod, LalrTables<Prod>, Ctx>::leads(
            tables,
            from,
            symbol,
            to,
        ) implies from < automaton.states@.len() && automaton.transition(
        from as int,
        symbol_id(symbol),
    ) == Some(to) by {
        match symbol {
            Symbol::Token(token) => {
                assert(tables.token_cell(from, token.index()) == Some(Action::Shift(to)));
                assert(automaton.transition(
                    from as int,
                    SymbolicSymbol::Token(token.index()),
                ) == Some(to));
            },
            Symbol::NonTerminal(non_terminal) => {
                assert(tables.goto_cell(from, non_terminal.index()) == Some(to));
                assert(automaton.transition(
                    from as int,
                    SymbolicSymbol::NonTerminal(non_terminal.index()),
                ) == Some(to));
            },
        }
    }
    assert forall|from: usize, symbol: Symbol<NonTerminal, Token>| !#[trigger] Parser::<
        NonTerminal,
        Token,
        StartSymbol,
        Prod,
        LalrTables<Prod>,
        Ctx,
    >::leads(tables, from, symbol, 0) by {
        if Parser::<NonTerminal, Token, StartSymbol, Prod, LalrTables<Prod>, Ctx>::leads(
            tables,
            from,
            symbol,
            0,
        ) {
            automaton.lemma_no_way_back(from as int, symbol_id(symbol));
        }
    }
    assert forall|from: usize, symbol: Symbol<NonTerminal, Token>, to: usize| #[trigger]
        Parser::<NonTerminal, Token, StartSymbol, Prod, LalrTables<Prod>, Ctx>::leads(
            tables,
            from,
            symbol,
            to,
        ) && Parser::<NonTerminal, Token, StartSymbol, Prod, LalrTables<Prod>, Ctx>::accepts_in(
            tables,
            to,
        ) implies from == 0 && symbol is NonTerminal by {
        assert(tables.eof_cell(to) == Some(Action::Accept));
        automaton.lemma_way_to_accept(from as int, symbol_id(symbol));
    }
    assert forall|non_terminal: NonTerminal, to: usize|
        #![trigger tables.goto_cell(0, non_terminal.index()), tables.eof_cell(to)]
        tables.goto_cell(0, non_terminal.index()) == Some(to) && tables.eof_cell(to) == Some(
            Action::Accept,
        ) implies non_terminal.index() == automaton.grammar.start_symbol by {
        assert(automaton.transition(0, SymbolicSymbol::NonTerminal(non_terminal.index()))
            == Some(to));
        automaton.lemma_way_to_accept(0, SymbolicSymbol::NonTerminal(non_terminal.index()));
    }
}

/// The symbol of the grammar that a symbol on the stack stands for.
pub open spec fn symbol_id<NonTerminal: Indexed, Token: Indexed>(
    symbol: Symbol<NonTerminal, Token>,
) -> SymbolicSymbol {
    match symbol {
        Symbol::Token(token) => SymbolicSymbol::Token(token.index()),
        Symbol::NonTerminal(non_terminal) => SymbolicSymbol::NonTerminal(non_terminal.index()),
    }
}

} // verus!
