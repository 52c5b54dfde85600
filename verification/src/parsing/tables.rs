//! Dense tables of actions, gotos and transitions, one row per state.

use crate::parsing::action::Action;
use crate::symbolic_grammar::{SymbolicSymbol, SymbolicToken};
use vstd::prelude::*;

verus! {

/// Which two kinds of action compete for a cell.
#[derive(Clone, Copy, Debug, PartialEq, Eq, Structural)]
pub enum ConflictKind {
    ShiftReduce,
    ReduceReduce,
}

/// A write over a cell that held an action already. The later action wins.
#[derive(Clone, Copy, Debug, PartialEq, Eq, Structural)]
pub struct Conflict {
    pub kind: ConflictKind,
    pub state: usize,
    pub symbol: SymbolicSymbol,
    pub current: Action,
    pub new: Action,
}

/// A shift against anything is a shift/reduce conflict; all others are
/// reduce/reduce conflicts.
pub open spec fn conflict_kind(current: Action, new: Action) -> ConflictKind {
    if current is Shift || new is Shift {
        ConflictKind::ShiftReduce
    } else {
        ConflictKind::ReduceReduce
    }
}

/// The record of writing `new` over `current`.
pub open spec fn conflict_of(
    state: usize,
    symbol: SymbolicSymbol,
    current: Action,
    new: Action,
) -> Conflict {
    Conflict { kind: conflict_kind(current, new), state, symbol, current, new }
}

/// Actions by state and terminal. The column behind the last terminal is that
/// of the end of input.
#[derive(Debug)]
pub struct ActionTable {
    pub tokens_count: usize,
    pub table: Vec<Vec<Option<Action>>>,
}

impl ActionTable {
    /// Every row has a cell for each terminal and one for the end of input.
    pub open spec fn wf(&self) -> bool {
        &&& self.tokens_count < usize::MAX
        &&& forall|state: int|
            0 <= state < self.table@.len() ==> (#[trigger] self.table@[state])@.len()
                == self.tokens_count + 1
    }

    /// The column of a terminal or of the end of input.
    pub open spec fn column(&self, symbol: SymbolicSymbol) -> int {
        match symbol {
            SymbolicSymbol::Token(token) => token as int,
            _ => self.tokens_count as int,
        }
    }

    /// `symbol` has a column: it is the end of input or a terminal.
    pub open spec fn indexable(&self, symbol: SymbolicSymbol) -> bool {
        match symbol {
            SymbolicSymbol::Token(token) => token <= self.tokens_count,
            SymbolicSymbol::EOF => true,
            SymbolicSymbol::NonTerminal(_) => false,
        }
    }

    pub open spec fn cell(&self, state: int, symbol: SymbolicSymbol) -> Option<Action> {
        self.table@[state]@[self.column(symbol)]
    }

    pub fn new(tokens_count: usize) -> (table: Self)
        requires
            tokens_count < usize::MAX,
        ensures
            table.wf(),
            table.tokens_count == tokens_count,
            table.table@.len() == 0,
    {
        Self { tokens_count, table: Vec::new() }
    }

    /// Appends a row of empty cells and returns its state.
    pub fn add_state(&mut self) -> (state_id: usize)
        requires
            old(self).wf(),
        ensures
            final(self).wf(),
            final(self).tokens_count == old(self).tokens_count,
            state_id == old(self).table@.len(),
            final(self).table@.len() == state_id + 1,
            forall|state: int|
                0 <= state < state_id ==> #[trigger] final(self).table@[state] == old(self).table@[state],
            forall|column: int|
                0 <= column <= old(self).tokens_count ==> #[trigger] final(self).table@[state_id as int]@[column] is None,
    {
        let state_id = self.table.len();
        let mut row: Vec<Option<Action>> = Vec::new();
        let mut column: usize = 0;
        while column < self.tokens_count + 1
            invariant
                self.tokens_count < usize::MAX,
                column <= self.tokens_count + 1,
                row@.len() == column,
                forall|c: int| 0 <= c < column ==> #[trigger] row@[c] is None,
            decreases self.tokens_count + 1 - column,
        {
            row.push(None);
            column += 1;
        }
        self.table.push(row);
        state_id
    }

    /// Number of states, and number of columns.
    pub fn dimensions(&self) -> (dimensions: (usize, usize))
        requires
            self.tokens_count < usize::MAX,
        ensures
            dimensions == (self.table@.len() as usize, (self.tokens_count + 1) as usize),
    {
        (self.table.len(), self.tokens_count + 1)
    }

    /// The cell of `state` and `symbol`.
    pub fn get(&self, state: usize, symbol: SymbolicSymbol) -> (cell: Option<Action>)
        requires
            self.wf(),
            state < self.table@.len(),
            self.indexable(symbol),
        ensures
            cell == self.cell(state as int, symbol),
    {
        match symbol {
            SymbolicSymbol::Token(token) => self.table[state][token],
            _ => self.table[state][self.tokens_count],
        }
    }

    /// Puts `action` into the cell of `state` and `symbol`.
    pub fn set(&mut self, state: usize, symbol: SymbolicSymbol, action: Option<Action>)
        requires
            old(self).wf(),
            state < old(self).table@.len(),
            old(self).indexable(symbol),
        ensures
            final(self).wf(),
            final(self).tokens_count == old(self).tokens_count,
            final(self).table@.len() == old(self).table@.len(),
            final(self).table@[state as int]@ == old(self).table@[state as int]@.update(
                old(self).column(symbol),
                action,
            ),
            forall|other: int|
                0 <= other < old(self).table@.len() && other != state ==> #[trigger] final(self).table@[other] == old(self).table@[other],
    {
        let column = match symbol {
            SymbolicSymbol::Token(token) => token,
            _ => self.tokens_count,
        };
        self.table[state][column] = action;
    }

    /// Writes `action` into the cell of `state` and `symbol`. If the cell held
    /// an action, that is a conflict: it is reported, and `action` replaces it.
    pub fn write(&mut self, state: usize, symbol: SymbolicSymbol, action: Action) -> (conflict:
        Option<Conflict>)
        requires
            old(self).wf(),
            state < old(self).table@.len(),
            old(self).indexable(symbol),
        ensures
            final(self).wf(),
            final(self).tokens_count == old(self).tokens_count,
            final(self).table@.len() == old(self).table@.len(),
            final(self).table@[state as int]@ == old(self).table@[state as int]@.update(
                old(self).column(symbol),
                Some(action),
            ),
            forall|other: int|
                0 <= other < old(self).table@.len() && other != state ==> #[trigger] final(self).table@[other] == old(self).table@[other],
            conflict == match old(self).cell(state as int, symbol) {
                Some(current) => Some(conflict_of(state, symbol, current, action)),
                None => None,
            },
    {
        let conflict = match self.get(state, symbol) {
            Some(current) => {
                let shift = match current {
                    Action::Shift(_) => true,
                    _ => match action {
                        Action::Shift(_) => true,
                        _ => false,
                    },
                };
                let kind = if shift {
                    ConflictKind::ShiftReduce
                } else {
                    ConflictKind::ReduceReduce
                };
                Some(Conflict { kind, state, symbol, current, new: action })
            },
            None => None,
        };
        self.set(state, symbol, Some(action));
        conflict
    }
}

/// Next states by state and non-terminal.
#[derive(Debug)]
pub struct GoToTable {
    pub non_terminals_count: usize,
    pub table: Vec<Vec<Option<usize>>>,
}

impl GoToTable {
    /// Every row has a cell for each non-terminal.
    pub open spec fn wf(&self) -> bool {
        forall|state: int|
            0 <= state < self.table@.len() ==> (#[trigger] self.table@[state])@.len()
                == self.non_terminals_count
    }

    pub open spec fn cell(&self, state: int, non_terminal: int) -> Option<usize> {
        self.table@[state]@[non_terminal]
    }

    pub fn new(non_terminals_count: usize) -> (table: Self)
        ensures
            table.wf(),
            table.non_terminals_count == non_terminals_count,
            table.table@.len() == 0,
    {
        Self { non_terminals_count, table: Vec::new() }
    }

    /// Appends a row of empty cells and returns its state.
    pub fn add_state(&mut self) -> (state_id: usize)
        requires
            old(self).wf(),
        ensures
            final(self).wf(),
            final(self).non_terminals_count == old(self).non_terminals_count,
            state_id == old(self).table@.len(),
            final(self).table@.len() == state_id + 1,
            forall|state: int|
                0 <= state < state_id ==> #[trigger] final(self).table@[state] == old(self).table@[state],
            forall|column: int|
                0 <= column < old(self).non_terminals_count ==> #[trigger] final(self).table@[state_id as int]@[column] is None,
    {
        let state_id = self.table.len();
        let mut row: Vec<Option<usize>> = Vec::new();
        let mut column: usize = 0;
        while column < self.non_terminals_count
            invariant
                column <= self.non_terminals_count,
                row@.len() == column,
                forall|c: int| 0 <= c < column ==> #[trigger] row@[c] is None,
            decreases self.non_terminals_count - column,
        {
            row.push(None);
            column += 1;
        }
        self.table.push(row);
        state_id
    }

    /// Number of states, and number of columns.
    pub fn dimensions(&self) -> (dimensions: (usize, usize))
        ensures
            dimensions == (self.table@.len() as usize, self.non_terminals_count),
    {
        (self.table.len(), self.non_terminals_count)
    }

    /// The cell of `state` and the non-terminal `symbol`.
    pub fn get(&self, state: usize, symbol: SymbolicSymbol) -> (cell: Option<usize>)
        requires
            self.wf(),
            state < self.table@.len(),
            symbol is NonTerminal,
            symbol->NonTerminal_0 < self.non_terminals_count,
        ensures
            cell == self.cell(state as int, symbol->NonTerminal_0 as int),
    {
        match symbol {
            SymbolicSymbol::NonTerminal(non_terminal) => self.table[state][non_terminal],
            _ => None,
        }
    }

    /// Puts `target` into the cell of `state` and the non-terminal `symbol`.
    pub fn set(&mut self, state: usize, symbol: SymbolicSymbol, target: Option<usize>)
        requires
            old(self).wf(),
            state < old(self).table@.len(),
            symbol is NonTerminal,
            symbol->NonTerminal_0 < old(self).non_terminals_count,
        ensures
            final(self).wf(),
            final(self).non_terminals_count == old(self).non_terminals_count,
            final(self).table@.len() == old(self).table@.len(),
            final(self).table@[state as int]@ == old(self).table@[state as int]@.update(
                symbol->NonTerminal_0 as int,
                target,
            ),
            forall|other: int|
                0 <= other < old(self).table@.len() && other != state ==> #[trigger] final(self).table@[other] == old(self).table@[other],
    {
        match symbol {
            SymbolicSymbol::NonTerminal(non_terminal) => {
                self.table[state][non_terminal] = target;
            },
            _ => {},
        }
    }
}

/// Transitions of an automaton: per state, the next state over each
/// terminal and over each non-terminal.
#[derive(Debug)]
pub struct TransitionTables {
    pub token_table: Vec<Vec<Option<usize>>>,
    pub non_terminal_table: Vec<Vec<Option<usize>>>,
}

impl Default for TransitionTables {
    fn default() -> (tables: Self)
        ensures
            tables.token_table@.len() == 0,
            tables.non_terminal_table@.len() == 0,
    {
        Self::new()
    }
}

impl TransitionTables {
    pub fn new() -> (tables: Self)
        ensures
            tables.token_table@.len() == 0,
            tables.non_terminal_table@.len() == 0,
    {
        Self { token_table: Vec::new(), non_terminal_table: Vec::new() }
    }

    /// Appends the transitions of the next state.
    pub fn add_transitions(
        &mut self,
        token_transitions: Vec<Option<usize>>,
        non_terminal_transitions: Vec<Option<usize>>,
    )
        ensures
            final(self).token_table@ == old(self).token_table@.push(token_transitions),
            final(self).non_terminal_table@ == old(self).non_terminal_table@.push(
                non_terminal_transitions,
            ),
    {
        self.token_table.push(token_transitions);
        self.non_terminal_table.push(non_terminal_transitions);
    }

    /// The state reached from `starting_state` over `token`, if both are known
    /// and there is one.
    pub fn token_transition(&self, starting_state: usize, token: SymbolicToken) -> (target:
        Option<usize>)
        ensures
            target == if starting_state < self.token_table@.len() && token
                < self.token_table@[starting_state as int]@.len() {
                self.token_table@[starting_state as int]@[token as int]
            } else {
                None
            },
    {
        if starting_state < self.token_table.len() {
            if token < self.token_table[starting_state].len() {
                return self.token_table[starting_state][token];
            }
        }
        None
    }

    /// The state reached from `starting_state` over `non_terminal`, if both are
    /// known and there is one.
    pub fn non_terminal_transition(&self, starting_state: usize, non_terminal: usize) -> (target:
        Option<usize>)
        ensures
            target == if starting_state < self.non_terminal_table@.len() && non_terminal
                < self.non_terminal_table@[starting_state as int]@.len() {
                self.non_terminal_table@[starting_state as int]@[non_terminal as int]
            } else {
                None
            },
    {
        if starting_state < self.non_terminal_table.len() {
            if non_terminal < self.non_terminal_table[starting_state].len() {
                return self.non_terminal_table[starting_state][non_terminal];
            }
        }
        None
    }

    /// The rows of both tables, state by state, as far as both reach.
    pub fn iter(&self) -> (rows: Vec<(&Vec<Option<usize>>, &Vec<Option<usize>>)>)
        ensures
            rows@.len() == if self.token_table@.len() <= self.non_terminal_table@.len() {
                self.token_table@.len()
            } else {
                self.non_terminal_table@.len()
            },
            forall|state: int|
                0 <= state < rows@.len() ==> {
                    &&& *(#[trigger] rows@[state]).0 == self.token_table@[state]
                    &&& *rows@[state].1 == self.non_terminal_table@[state]
                },
    {
        let mut rows: Vec<(&Vec<Option<usize>>, &Vec<Option<usize>>)> = Vec::new();
        let mut state: usize = 0;
        while state < self.token_table.len() && state < self.non_terminal_table.len()
            invariant
                state <= self.token_table@.len(),
                state <= self.non_terminal_table@.len(),
                rows@.len() == state,
                forall|s: int|
                    0 <= s < state ==> {
                        &&& *(#[trigger] rows@[s]).0 == self.token_table@[s]
                        &&& *rows@[s].1 == self.non_terminal_table@[s]
                    },
            decreases self.token_table@.len() - state,
        {
            rows.push((&self.token_table[state], &self.non_terminal_table[state]));
            state += 1;
        }
        rows
    }
}

} // verus!
