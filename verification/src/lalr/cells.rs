//! What the action table holds, cell by cell.
//!
//! A shift stands where the state has a transition over the terminal.
//! Elsewhere the reduction of the last item that asks for the cell stands,
//! the epsilon items coming after the kernel.

use crate::lalr::automaton::{
    all_advanced, epsilon_ok, initial_kernel, kernel_sets, row_ok, transition_ok, LalrAutomaton,
};
use crate::lalr::core_set;
use crate::slr::item::{goto_set, in_closure, lemma_closure_item_shape, SlrItem};
use crate::symbolic_grammar::{SymbolicSymbol, SPECIAL_ID};
use crate::lalr::generation::{
    empty_row, eof_action, is_reducing, write_item, write_items, write_reductions,
    write_shifts, RowState,
};
use crate::lalr::LalrItem;
use crate::lookahead::{resolved_eof, resolved_tokens, NodeView};
use crate::parsing::action::Action;
use crate::parsing::tables::Conflict;
use crate::symbolic_grammar::SymbolicGrammar;
use vstd::prelude::*;

verus! {

/// Whether `item` asks for the cell in `column`: its lookahead holds the
/// terminal, or the end of input for the column behind the terminals.
pub open spec fn asks_for(
    grammar: &SymbolicGrammar,
    graph: Seq<NodeView>,
    item: LalrItem,
    only_reducing: bool,
    column: int,
) -> bool {
    &&& !only_reducing || is_reducing(grammar, item)
    &&& if column < grammar.token_count {
        0 <= column && resolved_tokens(graph, item.lookahead_node.0 as int).contains(
            column as usize,
        )
    } else {
        column == grammar.token_count && resolved_eof(graph, item.lookahead_node.0 as int)
    }
}

/// What `item` puts into the cell in `column`.
pub open spec fn asked_action(grammar: &SymbolicGrammar, item: LalrItem, column: int) -> Action {
    if column < grammar.token_count {
        Action::Reduce(item.production_id)
    } else {
        eof_action(item.production_id)
    }
}

/// The action of the last of the first `upto` items that asks for the cell
/// in `column`.
pub open spec fn last_asked(
    grammar: &SymbolicGrammar,
    graph: Seq<NodeView>,
    items: Seq<LalrItem>,
    only_reducing: bool,
    upto: nat,
    column: int,
) -> Option<Action>
    decreases upto,
{
    if upto == 0 {
        None
    } else if asks_for(grammar, graph, items[upto - 1], only_reducing, column) {
        Some(asked_action(grammar, items[upto - 1], column))
    } else {
        last_asked(grammar, graph, items, only_reducing, (upto - 1) as nat, column)
    }
}

pub proof fn lemma_write_reductions_cell(
    before: RowState,
    state: usize,
    tokens: Set<usize>,
    production: usize,
    upto: nat,
    column: int,
)
    requires
        0 <= column < before.row.len(),
        upto <= before.row.len(),
    ensures
        write_reductions(before, state, tokens, production, upto).row.len() == before.row.len(),
        write_reductions(before, state, tokens, production, upto).row[column] == if column < upto
            && tokens.contains(column as usize) {
            Some(Action::Reduce(production))
        } else {
            before.row[column]
        },
    decreases upto,
{
    if upto > 0 {
        lemma_write_reductions_cell(before, state, tokens, production, (upto - 1) as nat, column);
    }
}

pub proof fn lemma_write_item_cell(
    before: RowState,
    state: usize,
    token_count: usize,
    tokens: Set<usize>,
    eof: bool,
    production: usize,
    column: int,
)
    requires
        0 <= column <= token_count,
        before.row.len() == token_count + 1,
    ensures
        write_item(before, state, token_count, tokens, eof, production).row.len()
            == before.row.len(),
        write_item(before, state, token_count, tokens, eof, production).row[column] == if column
            < token_count {
            if tokens.contains(column as usize) {
                Some(Action::Reduce(production))
            } else {
                before.row[column]
            }
        } else {
            if eof {
                Some(eof_action(production))
            } else {
                before.row[column]
            }
        },
{
    lemma_write_reductions_cell(before, state, tokens, production, token_count as nat, column);
}

pub proof fn lemma_write_items_cell(
    before: RowState,
    state: usize,
    grammar: &SymbolicGrammar,
    graph: Seq<NodeView>,
    items: Seq<LalrItem>,
    only_reducing: bool,
    upto: nat,
    column: int,
)
    requires
        0 <= column <= grammar.token_count,
        before.row.len() == grammar.token_count + 1,
        upto <= items.len(),
    ensures
        write_items(before, state, grammar, graph, items, only_reducing, upto).row.len()
            == before.row.len(),
        write_items(before, state, grammar, graph, items, only_reducing, upto).row[column]
            == match last_asked(grammar, graph, items, only_reducing, upto, column) {
            Some(action) => Some(action),
            None => before.row[column],
        },
    decreases upto,
{
    if upto > 0 {
        lemma_write_items_cell(
            before,
            state,
            grammar,
            graph,
            items,
            only_reducing,
            (upto - 1) as nat,
            column,
        );
        let earlier = write_items(
            before,
            state,
            grammar,
            graph,
            items,
            only_reducing,
            (upto - 1) as nat,
        );
        let item = items[upto - 1];
        if !only_reducing || is_reducing(grammar, item) {
            lemma_write_item_cell(
                earlier,
                state,
                grammar.token_count,
                resolved_tokens(graph, item.lookahead_node.0 as int),
                resolved_eof(graph, item.lookahead_node.0 as int),
                item.production_id,
                column,
            );
        }
    }
}

pub proof fn lemma_write_shifts_cell(
    before: RowState,
    state: usize,
    targets: Seq<Option<usize>>,
    upto: nat,
    column: int,
)
    requires
        0 <= column < before.row.len(),
        upto <= targets.len(),
        upto <= before.row.len(),
    ensures
        write_shifts(before, state, targets, upto).row.len() == before.row.len(),
        write_shifts(before, state, targets, upto).row[column] == if column < upto
            && targets[column] is Some {
            Some(Action::Shift(targets[column]->Some_0))
        } else {
            before.row[column]
        },
    decreases upto,
{
    if upto > 0 {
        lemma_write_shifts_cell(before, state, targets, (upto - 1) as nat, column);
    }
}

impl LalrAutomaton {
    /// What the action table holds for `state` in `column`.
    pub open spec fn cell(&self, state: int, column: int) -> Option<Action> {
        let targets = self.transitions.token_table@[state]@;
        let kernel = self.states@[state].kernel@;
        let epsilon_items = self.states@[state].epsilon_items@;
        if column < self.grammar.token_count && targets[column] is Some {
            Some(Action::Shift(targets[column]->Some_0))
        } else {
            match last_asked(
                &self.grammar,
                self.graph@,
                epsilon_items,
                false,
                epsilon_items.len(),
                column,
            ) {
                Some(action) => Some(action),
                None => last_asked(
                    &self.grammar,
                    self.graph@,
                    kernel,
                    true,
                    kernel.len(),
                    column,
                ),
            }
        }
    }

    /// The row that the generator makes for a state holds in each column
    /// what `cell` says.
    pub proof fn lemma_action_row_cell(&self, state: int, conflicts: Seq<Conflict>, column: int)
        requires
            0 <= state < self.states@.len(),
            self.transitions.token_table@.len() == self.states@.len(),
            self.transitions.token_table@[state]@.len() == self.grammar.token_count,
            self.grammar.token_count < usize::MAX,
            0 <= column <= self.grammar.token_count,
        ensures
            self.action_row(state, conflicts).row.len() == self.grammar.token_count + 1,
            self.action_row(state, conflicts).row[column] == self.cell(state, column),
    {
        let empty = RowState { row: empty_row(self.grammar.token_count), conflicts };
        let kernel = self.states@[state].kernel@;
        let epsilon_items = self.states@[state].epsilon_items@;
        let reduced = write_items(
            empty,
            state as usize,
            &self.grammar,
            self.graph@,
            kernel,
            true,
            kernel.len(),
        );
        let emptied = write_items(
            reduced,
            state as usize,
            &self.grammar,
            self.graph@,
            epsilon_items,
            false,
            epsilon_items.len(),
        );
        lemma_write_items_cell(
            empty,
            state as usize,
            &self.grammar,
            self.graph@,
            kernel,
            true,
            kernel.len(),
            column,
        );
        lemma_write_items_cell(
            reduced,
            state as usize,
            &self.grammar,
            self.graph@,
            epsilon_items,
            false,
            epsilon_items.len(),
            column,
        );
        lemma_write_shifts_cell(
            emptied,
            state as usize,
            self.transitions.token_table@[state]@,
            self.grammar.token_count as nat,
            column,
        );
    }

    /// The rows of the first `count` states are the rows of those states.
    pub proof fn lemma_action_rows_row(&self, count: nat, state: int)
        requires
            0 <= state < count,
        ensures
            self.action_rows(count).rows.len() == count,
            exists|conflicts: Seq<Conflict>|
                self.action_rows(count).rows[state] == (#[trigger] self.action_row(
                    state,
                    conflicts,
                )).row,
        decreases count,
    {
        self.lemma_action_rows_len((count - 1) as nat);
        if state < count - 1 {
            self.lemma_action_rows_row((count - 1) as nat, state);
            let conflicts = choose|conflicts: Seq<Conflict>|
                self.action_rows((count - 1) as nat).rows[state] == (#[trigger] self.action_row(
                    state,
                    conflicts,
                )).row;
            assert(self.action_rows(count).rows[state] == self.action_row(state, conflicts).row);
        } else {
            let earlier = self.action_rows((count - 1) as nat);
            assert(self.action_rows(count).rows[state] == self.action_row(
                state,
                earlier.conflicts,
            ).row);
        }
    }

    pub proof fn lemma_action_rows_len(&self, count: nat)
        ensures
            self.action_rows(count).rows.len() == count,
        decreases count,
    {
        if count > 0 {
            self.lemma_action_rows_len((count - 1) as nat);
        }
    }
}

/// An action that items ask for comes from one of them.
pub proof fn lemma_last_asked_source(
    grammar: &SymbolicGrammar,
    graph: Seq<NodeView>,
    items: Seq<LalrItem>,
    only_reducing: bool,
    upto: nat,
    column: int,
) -> (i: int)
    requires
        last_asked(grammar, graph, items, only_reducing, upto, column) is Some,
    ensures
        0 <= i < upto,
        asks_for(grammar, graph, items[i], only_reducing, column),
        last_asked(grammar, graph, items, only_reducing, upto, column) == Some(
            asked_action(grammar, items[i], column),
        ),
    decreases upto,
{
    if asks_for(grammar, graph, items[upto - 1], only_reducing, column) {
        upto - 1
    } else {
        lemma_last_asked_source(grammar, graph, items, only_reducing, (upto - 1) as nat, column)
    }
}

/// The item that the automaton accepts with: the augmenting production,
/// wholly matched.
pub open spec fn accepting_item() -> SlrItem {
    SlrItem { production_id: SPECIAL_ID, marker_position: 1 }
}

impl LalrAutomaton {
    /// A transition leads to the state whose kernel is the goto set.
    pub proof fn lemma_transition_target(&self, state: int, symbol: SymbolicSymbol)
        requires
            self.wf(),
            0 <= state < self.states@.len(),
            self.transition(state, symbol) is Some,
        ensures
            self.transition(state, symbol)->Some_0 < self.states@.len(),
            kernel_sets(self.states@)[self.transition(state, symbol)->Some_0 as int] == goto_set(
                &self.grammar,
                kernel_sets(self.states@)[state],
                symbol,
            ),
    {
        let kernels = kernel_sets(self.states@);
        assert(row_ok(
            &self.grammar,
            kernels,
            state,
            self.transitions.token_table@[state]@,
            self.transitions.non_terminal_table@[state]@,
        ));
        match symbol {
            SymbolicSymbol::Token(t) => {
                assert(transition_ok(
                    &self.grammar,
                    kernels,
                    state,
                    SymbolicSymbol::Token(t as int as usize),
                    self.transitions.token_table@[state]@[t as int],
                ));
            },
            SymbolicSymbol::NonTerminal(n) => {
                assert(transition_ok(
                    &self.grammar,
                    kernels,
                    state,
                    SymbolicSymbol::NonTerminal(n as int as usize),
                    self.transitions.non_terminal_table@[state]@[n as int],
                ));
            },
            SymbolicSymbol::EOF => {},
        }
    }

    /// No transition leads to the initial state.
    pub proof fn lemma_no_way_back(&self, state: int, symbol: SymbolicSymbol)
        requires
            self.wf(),
            0 <= state < self.states@.len(),
        ensures
            self.transition(state, symbol) != Some(0usize),
    {
        if self.transition(state, symbol) == Some(0usize) {
            self.lemma_transition_target(state, symbol);
            let start = SlrItem { production_id: SPECIAL_ID, marker_position: 0 };
            assert(initial_kernel().contains(start));
            assert(goto_set(&self.grammar, kernel_sets(self.states@)[state], symbol).contains(
                start,
            ));
        }
    }

    /// A state that holds the accepting item is reached from the initial
    /// state only, and over the start symbol only.
    pub proof fn lemma_way_to_accept(&self, state: int, symbol: SymbolicSymbol)
        requires
            self.wf(),
            0 <= state < self.states@.len(),
            self.transition(state, symbol) is Some,
            core_set(self.states@[self.transition(state, symbol)->Some_0 as int].kernel@).contains(
                accepting_item(),
            ),
        ensures
            state == 0,
            symbol == SymbolicSymbol::NonTerminal(self.grammar.start_symbol),
    {
        self.lemma_transition_target(state, symbol);
        let kernels = kernel_sets(self.states@);
        let start = SlrItem { production_id: SPECIAL_ID, marker_position: 0 };
        assert(goto_set(&self.grammar, kernels[state], symbol).contains(accepting_item()));
        assert(accepting_item().retreated() == start);
        assert(in_closure(&self.grammar, kernels[state], start));
        lemma_closure_item_shape(&self.grammar, kernels[state], start);
        assert(self.grammar.productions.len() == self.grammar.productions@.len());
        assert(kernels[state].contains(start));
        if state > 0 {
            let items = self.states@[state].kernel@;
            assert(all_advanced(items));
            let i = choose|i: int| 0 <= i < items.len() && (#[trigger] items[i]).core_item() == start;
            assert(items[i].marker_position > 0);
        }
    }

    /// A state accepts at the end of input only if it is not the initial
    /// state and holds the accepting item.
    pub proof fn lemma_accept_cell(&self, state: int)
        requires
            self.wf(),
            0 <= state < self.states@.len(),
            self.cell(state, self.grammar.token_count as int) == Some(Action::Accept),
        ensures
            state != 0,
            core_set(self.states@[state].kernel@).contains(accepting_item()),
    {
        let column = self.grammar.token_count as int;
        let kernel = self.states@[state].kernel@;
        let epsilon_items = self.states@[state].epsilon_items@;
        let from_epsilon = last_asked(
            &self.grammar,
            self.graph@,
            epsilon_items,
            false,
            epsilon_items.len(),
            column,
        );
        if from_epsilon is Some {
            let i = lemma_last_asked_source(
                &self.grammar,
                self.graph@,
                epsilon_items,
                false,
                epsilon_items.len(),
                column,
            );
            assert(epsilon_ok(&self.grammar, core_set(kernel), epsilon_items));
            assert(core_set(epsilon_items).contains(epsilon_items[i].core_item()));
            assert(epsilon_items[i].core_item().body(&self.grammar).len() == 0);
        } else {
            let i = lemma_last_asked_source(
                &self.grammar,
                self.graph@,
                kernel,
                true,
                kernel.len(),
                column,
            );
            assert(kernel[i].production_id == SPECIAL_ID);
            assert(kernel[i].core_item() == accepting_item());
            if state == 0 {
                assert(core_set(kernel).contains(kernel[i].core_item()));
                assert(kernel_sets(self.states@)[0] == initial_kernel());
            }
        }
    }

    /// A cell holds a shift only where the state has the transition.
    pub proof fn lemma_shift_cell(&self, state: int, column: int)
        requires
            0 <= state < self.states@.len(),
            0 <= column <= self.grammar.token_count,
            self.cell(state, column) is Some,
            self.cell(state, column)->Some_0 is Shift,
        ensures
            column < self.grammar.token_count,
            self.transitions.token_table@[state]@[column] == Some(
                self.cell(state, column)->Some_0->Shift_0,
            ),
    {
        let targets = self.transitions.token_table@[state]@;
        let kernel = self.states@[state].kernel@;
        let epsilon_items = self.states@[state].epsilon_items@;
        if !(column < self.grammar.token_count && targets[column] is Some) {
            let from_epsilon = last_asked(
                &self.grammar,
                self.graph@,
                epsilon_items,
                false,
                epsilon_items.len(),
                column,
            );
            if from_epsilon is Some {
                let i = lemma_last_asked_source(
                    &self.grammar,
                    self.graph@,
                    epsilon_items,
                    false,
                    epsilon_items.len(),
                    column,
                );
            } else {
                let i = lemma_last_asked_source(
                    &self.grammar,
                    self.graph@,
                    kernel,
                    true,
                    kernel.len(),
                    column,
                );
            }
        }
    }
}

} // verus!
