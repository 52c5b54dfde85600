//! Generation of the action and goto tables from a complete automaton.
//!
//! Per state, the reductions of the kernel are written first, then those of
//! the epsilon items, then the shifts. A write over a cell that holds an
//! action is a conflict: it is recorded, and the later action stays.

use crate::lalr::automaton::LalrAutomaton;
use crate::lalr::{items_ok, LalrItem};
use crate::lookahead::{resolved_eof, resolved_tokens, LookAhead, LookAheadGraph, NodeView};
use crate::parsing::action::Action;
use crate::parsing::tables::{conflict_of, ActionTable, Conflict, GoToTable};
use crate::symbolic_grammar::{SymbolicGrammar, SymbolicSymbol, SPECIAL_ID};
use vstd::prelude::*;

verus! {

/// A row of the action table under construction, and the conflicts met so far.
pub struct RowState {
    pub row: Seq<Option<Action>>,
    pub conflicts: Seq<Conflict>,
}

/// Writing `action` into the cell of `symbol`, which stands at `column`.
pub open spec fn write_cell(
    before: RowState,
    state: usize,
    symbol: SymbolicSymbol,
    column: int,
    action: Action,
) -> RowState {
    RowState {
        row: before.row.update(column, Some(action)),
        conflicts: match before.row[column] {
            Some(current) => before.conflicts.push(conflict_of(state, symbol, current, action)),
            None => before.conflicts,
        },
    }
}

/// Writing the reduction by `production` under each terminal of `tokens`
/// below `upto`, in increasing order.
pub open spec fn write_reductions(
    before: RowState,
    state: usize,
    tokens: Set<usize>,
    production: usize,
    upto: nat,
) -> RowState
    decreases upto,
{
    if upto == 0 {
        before
    } else {
        let earlier = write_reductions(before, state, tokens, production, (upto - 1) as nat);
        if tokens.contains((upto - 1) as usize) {
            write_cell(
                earlier,
                state,
                SymbolicSymbol::Token((upto - 1) as usize),
                upto - 1,
                Action::Reduce(production),
            )
        } else {
            earlier
        }
    }
}

/// What a reduction by `production` is at the end of input: the augmenting
/// production accepts.
pub open spec fn eof_action(production: usize) -> Action {
    if production == SPECIAL_ID {
        Action::Accept
    } else {
        Action::Reduce(production)
    }
}

/// Writing what one reducing item asks for: its reduction under each
/// terminal of its lookahead, then at the end of input if that may follow.
pub open spec fn write_item(
    before: RowState,
    state: usize,
    token_count: usize,
    tokens: Set<usize>,
    eof: bool,
    production: usize,
) -> RowState {
    let after = write_reductions(before, state, tokens, production, token_count as nat);
    if eof {
        write_cell(after, state, SymbolicSymbol::EOF, token_count as int, eof_action(production))
    } else {
        after
    }
}

/// Whether the marker of `item` stands at the end of its production.
pub open spec fn is_reducing(grammar: &SymbolicGrammar, item: LalrItem) -> bool {
    item.marker_position == item.core_item().body(grammar).len()
}

/// Writing what the first `upto` items ask for, in order. With
/// `only_reducing`, items whose marker is not at the end are passed over.
pub open spec fn write_items(
    before: RowState,
    state: usize,
    grammar: &SymbolicGrammar,
    graph: Seq<NodeView>,
    items: Seq<LalrItem>,
    only_reducing: bool,
    upto: nat,
) -> RowState
    decreases upto,
{
    if upto == 0 {
        before
    } else {
        let earlier = write_items(
            before,
            state,
            grammar,
            graph,
            items,
            only_reducing,
            (upto - 1) as nat,
        );
        let item = items[upto - 1];
        if !only_reducing || is_reducing(grammar, item) {
            write_item(
                earlier,
                state,
                grammar.token_count,
                resolved_tokens(graph, item.lookahead_node.0 as int),
                resolved_eof(graph, item.lookahead_node.0 as int),
                item.production_id,
            )
        } else {
            earlier
        }
    }
}

/// Writing the shifts of the first `upto` terminals, in increasing order.
pub open spec fn write_shifts(
    before: RowState,
    state: usize,
    targets: Seq<Option<usize>>,
    upto: nat,
) -> RowState
    decreases upto,
{
    if upto == 0 {
        before
    } else {
        let earlier = write_shifts(before, state, targets, (upto - 1) as nat);
        match targets[upto - 1] {
            Some(target) => write_cell(
                earlier,
                state,
                SymbolicSymbol::Token((upto - 1) as usize),
                upto - 1,
                Action::Shift(target),
            ),
            None => earlier,
        }
    }
}

/// The empty row of a grammar with `token_count` terminals.
pub open spec fn empty_row(token_count: usize) -> Seq<Option<Action>> {
    Seq::new((token_count + 1) as nat, |column: int| None::<Action>)
}

/// The action rows of the first `count` states, and the conflicts met on
/// the way.
pub struct ActionRows {
    pub rows: Seq<Seq<Option<Action>>>,
    pub conflicts: Seq<Conflict>,
}

impl LalrAutomaton {
    /// The action row of `state`, and `conflicts` with those of the row
    /// appended.
    pub open spec fn action_row(&self, state: int, conflicts: Seq<Conflict>) -> RowState {
        let empty = RowState { row: empty_row(self.grammar.token_count), conflicts };
        let kernel = self.states@[state].kernel@;
        let epsilon_items = self.states@[state].epsilon_items@;
        let reduced = write_items(
            empty,
            state as usize,
            &self.grammar,
            self.graph@,
            kernel,
            true,
            kernel.len(),
        );
        let emptied = write_items(
            reduced,
            state as usize,
            &self.grammar,
            self.graph@,
            epsilon_items,
            false,
            epsilon_items.len(),
        );
        write_shifts(
            emptied,
            state as usize,
            self.transitions.token_table@[state]@,
            self.grammar.token_count as nat,
        )
    }

    /// The action rows of the first `count` states.
    pub open spec fn action_rows(&self, count: nat) -> ActionRows
        decreases count,
    {
        if count == 0 {
            ActionRows { rows: Seq::empty(), conflicts: Seq::empty() }
        } else {
            let earlier = self.action_rows((count - 1) as nat);
            let row = self.action_row(count - 1, earlier.conflicts);
            ActionRows { rows: earlier.rows.push(row.row), conflicts: row.conflicts }
        }
    }
}

/// The row of `state` in `actions`, with `conflicts`.
pub open spec fn row_state(actions: &ActionTable, state: usize, conflicts: Seq<Conflict>) -> RowState {
    RowState { row: actions.table@[state as int]@, conflicts }
}

/// `after` is `before` but for the row of `state`.
pub open spec fn only_row_changed(before: &ActionTable, after: &ActionTable, state: usize) -> bool {
    &&& after.wf()
    &&& after.tokens_count == before.tokens_count
    &&& after.table@.len() == before.table@.len()
    &&& forall|other: int|
        0 <= other < before.table@.len() && other != state ==> #[trigger] after.table@[other]
            == before.table@[other]
}

fn write_cell_exec(
    actions: &mut ActionTable,
    conflicts: &mut Vec<Conflict>,
    state: usize,
    symbol: SymbolicSymbol,
    action: Action,
)
    requires
        old(actions).wf(),
        state < old(actions).table@.len(),
        symbol is Token ==> symbol->Token_0 < old(actions).tokens_count,
        !(symbol is NonTerminal),
    ensures
        only_row_changed(old(actions), final(actions), state),
        row_state(final(actions), state, final(conflicts)@) == write_cell(
            row_state(old(actions), state, old(conflicts)@),
            state,
            symbol,
            old(actions).column(symbol),
            action,
        ),
{
    match actions.write(state, symbol, action) {
        Some(conflict) => {
            conflicts.push(conflict);
        },
        None => {},
    }
}

fn write_item_exec(
    actions: &mut ActionTable,
    conflicts: &mut Vec<Conflict>,
    state: usize,
    lookahead: &LookAhead,
    production: usize,
)
    requires
        old(actions).wf(),
        state < old(actions).table@.len(),
    ensures
        only_row_changed(old(actions), final(actions), state),
        row_state(final(actions), state, final(conflicts)@) == write_item(
            row_state(old(actions), state, old(conflicts)@),
            state,
            old(actions).tokens_count,
            lookahead.tokens@,
            lookahead.can_eof_follow,
            production,
        ),
{
    let ghost before = row_state(actions, state, conflicts@);
    let token_count = actions.tokens_count;
    let mut token: usize = 0;
    while token < token_count
        invariant
            token <= token_count,
            token_count == old(actions).tokens_count,
            state < old(actions).table@.len(),
            before == row_state(old(actions), state, old(conflicts)@),
            only_row_changed(old(actions), actions, state),
            row_state(actions, state, conflicts@) == write_reductions(
                before,
                state,
                lookahead.tokens@,
                production,
                token as nat,
            ),
        decreases token_count - token,
    {
        if lookahead.tokens.contains(token) {
            write_cell_exec(
                actions,
                conflicts,
                state,
                SymbolicSymbol::Token(token),
                Action::Reduce(production),
            );
        }
        token += 1;
    }
    if lookahead.can_eof_follow {
        let action = if production == usize::MAX {
            Action::Accept
        } else {
            Action::Reduce(production)
        };
        write_cell_exec(actions, conflicts, state, SymbolicSymbol::EOF, action);
    }
}

fn write_items_exec(
    actions: &mut ActionTable,
    conflicts: &mut Vec<Conflict>,
    state: usize,
    grammar: &SymbolicGrammar,
    graph: &LookAheadGraph,
    items: &Vec<LalrItem>,
    only_reducing: bool,
)
    requires
        old(actions).wf(),
        state < old(actions).table@.len(),
        old(actions).tokens_count == grammar.token_count,
        graph.wf(),
        items_ok(items@, grammar, graph),
    ensures
        only_row_changed(old(actions), final(actions), state),
        row_state(final(actions), state, final(conflicts)@) == write_items(
            row_state(old(actions), state, old(conflicts)@),
            state,
            grammar,
            graph@,
            items@,
            only_reducing,
            items@.len(),
        ),
{
    let ghost before = row_state(actions, state, conflicts@);
    let mut i: usize = 0;
    while i < items.len()
        invariant
            i <= items@.len(),
            state < old(actions).table@.len(),
            old(actions).tokens_count == grammar.token_count,
            graph.wf(),
            items_ok(items@, grammar, graph),
            before == row_state(old(actions), state, old(conflicts)@),
            only_row_changed(old(actions), actions, state),
            row_state(actions, state, conflicts@) == write_items(
                before,
                state,
                grammar,
                graph@,
                items@,
                only_reducing,
                i as nat,
            ),
        decreases items@.len() - i,
    {
        let item = items[i];
        assert(item.core_item().valid(grammar));
        if !only_reducing || item.is_reducing(grammar) {
            let lookahead = item.lookahead_node.compute_lookahead(graph);
            write_item_exec(actions, conflicts, state, &lookahead, item.production_id);
        }
        i += 1;
    }
}

fn write_shifts_exec(
    actions: &mut ActionTable,
    conflicts: &mut Vec<Conflict>,
    state: usize,
    targets: &Vec<Option<usize>>,
)
    requires
        old(actions).wf(),
        state < old(actions).table@.len(),
        targets@.len() == old(actions).tokens_count,
    ensures
        only_row_changed(old(actions), final(actions), state),
        row_state(final(actions), state, final(conflicts)@) == write_shifts(
            row_state(old(actions), state, old(conflicts)@),
            state,
            targets@,
            targets@.len(),
        ),
{
    let ghost before = row_state(actions, state, conflicts@);
    let mut token: usize = 0;
    while token < targets.len()
        invariant
            token <= targets@.len(),
            state < old(actions).table@.len(),
            targets@.len() == old(actions).tokens_count,
            before == row_state(old(actions), state, old(conflicts)@),
            only_row_changed(old(actions), actions, state),
            row_state(actions, state, conflicts@) == write_shifts(
                before,
                state,
                targets@,
                token as nat,
            ),
        decreases targets@.len() - token,
    {
        match targets[token] {
            Some(target) => {
                write_cell_exec(
                    actions,
                    conflicts,
                    state,
                    SymbolicSymbol::Token(token),
                    Action::Shift(target),
                );
            },
            None => {},
        }
        token += 1;
    }
}

impl LalrAutomaton {
    /// The action table, the goto table and the conflicts of the automaton.
    /// The goto table holds the transitions over non-terminals.
    pub fn generate_tables(&self) -> (tables: (ActionTable, GoToTable, Vec<Conflict>))
        requires
            self.wf(),
            self.grammar.token_count < usize::MAX,
        ensures
            tables.0.wf(),
            tables.0.tokens_count == self.grammar.token_count,
            tables.0.table@.len() == self.states@.len(),
            forall|state: int|
                0 <= state < self.states@.len() ==> (#[trigger] tables.0.table@[state])@
                    == self.action_rows(self.states@.len()).rows[state],
            tables.2@ == self.action_rows(self.states@.len()).conflicts,
            forall|state: int, column: int|
                0 <= state < self.states@.len() && 0 <= column <= self.grammar.token_count
                    ==> #[trigger] tables.0.table@[state]@[column] == self.cell(state, column),
            tables.1.wf(),
            tables.1.non_terminals_count == self.grammar.non_terminal_count,
            tables.1.table@.len() == self.states@.len(),
            forall|state: int|
                0 <= state < self.states@.len() ==> (#[trigger] tables.1.table@[state])@
                    == self.transitions.non_terminal_table@[state]@,
    {
        let mut actions = ActionTable::new(self.grammar.token_count);
        let mut gotos = GoToTable::new(self.grammar.non_terminal_count);
        let mut conflicts: Vec<Conflict> = Vec::new();
        let mut state: usize = 0;
        while state < self.states.len()
            invariant
                state <= self.states@.len(),
                self.wf(),
                self.transitions.non_terminal_table@.len() == self.states@.len(),
                self.grammar.token_count < usize::MAX,
                actions.wf(),
                actions.tokens_count == self.grammar.token_count,
                actions.table@.len() == state,
                gotos.wf(),
                gotos.non_terminals_count == self.grammar.non_terminal_count,
                gotos.table@.len() == state,
                self.action_rows(state as nat).rows.len() == state,
                forall|s: int|
                    0 <= s < state ==> (#[trigger] actions.table@[s])@ == self.action_rows(
                        state as nat,
                    ).rows[s],
                conflicts@ == self.action_rows(state as nat).conflicts,
                forall|s: int|
                    0 <= s < state ==> (#[trigger] gotos.table@[s])@
                        == self.transitions.non_terminal_table@[s]@,
            decreases self.states@.len() - state,
        {
            let ghost earlier = self.action_rows(state as nat);
            let ghost actions_before = actions;
            let ghost gotos_before = gotos;
            actions.add_state();
            gotos.add_state();
            let ghost actions_added = actions;
            proof {
                assert(actions.table@[state as int]@ =~= empty_row(self.grammar.token_count));
                assert(crate::lalr::automaton::row_ok(
                    &self.grammar,
                    crate::lalr::automaton::kernel_sets(self.states@),
                    state as int,
                    self.transitions.token_table@[state as int]@,
                    self.transitions.non_terminal_table@[state as int]@,
                ));
                assert(row_ok_holds(self, state as int));
            }
            write_items_exec(
                &mut actions,
                &mut conflicts,
                state,
                &self.grammar,
                &self.graph,
                &self.states[state].kernel,
                true,
            );
            write_items_exec(
                &mut actions,
                &mut conflicts,
                state,
                &self.grammar,
                &self.graph,
                &self.states[state].epsilon_items,
                false,
            );
            write_shifts_exec(&mut actions, &mut conflicts, state, &self.transitions.token_table[state]);
            let targets = &self.transitions.non_terminal_table[state];
            let mut non_terminal: usize = 0;
            while non_terminal < targets.len()
                invariant
                    non_terminal <= targets@.len(),
                    targets@.len() == gotos.non_terminals_count,
                    state < self.states@.len(),
                    self.transitions.non_terminal_table@.len() == self.states@.len(),
                    gotos.wf(),
                    gotos.non_terminals_count == self.grammar.non_terminal_count,
                    gotos.table@.len() == state + 1,
                    forall|s: int|
                        0 <= s < state ==> (#[trigger] gotos.table@[s])@
                            == self.transitions.non_terminal_table@[s]@,
                    forall|n: int|
                        0 <= n < non_terminal ==> #[trigger] gotos.table@[state as int]@[n]
                            == targets@[n],
                decreases targets@.len() - non_terminal,
            {
                let ghost gotos_then = gotos;
                gotos.set(state, SymbolicSymbol::NonTerminal(non_terminal), targets[non_terminal]);
                proof {
                    assert forall|s: int| 0 <= s < state implies (#[trigger] gotos.table@[s])@
                        == self.transitions.non_terminal_table@[s]@ by {
                        assert(gotos.table@[s] == gotos_then.table@[s]);
                    }
                }
                non_terminal += 1;
            }
            proof {
                assert(gotos.table@[state as int]@ =~= targets@);
                let later = self.action_rows((state + 1) as nat);
                assert(later.rows == earlier.rows.push(
                    self.action_row(state as int, earlier.conflicts).row,
                ));
                assert forall|s: int| 0 <= s < state + 1 implies (#[trigger] actions.table@[s])@
                    == later.rows[s] by {
                    if s < state {
                        assert(actions.table@[s] == actions_before.table@[s]);
                    }
                }
            }
            state += 1;
        }
        proof {
            assert forall|state: int, column: int|
                0 <= state < self.states@.len() && 0 <= column
                    <= self.grammar.token_count implies #[trigger] actions.table@[state]@[column]
                == self.cell(state, column) by {
                self.lemma_action_rows_row(self.states@.len(), state);
                let met = choose|met: Seq<Conflict>|
                    self.action_rows(self.states@.len()).rows[state] == (
                    #[trigger] self.action_row(state, met)).row;
                assert(crate::lalr::automaton::row_ok(
                    &self.grammar,
                    crate::lalr::automaton::kernel_sets(self.states@),
                    state,
                    self.transitions.token_table@[state]@,
                    self.transitions.non_terminal_table@[state]@,
                ));
                self.lemma_action_row_cell(state, met, column);
            }
        }
        (actions, gotos, conflicts)
    }
}

/// The rows of transitions of `state` are as long as the grammar says.
pub open spec fn row_ok_holds(automaton: &LalrAutomaton, state: int) -> bool {
    &&& automaton.transitions.token_table@[state]@.len() == automaton.grammar.token_count
    &&& automaton.transitions.non_terminal_table@[state]@.len()
        == automaton.grammar.non_terminal_count
}

} // verus!
