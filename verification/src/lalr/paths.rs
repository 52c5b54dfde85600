//! Paths through a complete automaton: what the symbols on the way to a
//! state say of the items of the state.

use crate::lalr::automaton::{
    all_advanced, epsilon_ok, initial_kernel, kernel_sets, row_ok, states_ok, transition_ok,
    LalrAutomaton,
};
use crate::lalr::cells::{last_asked, lemma_last_asked_source};
use crate::lalr::{core_set, fresh_item, items_ok};
use crate::parsing::action::Action;
use crate::slr::item::{
    expands_to, goto_set, in_closure, is_derivation, lemma_closure_item_shape,
    lemma_kernel_in_closure, SlrItem,
};
use crate::symbolic_grammar::SymbolicSymbol;
use vstd::prelude::*;

verus! {

/// An item of a closure that is not the first of its derivation comes from
/// an item of the closure by a closure step.
pub proof fn lemma_closure_origin(
    grammar: &crate::symbolic_grammar::SymbolicGrammar,
    kernel: Set<SlrItem>,
    item: SlrItem,
) -> (from: SlrItem)
    requires
        in_closure(grammar, kernel, item),
        !kernel.contains(item),
    ensures
        in_closure(grammar, kernel, from),
        expands_to(grammar, from, item),
{
    let chain = choose|chain: Seq<SlrItem>| #[trigger]
        is_derivation(grammar, kernel, chain) && chain.last() == item;
    let shorter = chain.drop_last();
    assert(chain.len() > 1);
    assert(expands_to(grammar, chain[chain.len() - 2], chain[chain.len() - 1]));
    assert forall|i: int| 0 <= i < shorter.len() - 1 implies expands_to(
        grammar,
        #[trigger] shorter[i],
        shorter[i + 1],
    ) by {
        assert(expands_to(grammar, chain[i], chain[i + 1]));
    }
    assert(is_derivation(grammar, kernel, shorter));
    assert(shorter.last() == chain[chain.len() - 2]);
    chain[chain.len() - 2]
}

impl LalrAutomaton {
    /// `states` and `symbols` are a way through the automaton: from the
    /// initial state, over each symbol to the next state.
    pub open spec fn is_path(&self, states: Seq<usize>, symbols: Seq<SymbolicSymbol>) -> bool {
        &&& states.len() == symbols.len() + 1
        &&& states[0] == 0
        &&& forall|i: int|
            0 <= i < symbols.len() ==> self.transition(states[i] as int, #[trigger] symbols[i])
                == Some(states[i + 1]) && states[i] < self.states@.len()
    }

    /// The states of a path are states of the automaton.
    pub proof fn lemma_path_in_range(
        &self,
        states: Seq<usize>,
        symbols: Seq<SymbolicSymbol>,
        i: int,
    )
        requires
            self.wf(),
            self.is_path(states, symbols),
            0 <= i < states.len(),
        ensures
            states[i] < self.states@.len(),
    {
        if i > 0 {
            assert(self.transition(states[i - 1] as int, symbols[i - 1]) == Some(states[i]));
            self.lemma_transition_target(states[i - 1] as int, symbols[i - 1]);
        }
    }

    /// What an item of the last state of a path says of the path: the path
    /// is at least as long as the item has matched, its last symbols are
    /// the matched part of the body, and the state before them holds the
    /// item with nothing matched.
    pub proof fn lemma_path_spells_item(
        &self,
        states: Seq<usize>,
        symbols: Seq<SymbolicSymbol>,
        item: SlrItem,
    )
        requires
            self.wf(),
            self.is_path(states, symbols),
            in_closure(&self.grammar, kernel_sets(self.states@)[states.last() as int], item),
        ensures
            item.marker_position <= symbols.len(),
            forall|k: int|
                0 <= k < item.marker_position ==> #[trigger] symbols[symbols.len()
                    - item.marker_position + k] == item.body(&self.grammar)[k],
            in_closure(
                &self.grammar,
                kernel_sets(self.states@)[states[symbols.len() - item.marker_position] as int],
                SlrItem { production_id: item.production_id, marker_position: 0 },
            ),
        decreases item.marker_position,
    {
        let kernels = kernel_sets(self.states@);
        let last = states.last() as int;
        self.lemma_path_in_range(states, symbols, states.len() - 1);
        if item.marker_position > 0 {
            lemma_closure_item_shape(&self.grammar, kernels[last], item);
            assert(kernels[last].contains(item));
            if symbols.len() == 0 {
                assert(kernels[0] == initial_kernel());
            } else {
                let depth = symbols.len() as int;
                let before = states[depth - 1] as int;
                let over = symbols[depth - 1];
                assert(self.transition(before, over) == Some(states[depth]));
                self.lemma_transition_target(before, over);
                assert(goto_set(&self.grammar, kernels[before], over).contains(item));
                let earlier = item.retreated();
                let shorter_states = states.drop_last();
                let shorter_symbols = symbols.drop_last();
                assert(self.is_path(shorter_states, shorter_symbols)) by {
                    assert forall|i: int| 0 <= i < shorter_symbols.len() implies self.transition(
                        shorter_states[i] as int,
                        #[trigger] shorter_symbols[i],
                    ) == Some(shorter_states[i + 1]) && shorter_states[i] < self.states@.len() by {
                        assert(self.transition(states[i] as int, symbols[i]) == Some(
                            states[i + 1],
                        ));
                    }
                }
                self.lemma_path_spells_item(shorter_states, shorter_symbols, earlier);
                assert forall|k: int| 0 <= k < item.marker_position implies #[trigger] symbols[depth
                    - item.marker_position + k] == item.body(&self.grammar)[k] by {
                    if k < item.marker_position - 1 {
                        assert(shorter_symbols[shorter_symbols.len() - earlier.marker_position
                            + k] == earlier.body(&self.grammar)[k]);
                    }
                }
            }
        }
    }

    /// A state whose closure holds the fresh item of a production has a
    /// transition over the head of the production.
    pub proof fn lemma_goto_exists(&self, state: int, production: int)
        requires
            self.wf(),
            0 <= state < self.states@.len(),
            0 <= production < self.grammar.productions@.len(),
            in_closure(&self.grammar, kernel_sets(self.states@)[state], fresh_item(production)),
        ensures
            self.transition(
                state,
                SymbolicSymbol::NonTerminal(self.grammar.productions@[production].head),
            ) is Some,
    {
        let kernels = kernel_sets(self.states@);
        let fresh = fresh_item(production);
        let head = self.grammar.productions@[production].head;
        assert(self.grammar.productions.len() == self.grammar.productions@.len());
        if kernels[state].contains(fresh) {
            if state == 0 {
                assert(kernels[0] == initial_kernel());
            } else {
                let items = self.states@[state].kernel@;
                assert(all_advanced(items));
                let i = choose|i: int| 0 <= i < items.len() && (#[trigger] items[i]).core_item() == fresh;
                assert(items[i].marker_position > 0);
            }
        }
        let from = lemma_closure_origin(&self.grammar, kernels[state], fresh);
        let moved = from.advanced();
        let origin = self.grammar.production_spec(from.production_id).unwrap();
        assert(origin.body.len() == origin.body@.len());
        assert(from.marker_position < origin.body@.len());
        assert(from.pointed(&self.grammar) == Some(SymbolicSymbol::NonTerminal(head)));
        assert(moved.retreated() == from);
        assert(goto_set(
            &self.grammar,
            kernels[state],
            SymbolicSymbol::NonTerminal(head),
        ).contains(moved));
        assert(row_ok(
            &self.grammar,
            kernels,
            state,
            self.transitions.token_table@[state]@,
            self.transitions.non_terminal_table@[state]@,
        ));
        assert(transition_ok(
            &self.grammar,
            kernels,
            state,
            SymbolicSymbol::NonTerminal(head as int as usize),
            self.transitions.non_terminal_table@[state]@[head as int],
        ));
    }

    /// A cell that reduces by a production stands in a state whose closure
    /// holds the item of the production with everything matched.
    pub proof fn lemma_reduce_cell_item(&self, state: int, column: int, production: usize) -> (item:
        SlrItem)
        requires
            self.wf(),
            0 <= state < self.states@.len(),
            0 <= column <= self.grammar.token_count,
            self.cell(state, column) == Some(Action::Reduce(production)),
        ensures
            item.production_id == production,
            item.valid(&self.grammar),
            item.marker_position == item.body(&self.grammar).len(),
            in_closure(&self.grammar, kernel_sets(self.states@)[state], item),
    {
        let kernel = self.states@[state].kernel@;
        let epsilon_items = self.states@[state].epsilon_items@;
        let kernels = kernel_sets(self.states@);
        assert(states_ok(self.states@, &self.grammar, &self.graph));
        let from_epsilon = last_asked(
            &self.grammar,
            self.graph@,
            epsilon_items,
            false,
            epsilon_items.len(),
            column,
        );
        if from_epsilon is Some {
            let i = lemma_last_asked_source(
                &self.grammar,
                self.graph@,
                epsilon_items,
                false,
                epsilon_items.len(),
                column,
            );
            assert(epsilon_ok(&self.grammar, core_set(kernel), epsilon_items));
            assert(core_set(epsilon_items).contains(epsilon_items[i].core_item()));
            assert(items_ok(epsilon_items, &self.grammar, &self.graph));
            assert(epsilon_items[i].core_item().body(&self.grammar).len() == 0);
            epsilon_items[i].core_item()
        } else {
            let i = lemma_last_asked_source(
                &self.grammar,
                self.graph@,
                kernel,
                true,
                kernel.len(),
                column,
            );
            assert(items_ok(kernel, &self.grammar, &self.graph));
            assert(core_set(kernel).contains(kernel[i].core_item()));
            lemma_kernel_in_closure(&self.grammar, kernels[state], kernel[i].core_item());
            kernel[i].core_item()
        }
    }
}

} // verus!
