//! The automaton without lookaheads: the states reachable from the initial
//! kernel, and their transitions.

use crate::lalr::automaton::{
    initial_kernel, kernel_sets, row_ok, unique_kernels, LalrAutomaton,
};
use crate::lalr::{core_set, distinct_cores, items_ok, LalrItem, LalrState};
use crate::lookahead::{LookAheadGraph, LookAheadNodeRef};
use crate::slr::item::{closure_set, SlrItem};
use crate::symbolic_grammar::{SymbolicGrammar, SymbolicNonTerminal, SymbolicToken};
use vstd::prelude::*;

verus! {

#[derive(Debug)]
pub struct SlrState {
    pub kernel: Vec<SlrItem>,
    pub marked: bool,
}

/// The items of `items`.
pub open spec fn item_set(items: Seq<SlrItem>) -> Set<SlrItem> {
    Set::new(|item: SlrItem| items.contains(item))
}

/// The items of `items`, each with the node `node`.
fn with_node(items: &Vec<SlrItem>, node: LookAheadNodeRef) -> (res: Vec<LalrItem>)
    ensures
        res@.len() == items@.len(),
        forall|i: int|
            0 <= i < items@.len() ==> (#[trigger] res@[i]).core_item() == items@[i]
                && res@[i].lookahead_node == node,
        core_set(res@) == item_set(items@),
{
    let mut res: Vec<LalrItem> = Vec::new();
    let mut i: usize = 0;
    while i < items.len()
        invariant
            i <= items@.len(),
            res@.len() == i,
            forall|j: int|
                0 <= j < i ==> (#[trigger] res@[j]).core_item() == items@[j]
                    && res@[j].lookahead_node == node,
        decreases items@.len() - i,
    {
        res.push(
            LalrItem {
                production_id: items[i].production_id,
                marker_position: items[i].marker_position,
                lookahead_node: node,
            },
        );
        i += 1;
    }
    proof {
        assert forall|item: SlrItem| core_set(res@).contains(item) <==> item_set(items@).contains(
            item,
        ) by {
            if core_set(res@).contains(item) {
                let i = choose|i: int| 0 <= i < res@.len() && (#[trigger] res@[i]).core_item() == item;
                assert(items@[i] == item);
            }
            if items@.contains(item) {
                let i = choose|i: int| 0 <= i < items@.len() && items@[i] == item;
                assert(res@[i].core_item() == item);
            }
        }
        assert(core_set(res@) =~= item_set(items@));
    }
    res
}

/// The items of `items`, without their nodes.
fn without_nodes(items: &Vec<LalrItem>) -> (res: Vec<SlrItem>)
    ensures
        res@.len() == items@.len(),
        forall|i: int| 0 <= i < items@.len() ==> #[trigger] res@[i] == items@[i].core_item(),
        item_set(res@) == core_set(items@),
        distinct_cores(items@) ==> res@.no_duplicates(),
{
    let mut res: Vec<SlrItem> = Vec::new();
    let mut i: usize = 0;
    while i < items.len()
        invariant
            i <= items@.len(),
            res@.len() == i,
            forall|j: int| 0 <= j < i ==> #[trigger] res@[j] == items@[j].core_item(),
        decreases items@.len() - i,
    {
        res.push(
            SlrItem {
                production_id: items[i].production_id,
                marker_position: items[i].marker_position,
            },
        );
        i += 1;
    }
    proof {
        assert forall|item: SlrItem| item_set(res@).contains(item) <==> core_set(items@).contains(
            item,
        ) by {
            if res@.contains(item) {
                let i = choose|i: int| 0 <= i < res@.len() && res@[i] == item;
                assert(items@[i].core_item() == item);
            }
            if core_set(items@).contains(item) {
                let i = choose|i: int|
                    0 <= i < items@.len() && (#[trigger] items@[i]).core_item() == item;
                assert(res@[i] == item);
            }
        }
        assert(item_set(res@) =~= core_set(items@));
        if distinct_cores(items@) {
            assert forall|a: int, b: int| 0 <= a < res@.len() && 0 <= b < res@.len() && a
                != b implies res@[a] != res@[b] by {
                if a < b {
                    assert(items@[a].core_item() != items@[b].core_item());
                } else {
                    assert(items@[b].core_item() != items@[a].core_item());
                }
            }
        }
    }
    res
}

impl SlrState {
    /// The unmarked state of the given kernel.
    pub fn new(kernel: Vec<SlrItem>) -> (state: Self)
        ensures
            state.kernel == kernel,
            !state.marked,
    {
        Self { kernel, marked: false }
    }

    /// The closure of the kernel, the kernel first.
    pub fn closure(&self, grammar: &SymbolicGrammar) -> (res: Vec<SlrItem>)
        requires
            grammar.wf(),
            self.kernel@.no_duplicates(),
            forall|i: int| 0 <= i < self.kernel@.len() ==> (#[trigger] self.kernel@[i]).valid(grammar),
        ensures
            res@.no_duplicates(),
            self.kernel@.len() <= res@.len(),
            res@.subrange(0, self.kernel@.len() as int) == self.kernel@,
            item_set(res@) == closure_set(grammar, item_set(self.kernel@)),
    {
        let mut graph = LookAheadGraph::new(grammar.token_count);
        let node = LookAheadNodeRef::initial_lookahead_node(&mut graph);
        let kernel = with_node(&self.kernel, node);
        let state = LalrState::new(kernel);
        proof {
            assert(graph@.len() == graph.nodes@.len());
            assert forall|i: int| 0 <= i < state.kernel@.len() implies {
                &&& (#[trigger] state.kernel@[i]).core_item().valid(grammar)
                &&& graph.contains_node(state.kernel@[i].lookahead_node)
            } by {
                assert(self.kernel@[i].valid(grammar));
            }
            assert forall|i: int, j: int| 0 <= i < j < state.kernel@.len() implies (
            #[trigger] state.kernel@[i]).core_item() != (#[trigger] state.kernel@[j]).core_item() by {
                assert(self.kernel@[i] != self.kernel@[j]);
            }
        }
        let closure = state.closure(&mut graph, grammar);
        let res = without_nodes(&closure);
        proof {
            assert(res@.subrange(0, self.kernel@.len() as int) =~= self.kernel@) by {
                assert forall|i: int| 0 <= i < self.kernel@.len() implies res@[i]
                    == self.kernel@[i] by {
                    assert(closure@.take(self.kernel@.len() as int)[i] == closure@[i]);
                }
            }
        }
        res
    }
}

#[derive(Debug)]
pub struct SlrAutomaton {
    pub grammar: SymbolicGrammar,
    pub states: Vec<SlrState>,
    pub transitions: Vec<(Vec<Option<SymbolicToken>>, Vec<Option<SymbolicNonTerminal>>)>,
}

/// The kernels of the states.
pub open spec fn slr_kernel_sets(states: Seq<SlrState>) -> Seq<Set<SlrItem>> {
    Seq::new(states.len(), |s: int| item_set(states[s].kernel@))
}

fn copy_row(row: &Vec<Option<usize>>) -> (copy: Vec<Option<usize>>)
    ensures
        copy@ == row@,
{
    let mut copy: Vec<Option<usize>> = Vec::new();
    let mut i: usize = 0;
    while i < row.len()
        invariant
            i <= row@.len(),
            copy@ == row@.take(i as int),
        decreases row@.len() - i,
    {
        copy.push(row[i]);
        assert(copy@ =~= row@.take(i + 1));
        i += 1;
    }
    assert(row@.take(row@.len() as int) =~= row@);
    copy
}

impl SlrAutomaton {
    /// The automaton is complete: the first state has the initial kernel, no
    /// two states share a kernel, and every state is marked and has the
    /// transitions of its kernel.
    pub open spec fn wf(&self) -> bool {
        &&& self.grammar.wf()
        &&& self.states@.len() >= 1
        &&& self.transitions@.len() == self.states@.len()
        &&& slr_kernel_sets(self.states@)[0] == initial_kernel()
        &&& unique_kernels(slr_kernel_sets(self.states@))
        &&& forall|s: int|
            0 <= s < self.states@.len() ==> {
                &&& (#[trigger] self.states@[s]).marked
                &&& self.states@[s].kernel@.no_duplicates()
                &&& forall|i: int|
                    0 <= i < self.states@[s].kernel@.len() ==> (
                    #[trigger] self.states@[s].kernel@[i]).valid(&self.grammar)
            }
        &&& forall|s: int|
            0 <= s < self.states@.len() ==> row_ok(
                &self.grammar,
                slr_kernel_sets(self.states@),
                s,
                (#[trigger] self.transitions@[s]).0@,
                self.transitions@[s].1@,
            )
    }

    /// The automaton of `grammar`: that with lookaheads, with the lookaheads
    /// left out.
    pub fn compute(grammar: SymbolicGrammar) -> (automaton: Self)
        requires
            grammar.wf(),
        ensures
            automaton.wf(),
            automaton.grammar == grammar,
    {
        Self::without_lookaheads(LalrAutomaton::compute(grammar))
    }

    /// The states and transitions of `with_lookaheads`, the items without
    /// their lookahead nodes.
    pub fn without_lookaheads(with_lookaheads: LalrAutomaton) -> (automaton: Self)
        requires
            with_lookaheads.wf(),
        ensures
            automaton.wf(),
            automaton.grammar == with_lookaheads.grammar,
            automaton.states@.len() == with_lookaheads.states@.len(),
            slr_kernel_sets(automaton.states@) == kernel_sets(with_lookaheads.states@),
            forall|s: int|
                0 <= s < automaton.states@.len() ==> (#[trigger] automaton.transitions@[s]).0@
                    == with_lookaheads.transitions.token_table@[s]@ && automaton.transitions@[s].1@
                    == with_lookaheads.transitions.non_terminal_table@[s]@,
    {
        let ghost source = with_lookaheads;
        let ghost kernels = kernel_sets(source.states@);
        let LalrAutomaton { grammar, states: kernels_with_nodes, transitions: rows, graph, closures: _ } =
            with_lookaheads;
        let mut automaton = SlrAutomaton { grammar, states: Vec::new(), transitions: Vec::new() };
        let mut s: usize = 0;
        while s < kernels_with_nodes.len()
            invariant
                s <= kernels_with_nodes@.len(),
                source.wf(),
                kernels_with_nodes == source.states,
                rows == source.transitions,
                graph == source.graph,
                kernels == kernel_sets(source.states@),
                automaton.grammar == source.grammar,
                automaton.states@.len() == s,
                automaton.transitions@.len() == s,
                forall|e: int|
                    0 <= e < s ==> {
                        &&& (#[trigger] automaton.states@[e]).marked
                        &&& automaton.states@[e].kernel@.no_duplicates()
                        &&& item_set(automaton.states@[e].kernel@) == kernels[e]
                        &&& forall|i: int|
                            0 <= i < automaton.states@[e].kernel@.len() ==> (
                            #[trigger] automaton.states@[e].kernel@[i]).valid(&source.grammar)
                    },
                forall|e: int|
                    0 <= e < s ==> (#[trigger] automaton.transitions@[e]).0@
                        == source.transitions.token_table@[e]@ && automaton.transitions@[e].1@
                        == source.transitions.non_terminal_table@[e]@,
            decreases kernels_with_nodes@.len() - s,
        {
            let kernel = without_nodes(&kernels_with_nodes[s].kernel);
            proof {
                let items = source.states@[s as int].kernel@;
                assert(items_ok(items, &source.grammar, &source.graph));
                assert forall|i: int| 0 <= i < kernel@.len() implies (#[trigger] kernel@[i]).valid(
                    &source.grammar,
                ) by {
                    assert(items[i].core_item().valid(&source.grammar));
                }
            }
            let mut state = SlrState::new(kernel);
            state.marked = true;
            let ghost states_before = automaton.states@;
            let ghost transitions_before = automaton.transitions@;
            automaton.add_state(state);
            automaton.add_transitions(
                copy_row(&rows.token_table[s]),
                copy_row(&rows.non_terminal_table[s]),
            );
            proof {
                assert forall|e: int| 0 <= e < s + 1 implies {
                    &&& (#[trigger] automaton.states@[e]).marked
                    &&& automaton.states@[e].kernel@.no_duplicates()
                    &&& item_set(automaton.states@[e].kernel@) == kernels[e]
                    &&& forall|i: int|
                        0 <= i < automaton.states@[e].kernel@.len() ==> (
                        #[trigger] automaton.states@[e].kernel@[i]).valid(&source.grammar)
                } by {
                    if e < s {
                        assert(automaton.states@[e] == states_before[e]);
                    }
                }
                assert forall|e: int| 0 <= e < s + 1 implies (#[trigger] automaton.transitions@[e]).0@
                    == source.transitions.token_table@[e]@ && automaton.transitions@[e].1@
                    == source.transitions.non_terminal_table@[e]@ by {
                    if e < s {
                        assert(automaton.transitions@[e] == transitions_before[e]);
                    }
                }
            }
            s += 1;
        }
        proof {
            assert(slr_kernel_sets(automaton.states@) =~= kernels);
        }
        automaton
    }

    fn add_state(&mut self, state: SlrState)
        ensures
            final(self).states@ == old(self).states@.push(state),
            final(self).transitions == old(self).transitions,
            final(self).grammar == old(self).grammar,
    {
        self.states.push(state);
    }

    fn add_transitions(
        &mut self,
        token_transitions: Vec<Option<SymbolicToken>>,
        non_terminal_transitions: Vec<Option<SymbolicNonTerminal>>,
    )
        ensures
            final(self).transitions@ == old(self).transitions@.push(
                (token_transitions, non_terminal_transitions),
            ),
            final(self).states == old(self).states,
            final(self).grammar == old(self).grammar,
    {
        self.transitions.push((token_transitions, non_terminal_transitions));
    }
}

} // verus!
