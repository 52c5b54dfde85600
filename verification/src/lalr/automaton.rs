//! Construction of the automaton: the states reachable from the initial
//! kernel, their transitions, and the lookahead graph of their items.

use crate::lalr::bound::{lemma_state_bound, state_bound};
use crate::lalr::{
    closure_flows, core_set, distinct_cores, flows, items_ok, lemma_core_set_push,
    lemma_flows_kept, lemma_items_ok_grow, lemma_items_ok_push, same_kernel, LalrItem,
    LalrState,
};
use crate::lookahead::{
    graph_extends, has_edge, lemma_edge_kept, lemma_extends_transitive, LookAheadGraph,
    LookAheadNodeRef, NodeView,
};
use crate::parsing::tables::TransitionTables;
use crate::slr::item::{closure_set, expands_to, goto_set, in_closure, SlrItem};
use crate::symbolic_grammar::{SymbolicGrammar, SymbolicSymbol, SPECIAL_ID};
use vstd::prelude::*;

verus! {

pub struct LalrAutomaton {
    pub grammar: SymbolicGrammar,
    pub states: Vec<LalrState>,
    pub transitions: TransitionTables,
    pub graph: LookAheadGraph,
    /// The closure of each state that has its transitions, as it was when
    /// the transitions were made.
    pub closures: Ghost<Seq<Seq<LalrItem>>>,
}

/// The item `item`, moved over `symbol`, is in the kernel of the target, and
/// the node of the item there is the node of `item` or depends on it.
pub open spec fn link_ok(
    graph: Seq<NodeView>,
    states: Seq<LalrState>,
    item: LalrItem,
    target: Option<usize>,
) -> bool {
    match target {
        Some(to) => to < states.len() && exists|k: int|
            0 <= k < states[to as int].kernel@.len() && (
            #[trigger] states[to as int].kernel@[k]).core_item() == item.core_item().advanced()
                && (states[to as int].kernel@[k].lookahead_node == item.lookahead_node || has_edge(
                graph,
                states[to as int].kernel@[k].lookahead_node.0 as int,
                item.lookahead_node.0 as int,
            )),
        None => false,
    }
}

/// Each item of `closure` whose marker stands before `symbol` is linked to
/// the target.
pub open spec fn links_ok(
    grammar: &SymbolicGrammar,
    graph: Seq<NodeView>,
    states: Seq<LalrState>,
    closure: Seq<LalrItem>,
    symbol: SymbolicSymbol,
    target: Option<usize>,
) -> bool {
    forall|i: int|
        0 <= i < closure.len() && (#[trigger] closure[i]).core_item().pointed(grammar) == Some(
            symbol,
        ) ==> link_ok(graph, states, closure[i], target)
}

proof fn lemma_links_kept(
    grammar: &SymbolicGrammar,
    earlier: Seq<NodeView>,
    later: Seq<NodeView>,
    states: Seq<LalrState>,
    more: Seq<LalrState>,
    closure: Seq<LalrItem>,
    symbol: SymbolicSymbol,
    target: Option<usize>,
)
    requires
        links_ok(grammar, earlier, states, closure, symbol, target),
        graph_extends(earlier, later),
        states.len() <= more.len(),
        forall|s: int| 0 <= s < states.len() ==> (#[trigger] more[s]).kernel@ == states[s].kernel@,
    ensures
        links_ok(grammar, later, more, closure, symbol, target),
{
    assert forall|i: int|
        0 <= i < closure.len() && (#[trigger] closure[i]).core_item().pointed(grammar) == Some(
            symbol,
        ) implies link_ok(later, more, closure[i], target) by {
        assert(link_ok(earlier, states, closure[i], target));
        let to = target->Some_0 as int;
        let k = choose|k: int|
            0 <= k < states[to].kernel@.len() && (#[trigger] states[to].kernel@[k]).core_item()
                == closure[i].core_item().advanced() && (states[to].kernel@[k].lookahead_node
                == closure[i].lookahead_node || has_edge(
                earlier,
                states[to].kernel@[k].lookahead_node.0 as int,
                closure[i].lookahead_node.0 as int,
            ));
        assert(more[to].kernel@ == states[to].kernel@);
        if states[to].kernel@[k].lookahead_node != closure[i].lookahead_node {
            lemma_edge_kept(
                earlier,
                later,
                states[to].kernel@[k].lookahead_node.0 as int,
                closure[i].lookahead_node.0 as int,
            );
        }
        assert(more[to].kernel@[k].core_item() == closure[i].core_item().advanced());
    }
}

proof fn lemma_closure_flows_kept(
    grammar: &SymbolicGrammar,
    earlier: Seq<NodeView>,
    later: Seq<NodeView>,
    closure: Seq<LalrItem>,
)
    requires
        closure_flows(grammar, earlier, closure),
        graph_extends(earlier, later),
    ensures
        closure_flows(grammar, later, closure),
{
    assert forall|i: int, j: int|
        0 <= i < closure.len() && 0 <= j < closure.len() && #[trigger] expands_to(
            grammar,
            closure[i].core_item(),
            closure[j].core_item(),
        ) implies flows(grammar, later, closure[i], closure[j].lookahead_node) by {
        lemma_flows_kept(grammar, earlier, later, closure[i], closure[j].lookahead_node);
    }
}

/// The kernels of the states, without lookahead nodes.
pub open spec fn kernel_sets(states: Seq<LalrState>) -> Seq<Set<SlrItem>> {
    Seq::new(states.len(), |s: int| core_set(states[s].kernel@))
}

/// The kernel that an automaton starts from: the augmenting production with
/// nothing matched.
pub open spec fn initial_kernel() -> Set<SlrItem> {
    set![SlrItem { production_id: SPECIAL_ID, marker_position: 0 }]
}

/// No two states share a kernel.
pub open spec fn unique_kernels(kernels: Seq<Set<SlrItem>>) -> bool {
    forall|a: int, b: int|
        0 <= a < b < kernels.len() ==> #[trigger] kernels[a] != #[trigger] kernels[b]
}

/// `target` is where the automaton goes from state `from` over `symbol`: the
/// state whose kernel is the goto set, or none where that set is empty.
pub open spec fn transition_ok(
    grammar: &SymbolicGrammar,
    kernels: Seq<Set<SlrItem>>,
    from: int,
    symbol: SymbolicSymbol,
    target: Option<usize>,
) -> bool {
    match target {
        Some(to) => to < kernels.len() && kernels[to as int] == goto_set(
            grammar,
            kernels[from],
            symbol,
        ),
        None => goto_set(grammar, kernels[from], symbol) == Set::<SlrItem>::empty(),
    }
}

/// The two rows hold the transitions of state `from` over every symbol.
pub open spec fn row_ok(
    grammar: &SymbolicGrammar,
    kernels: Seq<Set<SlrItem>>,
    from: int,
    token_row: Seq<Option<usize>>,
    non_terminal_row: Seq<Option<usize>>,
) -> bool {
    &&& token_row.len() == grammar.token_count
    &&& non_terminal_row.len() == grammar.non_terminal_count
    &&& forall|t: int|
        0 <= t < token_row.len() ==> transition_ok(
            grammar,
            kernels,
            from,
            SymbolicSymbol::Token(t as usize),
            #[trigger] token_row[t],
        )
    &&& forall|n: int|
        0 <= n < non_terminal_row.len() ==> transition_ok(
            grammar,
            kernels,
            from,
            SymbolicSymbol::NonTerminal(n as usize),
            #[trigger] non_terminal_row[n],
        )
}

/// `epsilon_items` holds the items of the closure of `kernel` whose
/// production has an empty body, each once.
pub open spec fn epsilon_ok(
    grammar: &SymbolicGrammar,
    kernel: Set<SlrItem>,
    epsilon_items: Seq<LalrItem>,
) -> bool {
    &&& distinct_cores(epsilon_items)
    &&& forall|item: SlrItem|
        core_set(epsilon_items).contains(item) <==> in_closure(grammar, kernel, item)
            && #[trigger] item.body(grammar).len() == 0
}

/// Each state has a kernel of distinct items of the grammar, and the nodes of
/// its items are nodes of the graph.
pub open spec fn states_ok(
    states: Seq<LalrState>,
    grammar: &SymbolicGrammar,
    graph: &LookAheadGraph,
) -> bool {
    forall|s: int|
        0 <= s < states.len() ==> {
            &&& items_ok((#[trigger] states[s]).kernel@, grammar, graph)
            &&& items_ok(states[s].epsilon_items@, grammar, graph)
            &&& distinct_cores(states[s].kernel@)
            &&& states[s].kernel@.len() > 0
        }
}

/// Every item has matched something.
pub open spec fn all_advanced(items: Seq<LalrItem>) -> bool {
    forall|i: int| 0 <= i < items.len() ==> (#[trigger] items[i]).marker_position > 0
}

proof fn lemma_states_ok_grow(
    states: Seq<LalrState>,
    grammar: &SymbolicGrammar,
    before: &LookAheadGraph,
    after: &LookAheadGraph,
)
    requires
        states_ok(states, grammar, before),
        before.nodes@.len() <= after.nodes@.len(),
    ensures
        states_ok(states, grammar, after),
{
    assert forall|s: int| 0 <= s < states.len() implies {
        &&& items_ok((#[trigger] states[s]).kernel@, grammar, after)
        &&& items_ok(states[s].epsilon_items@, grammar, after)
        &&& distinct_cores(states[s].kernel@)
        &&& states[s].kernel@.len() > 0
    } by {
        lemma_items_ok_grow(states[s].kernel@, grammar, before, after);
        lemma_items_ok_grow(states[s].epsilon_items@, grammar, before, after);
    }
}

proof fn lemma_transition_ok_grow(
    grammar: &SymbolicGrammar,
    before: Seq<Set<SlrItem>>,
    after: Seq<Set<SlrItem>>,
    from: int,
    symbol: SymbolicSymbol,
    target: Option<usize>,
)
    requires
        0 <= from < before.len() <= after.len(),
        forall|s: int| 0 <= s < before.len() ==> #[trigger] after[s] == before[s],
        transition_ok(grammar, before, from, symbol, target),
    ensures
        transition_ok(grammar, after, from, symbol, target),
{
}

proof fn lemma_row_ok_grow(
    grammar: &SymbolicGrammar,
    before: Seq<Set<SlrItem>>,
    after: Seq<Set<SlrItem>>,
    from: int,
    token_row: Seq<Option<usize>>,
    non_terminal_row: Seq<Option<usize>>,
)
    requires
        0 <= from < before.len() <= after.len(),
        forall|s: int| 0 <= s < before.len() ==> #[trigger] after[s] == before[s],
        row_ok(grammar, before, from, token_row, non_terminal_row),
    ensures
        row_ok(grammar, after, from, token_row, non_terminal_row),
{
    assert forall|t: int| 0 <= t < token_row.len() implies transition_ok(
        grammar,
        after,
        from,
        SymbolicSymbol::Token(t as usize),
        #[trigger] token_row[t],
    ) by {
        lemma_transition_ok_grow(
            grammar,
            before,
            after,
            from,
            SymbolicSymbol::Token(t as usize),
            token_row[t],
        );
    }
    assert forall|n: int| 0 <= n < non_terminal_row.len() implies transition_ok(
        grammar,
        after,
        from,
        SymbolicSymbol::NonTerminal(n as usize),
        #[trigger] non_terminal_row[n],
    ) by {
        lemma_transition_ok_grow(
            grammar,
            before,
            after,
            from,
            SymbolicSymbol::NonTerminal(n as usize),
            non_terminal_row[n],
        );
    }
}

/// The items of `closure` whose marker stands before `symbol`, with the
/// marker moved over it. Each keeps its lookahead node.
fn successor_kernel(
    closure: &Vec<LalrItem>,
    grammar: &SymbolicGrammar,
    symbol: SymbolicSymbol,
    graph: &LookAheadGraph,
) -> (res: Vec<LalrItem>)
    requires
        grammar.wf(),
        items_ok(closure@, grammar, graph),
        distinct_cores(closure@),
    ensures
        items_ok(res@, grammar, graph),
        distinct_cores(res@),
        all_advanced(res@),
        forall|item: SlrItem|
            core_set(res@).contains(item) <==> item.marker_position > 0 && core_set(
                closure@,
            ).contains(item.retreated()) && #[trigger] item.retreated().pointed(grammar) == Some(
                symbol,
            ),
        forall|j: int|
            0 <= j < closure@.len() && (#[trigger] closure@[j]).core_item().pointed(grammar)
                == Some(symbol) ==> has_moved(res@, closure@[j]),
{
    let mut res: Vec<LalrItem> = Vec::new();
    let ghost mut source: Seq<int> = Seq::empty();
    let mut i: usize = 0;
    while i < closure.len()
        invariant
            i <= closure@.len(),
            grammar.wf(),
            items_ok(closure@, grammar, graph),
            distinct_cores(closure@),
            items_ok(res@, grammar, graph),
            all_advanced(res@),
            source.len() == res@.len(),
            forall|r: int|
                0 <= r < res@.len() ==> {
                    &&& 0 <= #[trigger] source[r] < i
                    &&& res@[r].core_item() == closure@[source[r]].core_item().advanced()
                    &&& res@[r].core_item().retreated() == closure@[source[r]].core_item()
                    &&& closure@[source[r]].core_item().pointed(grammar) == Some(symbol)
                },
            forall|a: int, b: int| 0 <= a < b < source.len() ==> source[a] < source[b],
            forall|j: int|
                0 <= j < i && (#[trigger] closure@[j]).core_item().pointed(grammar) == Some(symbol)
                    ==> core_set(res@).contains(closure@[j].core_item().advanced()),
            forall|j: int|
                0 <= j < i && (#[trigger] closure@[j]).core_item().pointed(grammar) == Some(symbol)
                    ==> has_moved(res@, closure@[j]),
        decreases closure@.len() - i,
    {
        let item = closure[i];
        assert(item.core_item().valid(grammar));
        let pointed = item.pointed_symbol(grammar);
        let matches = match pointed {
            Some(found) => found == symbol,
            None => false,
        };
        assert(matches == (item.core_item().pointed(grammar) == Some(symbol)));
        if matches {
            let ghost before = res@;
            let ghost source_before = source;
            let production = grammar.get_production(item.production_id).unwrap();
            assert(item.marker_position < production.body.len());
            let mut moved = item;
            moved.move_marker();
            res.push(moved);
            proof {
                source = source.push(i as int);
                assert(moved.core_item().retreated() == item.core_item());
                assert forall|r: int| 0 <= r < res@.len() implies {
                    &&& 0 <= #[trigger] source[r] < i + 1
                    &&& res@[r].core_item() == closure@[source[r]].core_item().advanced()
                    &&& res@[r].core_item().retreated() == closure@[source[r]].core_item()
                    &&& closure@[source[r]].core_item().pointed(grammar) == Some(symbol)
                } by {
                    if r < before.len() {
                        assert(res@[r] == before[r]);
                        assert(source[r] == source_before[r]);
                    }
                }
                assert forall|r: int| 0 <= r < res@.len() implies (
                #[trigger] res@[r]).marker_position > 0 by {
                    if r < before.len() {
                        assert(res@[r] == before[r]);
                    }
                }
                lemma_items_ok_push(before, moved, grammar, graph);
                lemma_core_set_push(before, moved);
                assert forall|j: int|
                    0 <= j < i + 1 && (#[trigger] closure@[j]).core_item().pointed(grammar) == Some(
                        symbol,
                    ) implies core_set(res@).contains(closure@[j].core_item().advanced()) by {
                    if j < i {
                        assert(core_set(before).contains(closure@[j].core_item().advanced()));
                    }
                }
                assert forall|j: int|
                    0 <= j < i + 1 && (#[trigger] closure@[j]).core_item().pointed(grammar) == Some(
                        symbol,
                    ) implies has_moved(res@, closure@[j]) by {
                    if j < i {
                        assert(has_moved(before, closure@[j]));
                        let r = choose|r: int|
                            0 <= r < before.len() && (#[trigger] before[r]).core_item()
                                == closure@[j].core_item().advanced() && before[r].lookahead_node
                                == closure@[j].lookahead_node;
                        assert(res@[r] == before[r]);
                    } else {
                        assert(res@[before.len() as int] == moved);
                    }
                }
            }
        }
        i += 1;
    }
    proof {
        assert forall|a: int, b: int| 0 <= a < b < res@.len() implies (
        #[trigger] res@[a]).core_item() != (#[trigger] res@[b]).core_item() by {
            assert(source[a] < source[b]);
            assert(closure@[source[a]].core_item() != closure@[source[b]].core_item());
        }
        assert forall|item: SlrItem|
            core_set(res@).contains(item) <==> item.marker_position > 0 && core_set(
                closure@,
            ).contains(item.retreated()) && #[trigger] item.retreated().pointed(grammar) == Some(
                symbol,
            ) by {
            if core_set(res@).contains(item) {
                let r = choose|r: int| 0 <= r < res@.len() && (#[trigger] res@[r]).core_item() == item;
                assert(closure@[source[r]].core_item() == item.retreated());
            }
            if item.marker_position > 0 && core_set(closure@).contains(item.retreated())
                && item.retreated().pointed(grammar) == Some(symbol) {
                let j = choose|j: int|
                    0 <= j < closure@.len() && (#[trigger] closure@[j]).core_item()
                        == item.retreated();
                assert(closure@[j].core_item().advanced() == item);
            }
        }
    }
    res
}

/// The symbol behind the marker of an item of a grammar is a symbol of the
/// grammar.
pub proof fn lemma_pointed_in_range(grammar: &SymbolicGrammar, item: SlrItem)
    requires
        grammar.wf(),
        item.valid(grammar),
    ensures
        item.pointed(grammar) is Some ==> grammar.symbol_in_range(item.pointed(grammar)->Some_0),
{
    if item.pointed(grammar) is Some {
        if item.production_id != SPECIAL_ID {
            assert(grammar.symbols_in_range(grammar.productions@[item.production_id as int].body@));
        }
    }
}

/// `items` holds `item` with its marker moved over one symbol, and with its
/// node.
pub open spec fn has_moved(items: Seq<LalrItem>, item: LalrItem) -> bool {
    exists|r: int|
        0 <= r < items.len() && (#[trigger] items[r]).core_item() == item.core_item().advanced()
            && items[r].lookahead_node == item.lookahead_node
}

/// The items of `closure` whose production has an empty body.
fn epsilon_items_of(closure: &Vec<LalrItem>, grammar: &SymbolicGrammar, graph: &LookAheadGraph) -> (res:
    Vec<LalrItem>)
    requires
        grammar.wf(),
        items_ok(closure@, grammar, graph),
        distinct_cores(closure@),
    ensures
        items_ok(res@, grammar, graph),
        distinct_cores(res@),
        forall|item: SlrItem|
            core_set(res@).contains(item) <==> core_set(closure@).contains(item)
                && #[trigger] item.body(grammar).len() == 0,
        forall|r: int| 0 <= r < res@.len() ==> closure@.contains(#[trigger] res@[r]),
{
    let mut res: Vec<LalrItem> = Vec::new();
    let ghost mut source: Seq<int> = Seq::empty();
    let mut i: usize = 0;
    while i < closure.len()
        invariant
            i <= closure@.len(),
            grammar.wf(),
            items_ok(closure@, grammar, graph),
            distinct_cores(closure@),
            items_ok(res@, grammar, graph),
            source.len() == res@.len(),
            forall|r: int|
                0 <= r < res@.len() ==> {
                    &&& 0 <= #[trigger] source[r] < i
                    &&& res@[r] == closure@[source[r]]
                    &&& res@[r].core_item().body(grammar).len() == 0
                },
            forall|a: int, b: int| 0 <= a < b < source.len() ==> source[a] < source[b],
            forall|j: int|
                0 <= j < i && (#[trigger] closure@[j]).core_item().body(grammar).len() == 0
                    ==> core_set(res@).contains(closure@[j].core_item()),
        decreases closure@.len() - i,
    {
        let item = closure[i];
        assert(item.core_item().valid(grammar));
        let production = grammar.get_production(item.production_id).unwrap();
        if production.arity() == 0 {
            let ghost before = res@;
            res.push(item);
            proof {
                source = source.push(i as int);
                lemma_items_ok_push(before, item, grammar, graph);
                lemma_core_set_push(before, item);
                assert forall|j: int|
                    0 <= j < i + 1 && (#[trigger] closure@[j]).core_item().body(grammar).len()
                        == 0 implies core_set(res@).contains(closure@[j].core_item()) by {
                    if j < i {
                        assert(core_set(before).contains(closure@[j].core_item()));
                    }
                }
            }
        }
        i += 1;
    }
    proof {
        assert forall|a: int, b: int| 0 <= a < b < res@.len() implies (
        #[trigger] res@[a]).core_item() != (#[trigger] res@[b]).core_item() by {
            assert(source[a] < source[b]);
            assert(closure@[source[a]].core_item() != closure@[source[b]].core_item());
        }
        assert forall|r: int| 0 <= r < res@.len() implies closure@.contains(#[trigger] res@[r]) by {
            assert(closure@[source[r]] == res@[r]);
        }
        assert forall|item: SlrItem|
            core_set(res@).contains(item) <==> core_set(closure@).contains(item)
                && #[trigger] item.body(grammar).len() == 0 by {
            if core_set(res@).contains(item) {
                let r = choose|r: int| 0 <= r < res@.len() && (#[trigger] res@[r]).core_item() == item;
                assert(closure@[source[r]].core_item() == item);
            }
            if core_set(closure@).contains(item) && item.body(grammar).len() == 0 {
                let j = choose|j: int|
                    0 <= j < closure@.len() && (#[trigger] closure@[j]).core_item() == item;
                assert(core_set(res@).contains(closure@[j].core_item()));
            }
        }
    }
    res
}

/// The first state with the kernel `kernel`, if there is one.
fn find_state(states: &Vec<LalrState>, kernel: &Vec<LalrItem>) -> (found: Option<usize>)
    ensures
        match found {
            Some(s) => {
                &&& s < states@.len()
                &&& core_set(states@[s as int].kernel@) == core_set(kernel@)
                &&& forall|e: int|
                    0 <= e < s ==> core_set((#[trigger] states@[e]).kernel@) != core_set(kernel@)
            },
            None => forall|e: int|
                0 <= e < states@.len() ==> core_set((#[trigger] states@[e]).kernel@) != core_set(
                    kernel@,
                ),
        },
{
    let mut s: usize = 0;
    while s < states.len()
        invariant
            s <= states@.len(),
            forall|e: int|
                0 <= e < s ==> core_set((#[trigger] states@[e]).kernel@) != core_set(kernel@),
        decreases states@.len() - s,
    {
        if same_kernel(&states[s].kernel, kernel) {
            return Some(s);
        }
        s += 1;
    }
    None
}

/// The position in `items` of the item with the production and marker of
/// `item`.
fn position_of(items: &Vec<LalrItem>, item: &LalrItem) -> (found: Option<usize>)
    ensures
        match found {
            Some(i) => i < items@.len() && items@[i as int].core_item() == item.core_item(),
            None => !core_set(items@).contains(item.core_item()),
        },
{
    let mut i: usize = 0;
    while i < items.len()
        invariant
            i <= items@.len(),
            forall|j: int| 0 <= j < i ==> (#[trigger] items@[j]).core_item() != item.core_item(),
        decreases items@.len() - i,
    {
        if items[i].production_id == item.production_id && items[i].marker_position
            == item.marker_position {
            return Some(i);
        }
        i += 1;
    }
    None
}

/// Each item of `there` has the node of its counterpart in `arriving` as a
/// dependency.
pub open spec fn merged_into(
    graph: Seq<NodeView>,
    there: Seq<LalrItem>,
    arriving: Seq<LalrItem>,
    upto: int,
) -> bool {
    forall|a: int, e: int|
        0 <= a < upto && a < arriving.len() && 0 <= e < there.len() && (
        #[trigger] there[e]).core_item() == (#[trigger] arriving[a]).core_item() ==> has_edge(
            graph,
            there[e].lookahead_node.0 as int,
            arriving[a].lookahead_node.0 as int,
        )
}

impl LalrAutomaton {
    /// What holds of the states at every moment of the construction.
    pub open spec fn base_ok(&self) -> bool {
        &&& self.grammar.wf()
        &&& self.graph.wf()
        &&& self.graph.token_count == self.grammar.token_count
        &&& self.states@.len() >= 1
        &&& states_ok(self.states@, &self.grammar, &self.graph)
        &&& kernel_sets(self.states@)[0] == initial_kernel()
        &&& forall|s: int| 0 < s < self.states@.len() ==> all_advanced((#[trigger] self.states@[s]).kernel@)
        &&& unique_kernels(kernel_sets(self.states@))
    }

    /// The first `count` states have their rows of transitions.
    pub open spec fn rows_ok(&self, count: int) -> bool {
        &&& 0 <= count <= self.states@.len()
        &&& self.transitions.token_table@.len() == count
        &&& self.transitions.non_terminal_table@.len() == count
        &&& forall|s: int|
            0 <= s < count ==> row_ok(
                &self.grammar,
                kernel_sets(self.states@),
                s,
                (#[trigger] self.transitions.token_table@[s])@,
                self.transitions.non_terminal_table@[s]@,
            )
    }

    /// The first `count` states are marked and have their epsilon items; the
    /// others are as they were made.
    pub open spec fn marks_ok(&self, count: int) -> bool {
        &&& forall|s: int|
            0 <= s < count && s < self.states@.len() ==> (#[trigger] self.states@[s]).marked
                && epsilon_ok(
                &self.grammar,
                core_set(self.states@[s].kernel@),
                self.states@[s].epsilon_items@,
            )
        &&& forall|s: int|
            count <= s < self.states@.len() ==> !(#[trigger] self.states@[s]).marked
                && self.states@[s].epsilon_items@.len() == 0
    }

    /// The state that the automaton goes to from `state` over `symbol`.
    pub open spec fn transition(&self, state: int, symbol: SymbolicSymbol) -> Option<usize> {
        match symbol {
            SymbolicSymbol::Token(t) => if t < self.grammar.token_count {
                self.transitions.token_table@[state]@[t as int]
            } else {
                None
            },
            SymbolicSymbol::NonTerminal(n) => if n < self.grammar.non_terminal_count {
                self.transitions.non_terminal_table@[state]@[n as int]
            } else {
                None
            },
            SymbolicSymbol::EOF => None,
        }
    }

    /// The state that the automaton goes to from `state` over the symbol of
    /// rank `rank`: the terminals come first, then the non-terminals.
    pub open spec fn step(&self, state: int, rank: int) -> Option<usize> {
        if 0 <= rank < self.grammar.token_count {
            self.transitions.token_table@[state]@[rank]
        } else if self.grammar.token_count <= rank < self.grammar.token_count
            + self.grammar.non_terminal_count {
            self.transitions.non_terminal_table@[state]@[rank - self.grammar.token_count]
        } else {
            None
        }
    }

    /// The transition from `state` over the symbol of rank `rank`, as far as
    /// it is recorded: the first `count` states have their rows, and state
    /// `count` has the transitions of `pending`.
    pub open spec fn recorded(
        &self,
        count: int,
        pending: Seq<Option<usize>>,
        state: int,
        rank: int,
    ) -> Option<usize> {
        if 0 <= state < count {
            self.step(state, rank)
        } else if state == count && 0 <= rank < pending.len() {
            pending[rank]
        } else {
            None
        }
    }

    /// States are numbered in the order in which the recorded transitions
    /// reach them, taken state by state and rank by rank: each state but
    /// the first is reached from an earlier state, and of two states the
    /// one with the smaller number is reached first.
    pub open spec fn discovery_ok(&self, count: int, pending: Seq<Option<usize>>) -> bool {
        &&& forall|state: int, rank: int|
            (#[trigger] self.recorded(count, pending, state, rank)) is Some ==> self.recorded(
                count,
                pending,
                state,
                rank,
            )->Some_0 < self.states@.len()
        &&& forall|j: int| 1 <= j < self.states@.len() ==> #[trigger] self.reached(count, pending, j)
        &&& forall|j: int, state: int, rank: int|
            self.recorded(count, pending, state, rank) is Some && 1 <= j < self.recorded(
                count,
                pending,
                state,
                rank,
            )->Some_0 ==> #[trigger] self.reached_before(count, pending, j, state, rank)
    }

    /// A recorded transition from an earlier state leads to state `j`.
    pub open spec fn reached(&self, count: int, pending: Seq<Option<usize>>, j: int) -> bool {
        exists|state: int, rank: int|
            state < j && #[trigger] self.recorded(count, pending, state, rank) == Some(j as usize)
    }

    /// A recorded transition that comes before the one from `state` over the
    /// rank `rank` leads to state `j`.
    pub open spec fn reached_before(
        &self,
        count: int,
        pending: Seq<Option<usize>>,
        j: int,
        state: int,
        rank: int,
    ) -> bool {
        exists|from: int, over: int|
            (from < state || (from == state && over < rank)) && #[trigger] self.recorded(
                count,
                pending,
                from,
                over,
            ) == Some(j as usize)
    }

    /// `closure` is the closure of `state` with its lookahead nodes: it
    /// begins with the kernel, each of its items hands its lookahead on to
    /// the items that closure puts beside it, the epsilon items of the state
    /// are among its items, and each item whose marker stands before a
    /// symbol is linked to the state behind the transition over the symbol.
    pub open spec fn closure_ok(&self, state: int, closure: Seq<LalrItem>) -> bool {
        let kernel = self.states@[state].kernel@;
        &&& kernel.len() <= closure.len()
        &&& closure.take(kernel.len() as int) == kernel
        &&& core_set(closure) == closure_set(&self.grammar, core_set(kernel))
        &&& items_ok(closure, &self.grammar, &self.graph)
        &&& distinct_cores(closure)
        &&& closure_flows(&self.grammar, self.graph@, closure)
        &&& forall|e: int|
            0 <= e < self.states@[state].epsilon_items@.len() ==> closure.contains(
                #[trigger] self.states@[state].epsilon_items@[e],
            )
        &&& forall|symbol: SymbolicSymbol| #[trigger]
            links_ok(
                &self.grammar,
                self.graph@,
                self.states@,
                closure,
                symbol,
                self.transition(state, symbol),
            )
    }

    /// The first `count` states have their closures, through which the
    /// lookaheads flow.
    pub open spec fn flows_ok(&self, count: int) -> bool {
        &&& self.closures@.len() == count
        &&& forall|s: int| 0 <= s < count ==> self.closure_ok(s, #[trigger] self.closures@[s])
    }

    /// The automaton is complete: every state is marked and has the
    /// transitions and epsilon items of its kernel, the first state has the
    /// initial kernel, no two states share a kernel, and the lookaheads flow
    /// through the closures of the states.
    pub open spec fn wf(&self) -> bool {
        &&& self.base_ok()
        &&& self.rows_ok(self.states@.len() as int)
        &&& self.marks_ok(self.states@.len() as int)
        &&& self.flows_ok(self.states@.len() as int)
        &&& self.discovery_ok(self.states@.len() as int, Seq::empty())
    }

    /// `self` came from `before` by steps of the construction that leave the
    /// states of `before` as they were.
    pub open spec fn continues(&self, before: &LalrAutomaton) -> bool {
        &&& self.grammar == before.grammar
        &&& self.transitions == before.transitions
        &&& self.closures@ == before.closures@
        &&& before.states@.len() <= self.states@.len()
        &&& forall|s: int| 0 <= s < before.states@.len() ==> #[trigger] self.states@[s] == before.states@[s]
        &&& forall|s: int|
            before.states@.len() <= s < self.states@.len() ==> !(#[trigger] self.states@[s]).marked
                && self.states@[s].epsilon_items@.len() == 0
        &&& graph_extends(before.graph@, self.graph@)
    }

    proof fn lemma_continues_keeps(&self, before: &LalrAutomaton, rows: int, marks: int)
        requires
            self.continues(before),
            before.rows_ok(rows),
            before.marks_ok(marks),
            rows < before.states@.len(),
            0 <= marks <= before.states@.len(),
        ensures
            self.rows_ok(rows),
            self.marks_ok(marks),
    {
        let kernels_before = kernel_sets(before.states@);
        let kernels = kernel_sets(self.states@);
        assert forall|s: int| 0 <= s < marks && s < self.states@.len() implies (
        #[trigger] self.states@[s]).marked && epsilon_ok(
            &self.grammar,
            core_set(self.states@[s].kernel@),
            self.states@[s].epsilon_items@,
        ) by {
            assert(self.states@[s] == before.states@[s]);
        }
        assert forall|s: int| marks <= s < self.states@.len() implies !(
        #[trigger] self.states@[s]).marked && self.states@[s].epsilon_items@.len() == 0 by {
            if s < before.states@.len() {
                assert(self.states@[s] == before.states@[s]);
            }
        }
        assert forall|s: int| 0 <= s < rows implies row_ok(
            &self.grammar,
            kernels,
            s,
            (#[trigger] self.transitions.token_table@[s])@,
            self.transitions.non_terminal_table@[s]@,
        ) by {
            lemma_row_ok_grow(
                &self.grammar,
                kernels_before,
                kernels,
                s,
                self.transitions.token_table@[s]@,
                self.transitions.non_terminal_table@[s]@,
            );
        }
    }

    /// The state with the kernel `kernel`. Where a state has that kernel, each
    /// of its items gets the node of the arriving item as a dependency;
    /// otherwise an unmarked state of that kernel is added.
    fn target_state(&mut self, kernel: Vec<LalrItem>) -> (target: usize)
        requires
            old(self).base_ok(),
            items_ok(kernel@, &old(self).grammar, &old(self).graph),
            distinct_cores(kernel@),
            all_advanced(kernel@),
            kernel@.len() > 0,
        ensures
            final(self).base_ok(),
            final(self).continues(old(self)),
            target < final(self).states@.len(),
            kernel_sets(final(self).states@)[target as int] == core_set(kernel@),
            final(self).states@.len() <= old(self).states@.len() + 1,
            target < old(self).states@.len() ==> final(self).states@.len() == old(
                self,
            ).states@.len() && merged_into(
                final(self).graph@,
                final(self).states@[target as int].kernel@,
                kernel@,
                kernel@.len() as int,
            ),
            target >= old(self).states@.len() ==> final(self).states@[target as int].kernel@
                == kernel@,
    {
        match find_state(&self.states, &kernel) {
            Some(i) => {
                let mut a: usize = 0;
                while a < kernel.len()
                    invariant
                        a <= kernel@.len(),
                        i < self.states@.len(),
                        self.grammar == old(self).grammar,
                        self.transitions == old(self).transitions,
                        self.closures@ == old(self).closures@,
                        self.states == old(self).states,
                        old(self).base_ok(),
                        self.graph.wf(),
                        self.graph.token_count == self.grammar.token_count,
                        self.graph.nodes@.len() == old(self).graph.nodes@.len(),
                        graph_extends(old(self).graph@, self.graph@),
                        items_ok(kernel@, &old(self).grammar, &old(self).graph),
                        merged_into(self.graph@, self.states@[i as int].kernel@, kernel@, a as int),
                    decreases kernel@.len() - a,
                {
                    let arriving = kernel[a];
                    let ghost graph_then = self.graph@;
                    match position_of(&self.states[i].kernel, &arriving) {
                        Some(e) => {
                            let there = self.states[i].kernel[e];
                            assert(items_ok(old(self).states@[i as int].kernel@, &old(self).grammar, &old(self).graph));
                            assert(old(self).graph.contains_node(there.lookahead_node));
                            assert(old(self).graph.contains_node(arriving.lookahead_node));
                            there.lookahead_node.add_dependency(
                                &mut self.graph,
                                arriving.lookahead_node,
                            );
                            proof {
                                lemma_extends_transitive(old(self).graph@, graph_then, self.graph@);
                                assert(has_edge(
                                    self.graph@,
                                    there.lookahead_node.0 as int,
                                    arriving.lookahead_node.0 as int,
                                )) by {
                                    let deps = self.graph@[there.lookahead_node.0 as int].dependencies;
                                    assert(deps[deps.len() - 1] == arriving.lookahead_node);
                                }
                                let there_items = self.states@[i as int].kernel@;
                                assert forall|x: int, y: int|
                                    0 <= x < a + 1 && x < kernel@.len() && 0 <= y < there_items.len()
                                        && (#[trigger] there_items[y]).core_item() == (
                                    #[trigger] kernel@[x]).core_item() implies has_edge(
                                    self.graph@,
                                    there_items[y].lookahead_node.0 as int,
                                    kernel@[x].lookahead_node.0 as int,
                                ) by {
                                    if x < a {
                                        lemma_edge_kept(
                                            graph_then,
                                            self.graph@,
                                            there_items[y].lookahead_node.0 as int,
                                            kernel@[x].lookahead_node.0 as int,
                                        );
                                    } else {
                                        if y != e {
                                            if y < e {
                                                assert(there_items[y].core_item()
                                                    != there_items[e as int].core_item());
                                            } else {
                                                assert(there_items[e as int].core_item()
                                                    != there_items[y].core_item());
                                            }
                                        }
                                    }
                                }
                            }
                        },
                        None => {
                            proof {
                                assert(core_set(kernel@).contains(arriving.core_item()));
                            }
                        },
                    }
                    a += 1;
                }
                proof {
                    lemma_states_ok_grow(self.states@, &self.grammar, &old(self).graph, &self.graph);
                }
                i
            },
            None => {
                let target = self.states.len();
                let ghost kernels_before = kernel_sets(self.states@);
                self.states.push(LalrState::new(kernel));
                proof {
                    let kernels = kernel_sets(self.states@);
                    assert forall|a: int, b: int| 0 <= a < b < kernels.len() implies #[trigger] kernels[a]
                        != #[trigger] kernels[b] by {
                        assert(self.states@[a] == old(self).states@[a]);
                        assert(kernels[a] == kernels_before[a]);
                        if b < target {
                            assert(self.states@[b] == old(self).states@[b]);
                            assert(kernels[b] == kernels_before[b]);
                            assert(kernels_before[a] != kernels_before[b]);
                        } else {
                            assert(core_set(old(self).states@[a].kernel@) != core_set(kernel@));
                        }
                    }
                    assert(self.states@[0] == old(self).states@[0]);
                    assert(kernels[0] == kernels_before[0]);
                    assert forall|s: int| 0 <= s < self.states@.len() implies {
                        &&& items_ok((#[trigger] self.states@[s]).kernel@, &self.grammar, &self.graph)
                        &&& items_ok(self.states@[s].epsilon_items@, &self.grammar, &self.graph)
                        &&& distinct_cores(self.states@[s].kernel@)
                        &&& self.states@[s].kernel@.len() > 0
                    } by {
                        if s < target {
                            assert(self.states@[s] == old(self).states@[s]);
                        }
                    }
                    assert forall|s: int| 0 < s < self.states@.len() implies all_advanced(
                        (#[trigger] self.states@[s]).kernel@,
                    ) by {
                        if s < target {
                            assert(self.states@[s] == old(self).states@[s]);
                        }
                    }
                }
                target
            },
        }
    }

    /// Kernel uniqueness: no two states of the automaton share a kernel.
    pub proof fn lemma_kernel_uniqueness(&self, a: int, b: int)
        requires
            self.base_ok(),
            0 <= a < self.states@.len(),
            0 <= b < self.states@.len(),
            a != b,
        ensures
            core_set(self.states@[a].kernel@) != core_set(self.states@[b].kernel@),
    {
        let kernels = kernel_sets(self.states@);
        if a < b {
            assert(kernels[a] != kernels[b]);
        } else {
            assert(kernels[b] != kernels[a]);
        }
    }

    pub fn states_count(&self) -> (count: usize)
        ensures
            count == self.states@.len(),
    {
        self.states.len()
    }
}

/// The terminal or the non-terminal with the id `id`.
fn symbol_of(tokens: bool, id: usize) -> (symbol: SymbolicSymbol)
    ensures
        symbol == spec_symbol_of(tokens, id),
{
    if tokens {
        SymbolicSymbol::Token(id)
    } else {
        SymbolicSymbol::NonTerminal(id)
    }
}

pub open spec fn spec_symbol_of(tokens: bool, id: usize) -> SymbolicSymbol {
    if tokens {
        SymbolicSymbol::Token(id)
    } else {
        SymbolicSymbol::NonTerminal(id)
    }
}

proof fn lemma_kernel_sets_grow(before: Seq<LalrState>, after: Seq<LalrState>)
    requires
        before.len() <= after.len(),
        forall|s: int| 0 <= s < before.len() ==> (#[trigger] after[s]).kernel@ == before[s].kernel@,
    ensures
        forall|s: int|
            0 <= s < before.len() ==> #[trigger] kernel_sets(after)[s] == kernel_sets(before)[s],
{
}

impl LalrAutomaton {
    proof fn lemma_continues_transitive(&self, middle: &LalrAutomaton, before: &LalrAutomaton)
        requires
            self.continues(middle),
            middle.continues(before),
        ensures
            self.continues(before),
    {
        lemma_extends_transitive(before.graph@, middle.graph@, self.graph@);
        assert forall|s: int| 0 <= s < before.states@.len() implies #[trigger] self.states@[s]
            == before.states@[s] by {
            assert(middle.states@[s] == before.states@[s]);
        }
        assert forall|s: int| before.states@.len() <= s < self.states@.len() implies !(
        #[trigger] self.states@[s]).marked && self.states@[s].epsilon_items@.len() == 0 by {
            if s < middle.states@.len() {
                assert(self.states@[s] == middle.states@[s]);
            }
        }
    }

    /// The number of states is within the bound of the grammar.
    proof fn lemma_within_bound(&self)
        requires
            self.base_ok(),
        ensures
            self.states@.len() <= state_bound(&self.grammar),
    {
        let kernels = kernel_sets(self.states@);
        assert forall|s: int, item: SlrItem|
            0 <= s < kernels.len() && (#[trigger] kernels[s]).contains(
                item,
            ) implies #[trigger] item.valid(&self.grammar) by {
            let items = self.states@[s].kernel@;
            let i = choose|i: int| 0 <= i < items.len() && (#[trigger] items[i]).core_item() == item;
            assert(items_ok(items, &self.grammar, &self.graph));
        }
        lemma_state_bound(&self.grammar, kernels);
    }

    /// Recording one transition more keeps the numbering in order, where the
    /// transition leads to a state that is there, or to the one state that
    /// came since.
    proof fn lemma_discovery_step(
        &self,
        before: &LalrAutomaton,
        count: int,
        pending: Seq<Option<usize>>,
        target: Option<usize>,
    )
        requires
            before.discovery_ok(count, pending),
            0 <= count < before.states@.len(),
            self.grammar == before.grammar,
            self.transitions == before.transitions,
            before.states@.len() <= self.states@.len() <= before.states@.len() + 1,
            target is Some ==> target->Some_0 < self.states@.len(),
            self.states@.len() > before.states@.len() ==> target == Some(
                before.states@.len() as usize,
            ),
        ensures
            self.discovery_ok(count, pending.push(target)),
    {
        let more = pending.push(target);
        let at = pending.len() as int;
        assert forall|state: int, rank: int|
            !(state == count && rank == at) implies #[trigger] self.recorded(
            count,
            more,
            state,
            rank,
        ) == before.recorded(count, pending, state, rank) by {}
        assert(self.recorded(count, more, count, at) == target);
        assert forall|state: int, rank: int|
            (#[trigger] self.recorded(count, more, state, rank)) is Some implies self.recorded(
            count,
            more,
            state,
            rank,
        )->Some_0 < self.states@.len() by {
            if !(state == count && rank == at) {
                assert(before.recorded(count, pending, state, rank) is Some);
            }
        }
        assert forall|j: int| 1 <= j < self.states@.len() implies #[trigger] self.reached(
            count,
            more,
            j,
        ) by {
            if j < before.states@.len() {
                assert(before.reached(count, pending, j));
                let (state, rank) = choose|state: int, rank: int|
                    state < j && #[trigger] before.recorded(count, pending, state, rank) == Some(
                        j as usize,
                    );
                assert(before.recorded(count, pending, state, rank) is Some);
                assert(self.recorded(count, more, state, rank) == Some(j as usize));
            } else {
                assert(self.recorded(count, more, count, at) == Some(j as usize));
            }
        }
        assert forall|j: int, state: int, rank: int|
            self.recorded(count, more, state, rank) is Some && 1 <= j < self.recorded(
                count,
                more,
                state,
                rank,
            )->Some_0 implies #[trigger] self.reached_before(count, more, j, state, rank) by {
            if state == count && rank == at {
                assert(j < before.states@.len());
                assert(before.reached(count, pending, j));
                let (from, over) = choose|from: int, over: int|
                    from < j && #[trigger] before.recorded(count, pending, from, over) == Some(
                        j as usize,
                    );
                assert(before.recorded(count, pending, from, over) is Some);
                assert(self.recorded(count, more, from, over) == Some(j as usize));
            } else {
                assert(before.recorded(count, pending, state, rank) == self.recorded(
                    count,
                    more,
                    state,
                    rank,
                ));
                assert(before.reached_before(count, pending, j, state, rank));
                let (from, over) = choose|from: int, over: int|
                    (from < state || (from == state && over < rank))
                        && #[trigger] before.recorded(count, pending, from, over) == Some(
                        j as usize,
                    );
                assert(before.recorded(count, pending, from, over) is Some);
                assert(self.recorded(count, more, from, over) == Some(j as usize));
            }
        }
    }

    /// The transitions of state `from` over all terminals, or over all
    /// non-terminals. States that were not there yet are added.
    fn successor_row(
        &mut self,
        closure: &Vec<LalrItem>,
        from: usize,
        tokens: bool,
        Ghost(pending): Ghost<Seq<Option<usize>>>,
    ) -> (row: Vec<Option<usize>>)
        requires
            old(self).base_ok(),
            from < old(self).states@.len(),
            old(self).discovery_ok(from as int, pending),
            items_ok(closure@, &old(self).grammar, &old(self).graph),
            distinct_cores(closure@),
            core_set(closure@) == closure_set(
                &old(self).grammar,
                kernel_sets(old(self).states@)[from as int],
            ),
        ensures
            final(self).base_ok(),
            final(self).continues(old(self)),
            row@.len() == if tokens {
                old(self).grammar.token_count
            } else {
                old(self).grammar.non_terminal_count
            },
            forall|id: int|
                0 <= id < row@.len() ==> transition_ok(
                    &final(self).grammar,
                    kernel_sets(final(self).states@),
                    from as int,
                    spec_symbol_of(tokens, id as usize),
                    #[trigger] row@[id],
                ),
            forall|id: int|
                0 <= id < row@.len() ==> links_ok(
                    &final(self).grammar,
                    final(self).graph@,
                    final(self).states@,
                    closure@,
                    spec_symbol_of(tokens, id as usize),
                    #[trigger] row@[id],
                ),
            final(self).discovery_ok(from as int, pending + row@),
    {
        let count = if tokens {
            self.grammar.token_count
        } else {
            self.grammar.non_terminal_count
        };
        let ghost kernel = kernel_sets(self.states@)[from as int];
        let mut row: Vec<Option<usize>> = Vec::new();
        let mut id: usize = 0;
        assert(pending + row@ =~= pending);
        while id < count
            invariant
                id <= count,
                count == if tokens {
                    old(self).grammar.token_count
                } else {
                    old(self).grammar.non_terminal_count
                },
                self.base_ok(),
                self.continues(old(self)),
                from < old(self).states@.len(),
                kernel == kernel_sets(old(self).states@)[from as int],
                items_ok(closure@, &self.grammar, &self.graph),
                distinct_cores(closure@),
                core_set(closure@) == closure_set(&self.grammar, kernel),
                row@.len() == id,
                forall|x: int|
                    0 <= x < id ==> transition_ok(
                        &self.grammar,
                        kernel_sets(self.states@),
                        from as int,
                        spec_symbol_of(tokens, x as usize),
                        #[trigger] row@[x],
                    ),
                forall|x: int|
                    0 <= x < id ==> links_ok(
                        &self.grammar,
                        self.graph@,
                        self.states@,
                        closure@,
                        spec_symbol_of(tokens, x as usize),
                        #[trigger] row@[x],
                    ),
                self.discovery_ok(from as int, pending + row@),
            decreases count - id,
        {
            let symbol = symbol_of(tokens, id);
            let ghost then = *self;
            let ghost row_then = row@;
            let successors = successor_kernel(closure, &self.grammar, symbol, &self.graph);
            proof {
                assert(self.states@[from as int] == old(self).states@[from as int]);
                assert(kernel_sets(self.states@)[from as int] == kernel);
                assert(core_set(successors@) =~= goto_set(&self.grammar, kernel, symbol));
            }
            let ghost moved = successors@;
            let target = if successors.len() == 0 {
                proof {
                    assert(core_set(successors@) =~= Set::<SlrItem>::empty());
                }
                None
            } else {
                Some(self.target_state(successors))
            };
            row.push(target);
            proof {
                assert((pending + row_then).push(target) =~= pending + row@);
                self.lemma_discovery_step(&then, from as int, pending + row_then, target);
                assert forall|i: int|
                    0 <= i < closure@.len() && (#[trigger] closure@[i]).core_item().pointed(
                        &self.grammar,
                    ) == Some(symbol) implies link_ok(
                    self.graph@,
                    self.states@,
                    closure@[i],
                    target,
                ) by {
                    assert(has_moved(moved, closure@[i]));
                    let r = choose|r: int|
                        0 <= r < moved.len() && (#[trigger] moved[r]).core_item()
                            == closure@[i].core_item().advanced() && moved[r].lookahead_node
                            == closure@[i].lookahead_node;
                    let to = target->Some_0 as int;
                    let there = self.states@[to].kernel@;
                    if to >= then.states@.len() {
                        assert(there[r] == moved[r]);
                    } else {
                        assert(core_set(moved).contains(moved[r].core_item()));
                        assert(kernel_sets(self.states@)[to] == core_set(moved));
                        assert(core_set(there).contains(moved[r].core_item()));
                        let e = choose|e: int|
                            0 <= e < there.len() && (#[trigger] there[e]).core_item()
                                == moved[r].core_item();
                        assert(has_edge(
                            self.graph@,
                            there[e].lookahead_node.0 as int,
                            moved[r].lookahead_node.0 as int,
                        ));
                    }
                }
                assert forall|x: int| 0 <= x < id implies links_ok(
                    &self.grammar,
                    self.graph@,
                    self.states@,
                    closure@,
                    spec_symbol_of(tokens, x as usize),
                    #[trigger] row@[x],
                ) by {
                    assert(row@[x] == row_then[x]);
                    if target is Some {
                        lemma_links_kept(
                            &self.grammar,
                            then.graph@,
                            self.graph@,
                            then.states@,
                            self.states@,
                            closure@,
                            spec_symbol_of(tokens, x as usize),
                            row@[x],
                        );
                    }
                }
                if target is Some {
                    self.lemma_continues_transitive(&then, old(self));
                    lemma_items_ok_grow(closure@, &self.grammar, &then.graph, &self.graph);
                }
                let kernels_then = kernel_sets(then.states@);
                let kernels = kernel_sets(self.states@);
                assert forall|s: int| 0 <= s < kernels_then.len() implies #[trigger] kernels[s]
                    == kernels_then[s] by {
                    assert(self.states@[s] == then.states@[s]);
                }
                assert forall|x: int| 0 <= x < id + 1 implies transition_ok(
                    &self.grammar,
                    kernels,
                    from as int,
                    spec_symbol_of(tokens, x as usize),
                    #[trigger] row@[x],
                ) by {
                    if x < id {
                        assert(row@[x] == row_then[x]);
                        lemma_transition_ok_grow(
                            &self.grammar,
                            kernels_then,
                            kernels,
                            from as int,
                            spec_symbol_of(tokens, x as usize),
                            row@[x],
                        );
                    }
                }
            }
            id += 1;
        }
        row
    }

    /// Marks state `state`, gives it its epsilon items and its transitions, and
    /// adds the states that these lead to and that were not there yet.
    fn process_state(&mut self, state: usize)
        requires
            old(self).base_ok(),
            old(self).rows_ok(state as int),
            old(self).marks_ok(state as int),
            old(self).flows_ok(state as int),
            old(self).discovery_ok(state as int, Seq::empty()),
            state < old(self).states@.len(),
        ensures
            final(self).base_ok(),
            final(self).rows_ok(state + 1),
            final(self).marks_ok(state + 1),
            final(self).flows_ok(state + 1),
            final(self).discovery_ok(state + 1, Seq::empty()),
            final(self).grammar == old(self).grammar,
            graph_extends(old(self).graph@, final(self).graph@),
            old(self).states@.len() <= final(self).states@.len(),
            forall|s: int|
                0 <= s < old(self).states@.len() ==> (#[trigger] final(self).states@[s]).kernel@
                    == old(self).states@[s].kernel@,
    {
        let ghost kernels_before = kernel_sets(self.states@);
        let ghost kernel = kernels_before[state as int];
        self.states[state].marked = true;
        let ghost graph_before = self.graph;
        let closure = self.states[state].closure(&mut self.graph, &self.grammar);
        let epsilon = epsilon_items_of(&closure, &self.grammar, &self.graph);
        self.states[state].epsilon_items = epsilon;
        let ghost middle = *self;
        proof {
            assert forall|s: int| 0 <= s < self.states@.len() implies (
            #[trigger] self.states@[s]).kernel@ == old(self).states@[s].kernel@ by {}
            lemma_kernel_sets_grow(old(self).states@, self.states@);
            assert(kernel_sets(self.states@) =~= kernels_before);
            lemma_states_ok_grow(old(self).states@, &self.grammar, &graph_before, &self.graph);
            assert forall|s: int| 0 <= s < self.states@.len() implies {
                &&& items_ok((#[trigger] self.states@[s]).kernel@, &self.grammar, &self.graph)
                &&& items_ok(self.states@[s].epsilon_items@, &self.grammar, &self.graph)
                &&& distinct_cores(self.states@[s].kernel@)
                &&& self.states@[s].kernel@.len() > 0
            } by {
                if s != state {
                    assert(self.states@[s] == old(self).states@[s]);
                }
            }
            assert forall|s: int| 0 < s < self.states@.len() implies all_advanced(
                (#[trigger] self.states@[s]).kernel@,
            ) by {
                assert(self.states@[s].kernel@ == old(self).states@[s].kernel@);
            }
            assert(self.base_ok());
            assert forall|s: int| 0 <= s < state + 1 && s < self.states@.len() implies (
            #[trigger] self.states@[s]).marked && epsilon_ok(
                &self.grammar,
                core_set(self.states@[s].kernel@),
                self.states@[s].epsilon_items@,
            ) by {
                if s < state {
                    assert(self.states@[s] == old(self).states@[s]);
                } else {
                    assert(core_set(closure@) == closure_set(&self.grammar, kernel));
                    assert forall|item: SlrItem|
                        core_set(epsilon@).contains(item) <==> in_closure(
                            &self.grammar,
                            kernel,
                            item,
                        ) && #[trigger] item.body(&self.grammar).len() == 0 by {}
                }
            }
            assert forall|s: int| state + 1 <= s < self.states@.len() implies !(
            #[trigger] self.states@[s]).marked && self.states@[s].epsilon_items@.len() == 0 by {
                assert(self.states@[s] == old(self).states@[s]);
            }
            assert(self.marks_ok(state + 1));
            assert(self.rows_ok(state as int));
        }
        let ghost graph_closed = self.graph@;
        proof {
            assert forall|s: int, rank: int| #[trigger]
                self.recorded(state as int, Seq::empty(), s, rank) == old(self).recorded(
                    state as int,
                    Seq::empty(),
                    s,
                    rank,
                ) by {}
            assert(self.discovery_ok(state as int, Seq::empty())) by {
                assert forall|j: int| 1 <= j < self.states@.len() implies #[trigger] self.reached(
                    state as int,
                    Seq::empty(),
                    j,
                ) by {
                    assert(old(self).reached(state as int, Seq::empty(), j));
                    let (s, rank) = choose|s: int, rank: int|
                        s < j && #[trigger] old(self).recorded(
                            state as int,
                            Seq::empty(),
                            s,
                            rank,
                        ) == Some(j as usize);
                    assert(self.recorded(state as int, Seq::empty(), s, rank) == Some(
                        j as usize,
                    ));
                }
                assert forall|j: int, s: int, rank: int|
                    self.recorded(state as int, Seq::empty(), s, rank) is Some && 1 <= j
                        < self.recorded(state as int, Seq::empty(), s, rank)->Some_0 implies #[trigger] self.reached_before(
                    state as int,
                    Seq::empty(),
                    j,
                    s,
                    rank,
                ) by {
                    assert(old(self).reached_before(state as int, Seq::empty(), j, s, rank));
                    let (from, over) = choose|from: int, over: int|
                        (from < s || (from == s && over < rank)) && #[trigger] old(self).recorded(
                            state as int,
                            Seq::empty(),
                            from,
                            over,
                        ) == Some(j as usize);
                    assert(self.recorded(state as int, Seq::empty(), from, over) == Some(
                        j as usize,
                    ));
                }
            }
        }
        let token_row = self.successor_row(&closure, state, true, Ghost(Seq::empty()));
        let ghost after_tokens = *self;
        proof {
            lemma_items_ok_grow(closure@, &self.grammar, &middle.graph, &self.graph);
            assert(self.states@[state as int] == middle.states@[state as int]);
        }
        assert(Seq::<Option<usize>>::empty() + token_row@ =~= token_row@);
        let non_terminal_row = self.successor_row(&closure, state, false, Ghost(token_row@));
        let ghost after_rows = *self;
        proof {
            self.lemma_continues_transitive(&after_tokens, &middle);
            self.lemma_continues_keeps(&middle, state as int, state + 1);
            lemma_extends_transitive(graph_before@, middle.graph@, self.graph@);
            assert forall|s: int| 0 <= s < old(self).states@.len() implies (
            #[trigger] self.states@[s]).kernel@ == old(self).states@[s].kernel@ by {
                assert(self.states@[s] == middle.states@[s]);
                assert(middle.states@[s].kernel@ == old(self).states@[s].kernel@);
            }
        }
        self.transitions.add_transitions(token_row, non_terminal_row);
        self.closures = Ghost(self.closures@.push(closure@));
        proof {
            let kernels_mid = kernel_sets(after_tokens.states@);
            let kernels = kernel_sets(self.states@);
            assert forall|s: int| 0 <= s < kernels_mid.len() implies #[trigger] kernels[s]
                == kernels_mid[s] by {
                assert(self.states@[s] == after_tokens.states@[s]);
            }
            assert forall|s: int| 0 <= s < state + 1 implies row_ok(
                &self.grammar,
                kernels,
                s,
                (#[trigger] self.transitions.token_table@[s])@,
                self.transitions.non_terminal_table@[s]@,
            ) by {
                if s < state {
                    assert(self.transitions.token_table@[s] == after_rows.transitions.token_table@[s]);
                    assert(self.transitions.non_terminal_table@[s]
                        == after_rows.transitions.non_terminal_table@[s]);
                } else {
                    assert forall|t: int| 0 <= t < token_row@.len() implies transition_ok(
                        &self.grammar,
                        kernels,
                        s,
                        SymbolicSymbol::Token(t as usize),
                        #[trigger] token_row@[t],
                    ) by {
                        assert(spec_symbol_of(true, t as usize) == SymbolicSymbol::Token(
                            t as usize,
                        ));
                        lemma_transition_ok_grow(
                            &self.grammar,
                            kernels_mid,
                            kernels,
                            s,
                            SymbolicSymbol::Token(t as usize),
                            token_row@[t],
                        );
                    }
                    assert forall|n: int| 0 <= n < non_terminal_row@.len() implies transition_ok(
                        &self.grammar,
                        kernels,
                        s,
                        SymbolicSymbol::NonTerminal(n as usize),
                        #[trigger] non_terminal_row@[n],
                    ) by {
                        assert(spec_symbol_of(false, n as usize) == SymbolicSymbol::NonTerminal(
                            n as usize,
                        ));
                    }
                }
            }
        }
        proof {
            let full = token_row@ + non_terminal_row@;
            assert forall|s: int, rank: int| #[trigger]
                self.recorded(state + 1, Seq::empty(), s, rank) == after_rows.recorded(
                    state as int,
                    full,
                    s,
                    rank,
                ) by {
                if 0 <= s < state {
                    assert(self.transitions.token_table@[s] == after_rows.transitions.token_table@[s]);
                    assert(self.transitions.non_terminal_table@[s]
                        == after_rows.transitions.non_terminal_table@[s]);
                }
            }
            assert(self.discovery_ok(state + 1, Seq::empty())) by {
                assert forall|j: int| 1 <= j < self.states@.len() implies #[trigger] self.reached(
                    state + 1,
                    Seq::empty(),
                    j,
                ) by {
                    assert(after_rows.reached(state as int, full, j));
                    let (s, rank) = choose|s: int, rank: int|
                        s < j && #[trigger] after_rows.recorded(state as int, full, s, rank)
                            == Some(j as usize);
                    assert(self.recorded(state + 1, Seq::empty(), s, rank) == Some(j as usize));
                }
                assert forall|j: int, s: int, rank: int|
                    self.recorded(state + 1, Seq::empty(), s, rank) is Some && 1 <= j
                        < self.recorded(state + 1, Seq::empty(), s, rank)->Some_0 implies #[trigger] self.reached_before(
                    state + 1,
                    Seq::empty(),
                    j,
                    s,
                    rank,
                ) by {
                    assert(after_rows.reached_before(state as int, full, j, s, rank));
                    let (from, over) = choose|from: int, over: int|
                        (from < s || (from == s && over < rank))
                            && #[trigger] after_rows.recorded(state as int, full, from, over)
                            == Some(j as usize);
                    assert(self.recorded(state + 1, Seq::empty(), from, over) == Some(
                        j as usize,
                    ));
                }
            }
        }
        proof {
            lemma_items_ok_grow(closure@, &self.grammar, &after_tokens.graph, &self.graph);
            lemma_extends_transitive(graph_closed, after_tokens.graph@, self.graph@);
            lemma_closure_flows_kept(&self.grammar, graph_closed, self.graph@, closure@);
            assert(self.states@[state as int] == middle.states@[state as int]);
            assert forall|symbol: SymbolicSymbol| #[trigger]
                links_ok(
                    &self.grammar,
                    self.graph@,
                    self.states@,
                    closure@,
                    symbol,
                    self.transition(state as int, symbol),
                ) by {
                match symbol {
                    SymbolicSymbol::Token(t) => {
                        if t < self.grammar.token_count {
                            assert(spec_symbol_of(true, t as int as usize) == symbol);
                            assert(links_ok(
                                &self.grammar,
                                after_tokens.graph@,
                                after_tokens.states@,
                                closure@,
                                symbol,
                                token_row@[t as int],
                            ));
                            lemma_links_kept(
                                &self.grammar,
                                after_tokens.graph@,
                                self.graph@,
                                after_tokens.states@,
                                self.states@,
                                closure@,
                                symbol,
                                token_row@[t as int],
                            );
                        }
                    },
                    SymbolicSymbol::NonTerminal(n) => {
                        if n < self.grammar.non_terminal_count {
                            assert(spec_symbol_of(false, n as int as usize) == symbol);
                            assert(links_ok(
                                &self.grammar,
                                after_rows.graph@,
                                after_rows.states@,
                                closure@,
                                symbol,
                                non_terminal_row@[n as int],
                            ));
                        }
                    },
                    SymbolicSymbol::EOF => {},
                }
                if self.transition(state as int, symbol) is None {
                    assert forall|i: int|
                        0 <= i < closure@.len() implies (#[trigger] closure@[i]).core_item().pointed(
                        &self.grammar,
                    ) != Some(symbol) by {
                        lemma_pointed_in_range(&self.grammar, closure@[i].core_item());
                        if closure@[i].core_item().pointed(&self.grammar) == Some(symbol) {
                            match symbol {
                                SymbolicSymbol::Token(t) => {
                                    assert(links_ok(
                                        &self.grammar,
                                        after_tokens.graph@,
                                        after_tokens.states@,
                                        closure@,
                                        spec_symbol_of(true, t as int as usize),
                                        token_row@[t as int],
                                    ));
                                },
                                SymbolicSymbol::NonTerminal(n) => {
                                    assert(links_ok(
                                        &self.grammar,
                                        after_rows.graph@,
                                        after_rows.states@,
                                        closure@,
                                        spec_symbol_of(false, n as int as usize),
                                        non_terminal_row@[n as int],
                                    ));
                                },
                                SymbolicSymbol::EOF => {},
                            }
                        }
                    }
                }
            }
            assert(self.closure_ok(state as int, closure@));
            assert forall|s: int| 0 <= s < state + 1 implies self.closure_ok(
                s,
                #[trigger] self.closures@[s],
            ) by {
                if s < state {
                    assert(self.closures@[s] == old(self).closures@[s]);
                    assert(old(self).closure_ok(s, old(self).closures@[s]));
                    assert(self.states@[s] == middle.states@[s]);
                    assert(middle.states@[s] == old(self).states@[s]);
                    assert(self.transitions.token_table@[s] == old(self).transitions.token_table@[s]);
                    assert(self.transitions.non_terminal_table@[s]
                        == old(self).transitions.non_terminal_table@[s]);
                    self.lemma_closure_kept(old(self), s, old(self).closures@[s]);
                }
            }
        }
    }

    /// A closure that was in order stays so while the automaton grows.
    proof fn lemma_closure_kept(&self, before: &LalrAutomaton, state: int, closure: Seq<LalrItem>)
        requires
            0 <= state < before.states@.len(),
            before.closure_ok(state, closure),
            self.grammar == before.grammar,
            graph_extends(before.graph@, self.graph@),
            before.states@.len() <= self.states@.len(),
            forall|s: int|
                0 <= s < before.states@.len() ==> (#[trigger] self.states@[s]).kernel@
                    == before.states@[s].kernel@,
            self.states@[state].epsilon_items@ == before.states@[state].epsilon_items@,
            self.transitions.token_table@[state] == before.transitions.token_table@[state],
            self.transitions.non_terminal_table@[state]
                == before.transitions.non_terminal_table@[state],
        ensures
            self.closure_ok(state, closure),
    {
        assert(before.graph@.len() == before.graph.nodes@.len());
        assert(self.graph@.len() == self.graph.nodes@.len());
        lemma_items_ok_grow(closure, &self.grammar, &before.graph, &self.graph);
        lemma_closure_flows_kept(&self.grammar, before.graph@, self.graph@, closure);
        assert forall|symbol: SymbolicSymbol| #[trigger]
            links_ok(
                &self.grammar,
                self.graph@,
                self.states@,
                closure,
                symbol,
                self.transition(state, symbol),
            ) by {
            assert(links_ok(
                &before.grammar,
                before.graph@,
                before.states@,
                closure,
                symbol,
                before.transition(state, symbol),
            ));
            lemma_links_kept(
                &self.grammar,
                before.graph@,
                self.graph@,
                before.states@,
                self.states@,
                closure,
                symbol,
                self.transition(state, symbol),
            );
        }
    }

    fn add_state(&mut self, state: LalrState)
        ensures
            final(self).states@ == old(self).states@.push(state),
            final(self).grammar == old(self).grammar,
            final(self).transitions == old(self).transitions,
            final(self).graph == old(self).graph,
            final(self).closures@ == old(self).closures@,
    {
        self.states.push(state);
    }

    /// Builds the states and transitions, starting from the initial kernel:
    /// the augmenting production, followed by the end of input only.
    pub fn populate(&mut self)
        requires
            old(self).grammar.wf(),
            old(self).graph.wf(),
            old(self).graph.token_count == old(self).grammar.token_count,
            old(self).states@.len() == 0,
            old(self).transitions.token_table@.len() == 0,
            old(self).transitions.non_terminal_table@.len() == 0,
            old(self).closures@.len() == 0,
        ensures
            final(self).wf(),
            final(self).grammar == old(self).grammar,
            graph_extends(old(self).graph@, final(self).graph@),
            final(self).initial_node() == old(self).graph@.len(),
            final(self).graph@[final(self).initial_node()].can_eof_follow,
            final(self).graph@[final(self).initial_node()].tokens == Set::<usize>::empty(),
    {
        let ghost graph_before = self.graph@;
        let node = LookAheadNodeRef::initial_lookahead_node(&mut self.graph);
        let mut kernel: Vec<LalrItem> = Vec::new();
        kernel.push(LalrItem::new(usize::MAX, node));
        let ghost first = kernel@;
        self.add_state(LalrState::new(kernel));
        proof {
            assert(first[0].core_item() == SlrItem {
                production_id: SPECIAL_ID,
                marker_position: 0,
            });
            assert(core_set(first) =~= initial_kernel());
            assert(kernel_sets(self.states@)[0] == initial_kernel());
            assert(first[0].core_item().valid(&self.grammar));
            assert(graph_extends(graph_before, self.graph@));
            self.lemma_within_bound();
        }
        let mut state: usize = 0;
        while state < self.states.len()
            invariant
                self.grammar == old(self).grammar,
                self.base_ok(),
                self.rows_ok(state as int),
                self.marks_ok(state as int),
                self.flows_ok(state as int),
                self.discovery_ok(state as int, Seq::empty()),
                graph_extends(graph_before, self.graph@),
                self.states@.len() <= state_bound(&self.grammar),
                self.states@[0].kernel@ == first,
                first.len() == 1,
                first[0].lookahead_node.0 == graph_before.len(),
                self.graph@[graph_before.len() as int].can_eof_follow,
                self.graph@[graph_before.len() as int].tokens == Set::<usize>::empty(),
                graph_before.len() < self.graph@.len(),
            decreases state_bound(&self.grammar) - state,
        {
            let ghost graph_then = self.graph@;
            let ghost states_then = self.states@;
            self.process_state(state);
            proof {
                lemma_extends_transitive(graph_before, graph_then, self.graph@);
                self.lemma_within_bound();
                assert(self.states@[0].kernel@ == states_then[0].kernel@);
            }
            state += 1;
        }
    }

    /// The node of the item that the automaton starts from.
    pub open spec fn initial_node(&self) -> int {
        self.states@[0].kernel@[0].lookahead_node.0 as int
    }

    /// Builds the automaton of `grammar`.
    pub fn compute(grammar: SymbolicGrammar) -> (automaton: Self)
        requires
            grammar.wf(),
        ensures
            automaton.wf(),
            automaton.grammar == grammar,
            automaton.initial_node() == 0,
            automaton.graph@[0].can_eof_follow,
            automaton.graph@[0].tokens == Set::<usize>::empty(),
    {
        let token_count = grammar.token_count;
        let mut automaton = Self {
            grammar,
            states: Vec::new(),
            transitions: TransitionTables::new(),
            graph: LookAheadGraph::new(token_count),
            closures: Ghost(Seq::empty()),
        };
        automaton.populate();
        automaton
    }
}

} // verus!
