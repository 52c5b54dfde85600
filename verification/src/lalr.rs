//! The LALR(1) automaton: item sets with one lookahead node per item.
//!
//! Items with the same production and marker are the same item, whatever
//! their lookahead node. Where two of them meet, the one that is there stays,
//! and its node gets the other's node as a dependency.

pub mod automaton;
pub mod bound;
pub mod cells;
pub mod flow;
pub mod generation;
pub mod paths;

use crate::lookahead::{
    graph_extends, has_edge, lemma_edge_kept, lemma_extends_transitive,
    lemma_reaches_self, lemma_reaches_step, reaches, resolved_eof,
    resolved_tokens, with_dependency, LookAhead, LookAheadGraph, LookAheadNodeRef, NodeView,
};
use crate::slr::item::{
    closure_set, expands_to, in_closure, lemma_closure_is_least, lemma_closure_step,
    lemma_kernel_in_closure, SlrItem,
};
use crate::symbolic_grammar::{SymbolicGrammar, SymbolicSymbol, SPECIAL_ID};
use vstd::prelude::*;
use vstd::slice::slice_subrange;
use vstd::std_specs::cmp::PartialEqSpecImpl;

verus! {

#[derive(Clone, Copy, Debug)]
pub struct LalrItem {
    pub production_id: usize,
    pub marker_position: usize,
    pub lookahead_node: LookAheadNodeRef,
}

impl PartialEq for LalrItem {
    /// Items are compared without their lookahead nodes.
    fn eq(&self, other: &Self) -> (equal: bool) {
        self.production_id == other.production_id && self.marker_position
            == other.marker_position
    }
}

impl PartialEqSpecImpl for LalrItem {
    open spec fn obeys_eq_spec() -> bool {
        true
    }

    open spec fn eq_spec(&self, other: &Self) -> bool {
        self.production_id == other.production_id && self.marker_position
            == other.marker_position
    }
}

impl LalrItem {
    /// The item without its lookahead node.
    pub open spec fn core_item(self) -> SlrItem {
        SlrItem { production_id: self.production_id, marker_position: self.marker_position }
    }

    /// The item of `production_id` with nothing matched yet.
    pub fn new(production_id: usize, lookahead_node: LookAheadNodeRef) -> (item: Self)
        ensures
            item.production_id == production_id,
            item.marker_position == 0,
            item.lookahead_node == lookahead_node,
    {
        Self { production_id, marker_position: 0, lookahead_node }
    }

    /// The symbol behind the marker, if the marker is not at the end.
    pub fn pointed_symbol(&self, grammar: &SymbolicGrammar) -> (symbol: Option<SymbolicSymbol>)
        requires
            grammar.production_spec(self.production_id) is Some,
        ensures
            symbol == if self.marker_position < self.core_item().body(grammar).len() {
                Some(self.core_item().body(grammar)[self.marker_position as int])
            } else {
                None
            },
    {
        match grammar.get_production(self.production_id) {
            Some(production) => {
                if self.marker_position < production.body.len() {
                    Some(production.body[self.marker_position])
                } else {
                    None
                }
            },
            None => None,
        }
    }

    pub fn move_marker(&mut self)
        requires
            old(self).marker_position < usize::MAX,
        ensures
            final(self).core_item() == old(self).core_item().advanced(),
            final(self).lookahead_node == old(self).lookahead_node,
    {
        self.marker_position += 1;
    }

    /// Whether the marker stands at the end of the body.
    pub fn is_reducing(&self, grammar: &SymbolicGrammar) -> (reducing: bool)
        requires
            grammar.production_spec(self.production_id) is Some,
        ensures
            reducing == (self.marker_position == self.core_item().body(grammar).len()),
    {
        match grammar.get_production(self.production_id) {
            Some(production) => self.marker_position == production.arity(),
            None => false,
        }
    }
}

/// The items of `items`, without their lookahead nodes.
pub open spec fn core_set(items: Seq<LalrItem>) -> Set<SlrItem> {
    Set::new(
        |core: SlrItem| exists|i: int| 0 <= i < items.len() && (#[trigger] items[i]).core_item() == core,
    )
}

/// No two items of `items` have the same production and marker.
pub open spec fn distinct_cores(items: Seq<LalrItem>) -> bool {
    forall|i: int, j: int|
        0 <= i < j < items.len() ==> (#[trigger] items[i]).core_item() != (#[trigger] items[j]).core_item()
}

/// Each item is an item of `grammar`, with a lookahead node of `graph`.
pub open spec fn items_ok(
    items: Seq<LalrItem>,
    grammar: &SymbolicGrammar,
    graph: &LookAheadGraph,
) -> bool {
    forall|i: int|
        0 <= i < items.len() ==> {
            &&& (#[trigger] items[i]).core_item().valid(grammar)
            &&& graph.contains_node(items[i].lookahead_node)
        }
}

#[derive(Debug)]
pub struct LalrState {
    pub kernel: Vec<LalrItem>,
    pub marked: bool,
    pub epsilon_items: Vec<LalrItem>,
}

/// Whether some item of `items` has the production and marker of `item`.
fn holds_core(items: &Vec<LalrItem>, item: &LalrItem) -> (found: bool)
    ensures
        found == core_set(items@).contains(item.core_item()),
{
    let mut i: usize = 0;
    while i < items.len()
        invariant
            i <= items@.len(),
            forall|j: int| 0 <= j < i ==> (#[trigger] items@[j]).core_item() != item.core_item(),
        decreases items@.len() - i,
    {
        if items[i].production_id == item.production_id && items[i].marker_position
            == item.marker_position {
            assert(items@[i as int].core_item() == item.core_item());
            return true;
        }
        i += 1;
    }
    false
}

/// Whether each item of `items` has its production and marker in `others`.
fn cores_within(items: &Vec<LalrItem>, others: &Vec<LalrItem>) -> (within: bool)
    ensures
        within == core_set(items@).subset_of(core_set(others@)),
{
    let mut i: usize = 0;
    while i < items.len()
        invariant
            i <= items@.len(),
            forall|j: int|
                0 <= j < i ==> core_set(others@).contains((#[trigger] items@[j]).core_item()),
        decreases items@.len() - i,
    {
        if !holds_core(others, &items[i]) {
            assert(core_set(items@).contains(items@[i as int].core_item()));
            return false;
        }
        i += 1;
    }
    true
}

/// Whether two lists of items hold the same productions and markers.
pub fn same_kernel(kernel: &Vec<LalrItem>, other: &Vec<LalrItem>) -> (same: bool)
    ensures
        same == (core_set(kernel@) == core_set(other@)),
{
    let same = cores_within(kernel, other) && cores_within(other, kernel);
    proof {
        if same {
            assert(core_set(kernel@) =~= core_set(other@));
        }
    }
    same
}

impl PartialEq for LalrState {
    /// States are equal when their kernels hold the same items.
    fn eq(&self, other: &Self) -> (equal: bool) {
        same_kernel(&self.kernel, &other.kernel)
    }
}

impl PartialEqSpecImpl for LalrState {
    open spec fn obeys_eq_spec() -> bool {
        true
    }

    open spec fn eq_spec(&self, other: &Self) -> bool {
        core_set(self.kernel@) == core_set(other.kernel@)
    }
}

spec fn none_count(index_of: Seq<Option<usize>>) -> nat
    decreases index_of.len(),
{
    if index_of.len() == 0 {
        0
    } else {
        none_count(index_of.drop_last()) + if index_of.last() is None {
            1nat
        } else {
            0nat
        }
    }
}

proof fn lemma_none_count_fill(index_of: Seq<Option<usize>>, p: int, i: usize)
    requires
        0 <= p < index_of.len(),
        index_of[p] is None,
    ensures
        none_count(index_of.update(p, Some(i))) + 1 == none_count(index_of),
    decreases index_of.len(),
{
    let updated = index_of.update(p, Some(i));
    if p == index_of.len() - 1 {
        assert(updated.drop_last() =~= index_of.drop_last());
    } else {
        assert(updated.drop_last() =~= index_of.drop_last().update(p, Some(i)));
        lemma_none_count_fill(index_of.drop_last(), p, i);
    }
}

/// `index_of` says where the fresh item of each production stands in `items`.
spec fn index_ok(index_of: Seq<Option<usize>>, items: Seq<LalrItem>) -> bool {
    forall|p: int|
        0 <= p < index_of.len() ==> match #[trigger] index_of[p] {
            Some(i) => i < items.len() && items[i as int].core_item() == (SlrItem {
                production_id: p as usize,
                marker_position: 0,
            }),
            None => !core_set(items).contains(
                SlrItem { production_id: p as usize, marker_position: 0 },
            ),
        }
}

/// Some item of the stack has the production and marker `core`.
spec fn on_stack(stack: Seq<LalrItem>, core: SlrItem) -> bool {
    exists|j: int| 0 <= j < stack.len() && (#[trigger] stack[j]).core_item() == core
}

/// `items` holds what closure puts beside `core`.
spec fn expanded(grammar: &SymbolicGrammar, items: Seq<LalrItem>, core: SlrItem) -> bool {
    forall|to: SlrItem| #[trigger] expands_to(grammar, core, to) ==> core_set(items).contains(to)
}

proof fn lemma_graph_extends_push(
    graph: Seq<crate::lookahead::NodeView>,
    node: crate::lookahead::NodeView,
)
    ensures
        graph_extends(graph, graph.push(node)),
{
}

/// What holds of the worklist while a closure is computed: `res` begins with
/// the kernel and holds items of the closure only, and each of them is still
/// on the stack, or has what closure puts beside it in `res`, or is the item
/// at work.
#[verifier::opaque]
spec fn worklist_inv(
    grammar: &SymbolicGrammar,
    kernel: Seq<LalrItem>,
    res: Seq<LalrItem>,
    stack: Seq<LalrItem>,
    index_of: Seq<Option<usize>>,
    current: Option<SlrItem>,
) -> bool {
    &&& index_of.len() == grammar.productions@.len()
    &&& index_ok(index_of, res)
    &&& kernel.len() <= res.len()
    &&& res.take(kernel.len() as int) == kernel
    &&& distinct_cores(res)
    &&& forall|i: int|
        kernel.len() <= i < res.len() ==> (#[trigger] res[i]).marker_position == 0
            && res[i].production_id < grammar.productions@.len()
    &&& forall|i: int|
        0 <= i < res.len() ==> in_closure(grammar, core_set(kernel), (#[trigger] res[i]).core_item())
    &&& forall|j: int|
        0 <= j < stack.len() ==> core_set(res).contains((#[trigger] stack[j]).core_item())
    &&& forall|i: int|
        0 <= i < res.len() ==> on_stack(stack, (#[trigger] res[i]).core_item()) || expanded(
            grammar,
            res,
            res[i].core_item(),
        ) || Some(res[i].core_item()) == current
    &&& match current {
        Some(c) => in_closure(grammar, core_set(kernel), c),
        None => true,
    }
}

pub proof fn lemma_core_set_push(items: Seq<LalrItem>, item: LalrItem)
    ensures
        core_set(items.push(item)) == core_set(items).insert(item.core_item()),
{
    let pushed = items.push(item);
    assert forall|c: SlrItem| core_set(pushed).contains(c) implies core_set(items).insert(
        item.core_item(),
    ).contains(c) by {
        let i = choose|i: int| 0 <= i < pushed.len() && (#[trigger] pushed[i]).core_item() == c;
        if i < items.len() {
            assert(items[i].core_item() == c);
        }
    }
    assert forall|c: SlrItem|
        core_set(items).insert(item.core_item()).contains(c) implies core_set(pushed).contains(
        c,
    ) by {
        if c == item.core_item() {
            assert(pushed[items.len() as int].core_item() == c);
        } else {
            let i = choose|i: int| 0 <= i < items.len() && (#[trigger] items[i]).core_item() == c;
            assert(pushed[i].core_item() == c);
        }
    }
    assert(core_set(pushed) =~= core_set(items).insert(item.core_item()));
}

proof fn lemma_worklist_start(
    grammar: &SymbolicGrammar,
    kernel: Seq<LalrItem>,
    index_of: Seq<Option<usize>>,
)
    requires
        index_of.len() == grammar.productions@.len(),
        index_ok(index_of, kernel),
        distinct_cores(kernel),
    ensures
        worklist_inv(grammar, kernel, kernel, kernel, index_of, None),
{
    reveal(worklist_inv);
    assert(kernel.take(kernel.len() as int) =~= kernel);
    assert forall|i: int| 0 <= i < kernel.len() implies in_closure(
        grammar,
        core_set(kernel),
        (#[trigger] kernel[i]).core_item(),
    ) by {
        lemma_kernel_in_closure(grammar, core_set(kernel), kernel[i].core_item());
    }
}

proof fn lemma_worklist_pop(
    grammar: &SymbolicGrammar,
    kernel: Seq<LalrItem>,
    res: Seq<LalrItem>,
    stack: Seq<LalrItem>,
    index_of: Seq<Option<usize>>,
)
    requires
        worklist_inv(grammar, kernel, res, stack, index_of, None),
        stack.len() > 0,
    ensures
        worklist_inv(
            grammar,
            kernel,
            res,
            stack.drop_last(),
            index_of,
            Some(stack.last().core_item()),
        ),
        in_closure(grammar, core_set(kernel), stack.last().core_item()),
{
    reveal(worklist_inv);
    let rest = stack.drop_last();
    let top = stack.last().core_item();
    let at = choose|i: int| 0 <= i < res.len() && (#[trigger] res[i]).core_item() == top;
    assert(in_closure(grammar, core_set(kernel), res[at].core_item()));
    assert forall|i: int| 0 <= i < res.len() implies on_stack(
        rest,
        (#[trigger] res[i]).core_item(),
    ) || expanded(grammar, res, res[i].core_item()) || Some(res[i].core_item()) == Some(top) by {
        if on_stack(stack, res[i].core_item()) {
            let j = choose|j: int|
                0 <= j < stack.len() && (#[trigger] stack[j]).core_item() == res[i].core_item();
            if j < rest.len() {
                assert(rest[j] == stack[j]);
            }
        }
    }
    assert forall|j: int| 0 <= j < rest.len() implies core_set(res).contains(
        (#[trigger] rest[j]).core_item(),
    ) by {
        assert(rest[j] == stack[j]);
    }
}

proof fn lemma_worklist_push(
    grammar: &SymbolicGrammar,
    kernel: Seq<LalrItem>,
    res: Seq<LalrItem>,
    stack: Seq<LalrItem>,
    index_of: Seq<Option<usize>>,
    current: SlrItem,
    item: LalrItem,
)
    requires
        worklist_inv(grammar, kernel, res, stack, index_of, Some(current)),
        item.marker_position == 0,
        item.production_id < grammar.productions@.len(),
        index_of[item.production_id as int] is None,
        expands_to(grammar, current, item.core_item()),
        res.len() <= usize::MAX,
    ensures
        worklist_inv(
            grammar,
            kernel,
            res.push(item),
            stack.push(item),
            index_of.update(item.production_id as int, Some(res.len() as usize)),
            Some(current),
        ),
{
    reveal(worklist_inv);
    let fresh = item.core_item();
    let p = item.production_id as int;
    let res2 = res.push(item);
    let stack2 = stack.push(item);
    let index2 = index_of.update(p, Some(res.len() as usize));
    lemma_core_set_push(res, item);
    lemma_closure_step(grammar, core_set(kernel), current, fresh);
    assert(fresh == SlrItem { production_id: p as usize, marker_position: 0 });
    assert(!core_set(res).contains(fresh));
    assert(grammar.productions.len() == grammar.productions@.len());
    assert(index_of.len() <= usize::MAX);
    assert(res2.take(kernel.len() as int) =~= res.take(kernel.len() as int));
    assert forall|q: int| 0 <= q < index2.len() implies match #[trigger] index2[q] {
        Some(i) => i < res2.len() && res2[i as int].core_item() == (SlrItem {
            production_id: q as usize,
            marker_position: 0,
        }),
        None => !core_set(res2).contains(SlrItem { production_id: q as usize, marker_position: 0 }),
    } by {
        let wanted = SlrItem { production_id: q as usize, marker_position: 0 };
        if q != p {
            assert(wanted != fresh);
            match index_of[q] {
                Some(i) => {
                    assert(res2[i as int] == res[i as int]);
                },
                None => {
                    assert(!core_set(res).contains(wanted));
                },
            }
        } else {
            assert(res2[res.len() as int] == item);
        }
    }
    assert forall|i: int, j: int| 0 <= i < j < res2.len() implies (#[trigger] res2[i]).core_item()
        != (#[trigger] res2[j]).core_item() by {
        assert(res2[i] == res[i]);
        if j == res.len() {
            if res[i].core_item() == fresh {
                assert(core_set(res).contains(fresh));
            }
        } else {
            assert(res2[j] == res[j]);
        }
    }
    assert forall|i: int| 0 <= i < res2.len() implies in_closure(
        grammar,
        core_set(kernel),
        (#[trigger] res2[i]).core_item(),
    ) by {
        if i < res.len() {
            assert(res2[i] == res[i]);
        }
    }
    assert forall|j: int| 0 <= j < stack2.len() implies core_set(res2).contains(
        (#[trigger] stack2[j]).core_item(),
    ) by {
        if j < stack.len() {
            assert(stack2[j] == stack[j]);
        }
    }
    assert forall|i: int| 0 <= i < res2.len() implies on_stack(
        stack2,
        (#[trigger] res2[i]).core_item(),
    ) || expanded(grammar, res2, res2[i].core_item()) || Some(res2[i].core_item()) == Some(
        current,
    ) by {
        if i < res.len() {
            assert(res2[i] == res[i]);
            if on_stack(stack, res[i].core_item()) {
                let j = choose|j: int|
                    0 <= j < stack.len() && (#[trigger] stack[j]).core_item() == res[i].core_item();
                assert(stack2[j] == stack[j]);
            }
        } else {
            assert(stack2[stack.len() as int].core_item() == res2[i].core_item());
        }
    }
    assert forall|i: int| kernel.len() <= i < res2.len() implies (
    #[trigger] res2[i]).marker_position == 0 && res2[i].production_id
        < grammar.productions@.len() by {
        if i < res.len() {
            assert(res2[i] == res[i]);
        }
    }
}

proof fn lemma_worklist_done(
    grammar: &SymbolicGrammar,
    kernel: Seq<LalrItem>,
    res: Seq<LalrItem>,
    stack: Seq<LalrItem>,
    index_of: Seq<Option<usize>>,
    current: SlrItem,
)
    requires
        worklist_inv(grammar, kernel, res, stack, index_of, Some(current)),
        expanded(grammar, res, current),
    ensures
        worklist_inv(grammar, kernel, res, stack, index_of, None),
{
    reveal(worklist_inv);
}

/// What the index says of a production.
proof fn lemma_worklist_index(
    grammar: &SymbolicGrammar,
    kernel: Seq<LalrItem>,
    res: Seq<LalrItem>,
    stack: Seq<LalrItem>,
    index_of: Seq<Option<usize>>,
    current: Option<SlrItem>,
    p: int,
)
    requires
        worklist_inv(grammar, kernel, res, stack, index_of, current),
        0 <= p < grammar.productions@.len(),
    ensures
        index_of.len() == grammar.productions@.len(),
        match index_of[p] {
            Some(i) => i < res.len() && res[i as int].core_item() == (SlrItem {
                production_id: p as usize,
                marker_position: 0,
            }),
            None => true,
        },
{
    reveal(worklist_inv);
}

proof fn lemma_worklist_end(
    grammar: &SymbolicGrammar,
    kernel: Seq<LalrItem>,
    res: Seq<LalrItem>,
    index_of: Seq<Option<usize>>,
)
    requires
        worklist_inv(grammar, kernel, res, Seq::<LalrItem>::empty(), index_of, None),
    ensures
        kernel.len() <= res.len(),
        res.take(kernel.len() as int) == kernel,
        distinct_cores(res),
        core_set(res) == closure_set(grammar, core_set(kernel)),
        forall|i: int|
            kernel.len() <= i < res.len() ==> (#[trigger] res[i]).marker_position == 0
                && res[i].production_id < grammar.productions@.len(),
{
    reveal(worklist_inv);
    let closed = core_set(res);
    let kernel_set = core_set(kernel);
    assert(kernel_set.subset_of(closed)) by {
        assert forall|c: SlrItem| kernel_set.contains(c) implies closed.contains(c) by {
            let i = choose|i: int| 0 <= i < kernel.len() && (#[trigger] kernel[i]).core_item() == c;
            assert(res.take(kernel.len() as int)[i] == res[i]);
        }
    }
    assert forall|from: SlrItem, to: SlrItem|
        closed.contains(from) && #[trigger] expands_to(grammar, from, to) implies closed.contains(
        to,
    ) by {
        let i = choose|i: int| 0 <= i < res.len() && (#[trigger] res[i]).core_item() == from;
        assert(!on_stack(Seq::<LalrItem>::empty(), res[i].core_item()));
        assert(expanded(grammar, res, res[i].core_item()));
    }
    assert forall|c: SlrItem| closure_set(grammar, kernel_set).contains(c) implies closed.contains(
        c,
    ) by {
        lemma_closure_is_least(grammar, kernel_set, closed, c);
    }
    assert(closed =~= closure_set(grammar, kernel_set));
}

/// What follows the symbol behind the marker of `item`.
pub open spec fn rest_of(grammar: &SymbolicGrammar, item: SlrItem) -> Seq<SymbolicSymbol> {
    item.body(grammar).skip(item.marker_position + 1)
}

/// Node `m` carries what the item `source` hands to the items that closure
/// puts beside it: its natural lookahead is what begins the rest of the
/// body, and where that rest is nullable, it depends on the node of `source`.
pub open spec fn carries(
    grammar: &SymbolicGrammar,
    graph: Seq<NodeView>,
    m: int,
    source: LalrItem,
) -> bool {
    &&& 0 <= m < graph.len()
    &&& graph[m].tokens == grammar.first(rest_of(grammar, source.core_item()))
    &&& !graph[m].can_eof_follow
    &&& grammar.nullable(rest_of(grammar, source.core_item())) ==> has_edge(
        graph,
        m,
        source.lookahead_node.0 as int,
    )
}

/// The node `target` is, or depends on, a node that carries what `source`
/// hands on.
pub open spec fn flows(
    grammar: &SymbolicGrammar,
    graph: Seq<NodeView>,
    source: LalrItem,
    target: LookAheadNodeRef,
) -> bool {
    exists|m: int|
        (m == target.0 || has_edge(graph, target.0 as int, m)) && #[trigger] carries(
            grammar,
            graph,
            m,
            source,
        )
}

/// Each item of `items` hands its lookahead on to the items of `items` that
/// closure puts beside it.
pub open spec fn closure_flows(
    grammar: &SymbolicGrammar,
    graph: Seq<NodeView>,
    items: Seq<LalrItem>,
) -> bool {
    forall|i: int, j: int|
        0 <= i < items.len() && 0 <= j < items.len() && #[trigger] expands_to(
            grammar,
            items[i].core_item(),
            items[j].core_item(),
        ) ==> flows(grammar, graph, items[i], items[j].lookahead_node)
}

proof fn lemma_carries_kept(
    grammar: &SymbolicGrammar,
    earlier: Seq<NodeView>,
    later: Seq<NodeView>,
    m: int,
    source: LalrItem,
)
    requires
        graph_extends(earlier, later),
        carries(grammar, earlier, m, source),
    ensures
        carries(grammar, later, m, source),
{
    assert(later[m].tokens == earlier[m].tokens);
    if grammar.nullable(rest_of(grammar, source.core_item())) {
        lemma_edge_kept(earlier, later, m, source.lookahead_node.0 as int);
    }
}

/// What flows in a graph flows in each graph that extends it.
pub proof fn lemma_flows_kept(
    grammar: &SymbolicGrammar,
    earlier: Seq<NodeView>,
    later: Seq<NodeView>,
    source: LalrItem,
    target: LookAheadNodeRef,
)
    requires
        graph_extends(earlier, later),
        flows(grammar, earlier, source, target),
    ensures
        flows(grammar, later, source, target),
{
    let m = choose|m: int|
        (m == target.0 || has_edge(earlier, target.0 as int, m)) && #[trigger] carries(
            grammar,
            earlier,
            m,
            source,
        );
    lemma_carries_kept(grammar, earlier, later, m, source);
    if m != target.0 {
        lemma_edge_kept(earlier, later, target.0 as int, m);
    }
}

/// Where `source` flows to `target`, the lookahead of `target` holds what
/// begins the rest of the body of `source`, and, where that rest is
/// nullable, the lookahead of `source`.
pub proof fn lemma_flows_lookahead(
    grammar: &SymbolicGrammar,
    graph: Seq<NodeView>,
    source: LalrItem,
    target: LookAheadNodeRef,
)
    requires
        flows(grammar, graph, source, target),
        0 <= target.0 < graph.len(),
    ensures
        grammar.first(rest_of(grammar, source.core_item())).subset_of(
            resolved_tokens(graph, target.0 as int),
        ),
        grammar.nullable(rest_of(grammar, source.core_item())) ==> {
            &&& resolved_tokens(graph, source.lookahead_node.0 as int).subset_of(
                resolved_tokens(graph, target.0 as int),
            )
            &&& (resolved_eof(graph, source.lookahead_node.0 as int) ==> resolved_eof(
                graph,
                target.0 as int,
            ))
        },
{
    let m = choose|m: int|
        (m == target.0 || has_edge(graph, target.0 as int, m)) && #[trigger] carries(
            grammar,
            graph,
            m,
            source,
        );
    lemma_reaches_self(graph, m);
    if m != target.0 {
        lemma_reaches_step(graph, target.0 as int, m, m);
    }
    assert(reaches(graph, target.0 as int, m));
    assert forall|token: usize|
        grammar.first(rest_of(grammar, source.core_item())).contains(token) implies resolved_tokens(
        graph,
        target.0 as int,
    ).contains(token) by {
        assert(graph[m].tokens.contains(token));
    }
    if grammar.nullable(rest_of(grammar, source.core_item())) {
        let from = source.lookahead_node.0 as int;
        assert forall|n: int| reaches(graph, from, n) implies reaches(
            graph,
            target.0 as int,
            n,
        ) by {
            lemma_reaches_step(graph, m, from, n);
            if m != target.0 {
                lemma_reaches_step(graph, target.0 as int, m, n);
            }
        }
        assert forall|token: usize|
            resolved_tokens(graph, from).contains(token) implies resolved_tokens(
            graph,
            target.0 as int,
        ).contains(token) by {
            let n = choose|n: int| #[trigger] reaches(graph, from, n) && graph[n].tokens.contains(token);
            assert(reaches(graph, target.0 as int, n));
        }
        if resolved_eof(graph, from) {
            let n = choose|n: int| #[trigger] reaches(graph, from, n) && graph[n].can_eof_follow;
            assert(reaches(graph, target.0 as int, n));
        }
    }
}

/// `items[i]` flows to every item of `items` that closure puts beside it.
spec fn flow_done(grammar: &SymbolicGrammar, graph: Seq<NodeView>, items: Seq<LalrItem>, i: int) -> bool {
    forall|j: int|
        0 <= j < items.len() && #[trigger] expands_to(
            grammar,
            items[i].core_item(),
            items[j].core_item(),
        ) ==> flows(grammar, graph, items[i], items[j].lookahead_node)
}

/// What holds of the lookahead graph while a closure is computed: each item
/// of `res` is still on the stack, or is the item at work, or flows to the
/// items that closure puts beside it, which are all there.
#[verifier::opaque]
spec fn flow_inv(
    grammar: &SymbolicGrammar,
    graph: Seq<NodeView>,
    res: Seq<LalrItem>,
    stack: Seq<LalrItem>,
    current: Option<SlrItem>,
) -> bool {
    &&& distinct_cores(res)
    &&& forall|j: int| 0 <= j < stack.len() ==> res.contains(#[trigger] stack[j])
    &&& forall|i: int|
        0 <= i < res.len() ==> on_stack(stack, (#[trigger] res[i]).core_item()) || Some(
            res[i].core_item(),
        ) == current || (expanded(grammar, res, res[i].core_item()) && flow_done(
            grammar,
            graph,
            res,
            i,
        ))
}

proof fn lemma_flow_start(grammar: &SymbolicGrammar, graph: Seq<NodeView>, kernel: Seq<LalrItem>)
    requires
        distinct_cores(kernel),
    ensures
        flow_inv(grammar, graph, kernel, kernel, None),
{
    reveal(flow_inv);
    assert forall|i: int| 0 <= i < kernel.len() implies on_stack(
        kernel,
        (#[trigger] kernel[i]).core_item(),
    ) by {
        assert(kernel[i].core_item() == kernel[i].core_item());
    }
}

proof fn lemma_flow_pop(
    grammar: &SymbolicGrammar,
    graph: Seq<NodeView>,
    res: Seq<LalrItem>,
    stack: Seq<LalrItem>,
)
    requires
        flow_inv(grammar, graph, res, stack, None),
        stack.len() > 0,
    ensures
        flow_inv(grammar, graph, res, stack.drop_last(), Some(stack.last().core_item())),
        res.contains(stack.last()),
{
    reveal(flow_inv);
    let rest = stack.drop_last();
    let top = stack.last().core_item();
    assert(res.contains(stack[stack.len() - 1]));
    assert forall|j: int| 0 <= j < rest.len() implies res.contains(#[trigger] rest[j]) by {
        assert(rest[j] == stack[j]);
    }
    assert forall|i: int| 0 <= i < res.len() implies on_stack(
        rest,
        (#[trigger] res[i]).core_item(),
    ) || Some(res[i].core_item()) == Some(top) || (expanded(grammar, res, res[i].core_item())
        && flow_done(grammar, graph, res, i)) by {
        if on_stack(stack, res[i].core_item()) {
            let j = choose|j: int|
                0 <= j < stack.len() && (#[trigger] stack[j]).core_item() == res[i].core_item();
            if j < rest.len() {
                assert(rest[j] == stack[j]);
            }
        }
    }
}

proof fn lemma_flow_graph(
    grammar: &SymbolicGrammar,
    earlier: Seq<NodeView>,
    later: Seq<NodeView>,
    res: Seq<LalrItem>,
    stack: Seq<LalrItem>,
    current: Option<SlrItem>,
)
    requires
        flow_inv(grammar, earlier, res, stack, current),
        graph_extends(earlier, later),
    ensures
        flow_inv(grammar, later, res, stack, current),
{
    reveal(flow_inv);
    assert forall|i: int| 0 <= i < res.len() && flow_done(grammar, earlier, res, i) implies flow_done(
        grammar,
        later,
        res,
        i,
    ) by {
        assert forall|j: int|
            0 <= j < res.len() && #[trigger] expands_to(
                grammar,
                res[i].core_item(),
                res[j].core_item(),
            ) implies flows(grammar, later, res[i], res[j].lookahead_node) by {
            lemma_flows_kept(grammar, earlier, later, res[i], res[j].lookahead_node);
        }
    }
}

proof fn lemma_flow_push(
    grammar: &SymbolicGrammar,
    graph: Seq<NodeView>,
    res: Seq<LalrItem>,
    stack: Seq<LalrItem>,
    current: SlrItem,
    item: LalrItem,
)
    requires
        flow_inv(grammar, graph, res, stack, Some(current)),
        !core_set(res).contains(item.core_item()),
    ensures
        flow_inv(grammar, graph, res.push(item), stack.push(item), Some(current)),
{
    reveal(flow_inv);
    let res2 = res.push(item);
    let stack2 = stack.push(item);
    lemma_core_set_push(res, item);
    assert forall|i: int, j: int| 0 <= i < j < res2.len() implies (#[trigger] res2[i]).core_item()
        != (#[trigger] res2[j]).core_item() by {
        assert(res2[i] == res[i]);
        if j == res.len() {
            if res[i].core_item() == item.core_item() {
                assert(core_set(res).contains(item.core_item()));
            }
        } else {
            assert(res2[j] == res[j]);
        }
    }
    assert forall|j: int| 0 <= j < stack2.len() implies res2.contains(#[trigger] stack2[j]) by {
        if j < stack.len() {
            assert(stack2[j] == stack[j]);
            let i = choose|i: int| 0 <= i < res.len() && res[i] == stack[j];
            assert(res2[i] == stack2[j]);
        } else {
            assert(res2[res.len() as int] == stack2[j]);
        }
    }
    assert forall|i: int| 0 <= i < res2.len() implies on_stack(
        stack2,
        (#[trigger] res2[i]).core_item(),
    ) || Some(res2[i].core_item()) == Some(current) || (expanded(
        grammar,
        res2,
        res2[i].core_item(),
    ) && flow_done(grammar, graph, res2, i)) by {
        if i < res.len() {
            assert(res2[i] == res[i]);
            if on_stack(stack, res[i].core_item()) {
                let j = choose|j: int|
                    0 <= j < stack.len() && (#[trigger] stack[j]).core_item() == res[i].core_item();
                assert(stack2[j] == stack[j]);
            } else if res[i].core_item() != current {
                assert forall|j: int|
                    0 <= j < res2.len() && #[trigger] expands_to(
                        grammar,
                        res2[i].core_item(),
                        res2[j].core_item(),
                    ) implies flows(grammar, graph, res2[i], res2[j].lookahead_node) by {
                    if j < res.len() {
                        assert(res2[j] == res[j]);
                    } else {
                        assert(core_set(res).contains(item.core_item()));
                    }
                }
            }
        } else {
            assert(stack2[stack.len() as int].core_item() == res2[i].core_item());
        }
    }
}

proof fn lemma_flow_finish(
    grammar: &SymbolicGrammar,
    graph: Seq<NodeView>,
    res: Seq<LalrItem>,
    stack: Seq<LalrItem>,
    item: LalrItem,
)
    requires
        flow_inv(grammar, graph, res, stack, Some(item.core_item())),
        res.contains(item),
        expanded(grammar, res, item.core_item()),
        forall|j: int|
            0 <= j < res.len() && #[trigger] expands_to(
                grammar,
                item.core_item(),
                res[j].core_item(),
            ) ==> flows(grammar, graph, item, res[j].lookahead_node),
    ensures
        flow_inv(grammar, graph, res, stack, None),
{
    reveal(flow_inv);
    let at = choose|i: int| 0 <= i < res.len() && res[i] == item;
    assert forall|i: int| 0 <= i < res.len() implies on_stack(
        stack,
        (#[trigger] res[i]).core_item(),
    ) || (expanded(grammar, res, res[i].core_item()) && flow_done(grammar, graph, res, i)) by {
        if res[i].core_item() == item.core_item() {
            if i < at {
                assert(res[i].core_item() != res[at].core_item());
            } else if at < i {
                assert(res[at].core_item() != res[i].core_item());
            }
        }
    }
}

proof fn lemma_flow_end(grammar: &SymbolicGrammar, graph: Seq<NodeView>, res: Seq<LalrItem>)
    requires
        flow_inv(grammar, graph, res, Seq::<LalrItem>::empty(), None),
    ensures
        closure_flows(grammar, graph, res),
{
    reveal(flow_inv);
    assert forall|i: int, j: int|
        0 <= i < res.len() && 0 <= j < res.len() && #[trigger] expands_to(
            grammar,
            res[i].core_item(),
            res[j].core_item(),
        ) implies flows(grammar, graph, res[i], res[j].lookahead_node) by {
        assert(!on_stack(Seq::<LalrItem>::empty(), res[i].core_item()));
        assert(flow_done(grammar, graph, res, i));
    }
}

proof fn lemma_worklist_distinct(
    grammar: &SymbolicGrammar,
    kernel: Seq<LalrItem>,
    res: Seq<LalrItem>,
    stack: Seq<LalrItem>,
    index_of: Seq<Option<usize>>,
    current: Option<SlrItem>,
)
    requires
        worklist_inv(grammar, kernel, res, stack, index_of, current),
    ensures
        distinct_cores(res),
{
    reveal(worklist_inv);
}

/// What the worklist says of an item that is not there yet.
proof fn lemma_worklist_absent(
    grammar: &SymbolicGrammar,
    kernel: Seq<LalrItem>,
    res: Seq<LalrItem>,
    stack: Seq<LalrItem>,
    index_of: Seq<Option<usize>>,
    current: Option<SlrItem>,
    p: int,
)
    requires
        worklist_inv(grammar, kernel, res, stack, index_of, current),
        0 <= p < grammar.productions@.len(),
        index_of[p] is None,
    ensures
        !core_set(res).contains(fresh_item(p)),
        kernel.len() <= res.len(),
{
    reveal(worklist_inv);
}

/// The marker of `item` stands before a non-terminal.
pub open spec fn before_non_terminal(grammar: &SymbolicGrammar, item: LalrItem) -> bool {
    item.core_item().pointed(grammar) is Some && item.core_item().pointed(grammar)->Some_0
        is NonTerminal
}

/// Node `m` is the node that `maker` made: its natural lookahead is what
/// begins the rest of the body of `maker`, without the end of input, and
/// where that rest is nullable its first dependency is the node of `maker`.
pub open spec fn made_by(
    grammar: &SymbolicGrammar,
    graph: Seq<NodeView>,
    m: int,
    maker: LalrItem,
) -> bool {
    &&& before_non_terminal(grammar, maker)
    &&& graph[m].tokens == grammar.first(rest_of(grammar, maker.core_item()))
    &&& !graph[m].can_eof_follow
    &&& grammar.nullable(rest_of(grammar, maker.core_item())) ==> graph[m].dependencies.len() >= 1
        && graph[m].dependencies[0] == maker.lookahead_node
}

/// The number of dependencies that node `m` had before a closure added any:
/// those of the graph before, or, for a node that the closure made, the node
/// of its maker where the rest of the maker's body is nullable.
pub open spec fn own_dependencies(
    grammar: &SymbolicGrammar,
    before: Seq<NodeView>,
    items: Seq<LalrItem>,
    makers: Seq<int>,
    m: int,
) -> int {
    if m < before.len() {
        before[m].dependencies.len() as int
    } else if grammar.nullable(rest_of(grammar, items[makers[m - before.len()]].core_item())) {
        1
    } else {
        0
    }
}

/// The dependency at position `d` of node `m` is one that the closure
/// added: it leads to the node that an item made, from the node of an item
/// that closure puts beside that item.
pub open spec fn added_by_closure(
    grammar: &SymbolicGrammar,
    before: Seq<NodeView>,
    graph: Seq<NodeView>,
    items: Seq<LalrItem>,
    makers: Seq<int>,
    m: int,
    d: int,
) -> bool {
    exists|k: int, j: int|
        0 <= k < makers.len() && 0 <= j < items.len() && graph[m].dependencies[d].0
            == before.len() + k && items[j].lookahead_node.0 == m && #[trigger] expands_to(
            grammar,
            items[makers[k]].core_item(),
            items[j].core_item(),
        )
}

/// What a closure did to the graph, and nothing else: each item whose
/// marker stands before a non-terminal made one node, `makers` saying which
/// item made which; each item that the closure added has the node of an item
/// beside which closure puts it; and each dependency that was added leads from
/// the node of an item to the node made by an item beside which closure puts
/// it.
pub open spec fn closure_exact(
    grammar: &SymbolicGrammar,
    before: Seq<NodeView>,
    graph: Seq<NodeView>,
    items: Seq<LalrItem>,
    kernel_len: int,
    makers: Seq<int>,
) -> bool {
    &&& 0 <= kernel_len
    &&& graph.len() == before.len() + makers.len()
    &&& makers.no_duplicates()
    &&& forall|k: int|
        0 <= k < makers.len() ==> 0 <= #[trigger] makers[k] < items.len() && made_by(
            grammar,
            graph,
            before.len() + k,
            items[makers[k]],
        )
    &&& forall|i: int|
        0 <= i < items.len() && before_non_terminal(grammar, #[trigger] items[i])
            ==> makers.contains(i)
    &&& forall|m: int, d: int|
        0 <= m < graph.len() && own_dependencies(grammar, before, items, makers, m) <= d
            < graph[m].dependencies.len() ==> #[trigger] added_by_closure(
            grammar,
            before,
            graph,
            items,
            makers,
            m,
            d,
        )
    &&& forall|j: int|
        kernel_len <= j < items.len() ==> #[trigger] took_node(
            grammar,
            before,
            items,
            makers,
            j,
        )
}

/// The item at position `j` has the node made by an item beside which
/// closure puts it.
pub open spec fn took_node(
    grammar: &SymbolicGrammar,
    before: Seq<NodeView>,
    items: Seq<LalrItem>,
    makers: Seq<int>,
    j: int,
) -> bool {
    exists|k: int|
        0 <= k < makers.len() && items[j].lookahead_node.0 == before.len() + k
            && #[trigger] expands_to(
            grammar,
            items[makers[k]].core_item(),
            items[j].core_item(),
        )
}

/// What holds of the nodes and dependencies while a closure is computed.
/// `current` is the item at work for which no node has been made yet.
#[verifier::opaque]
spec fn made_inv(
    grammar: &SymbolicGrammar,
    before: Seq<NodeView>,
    graph: Seq<NodeView>,
    res: Seq<LalrItem>,
    stack: Seq<LalrItem>,
    kernel_len: int,
    makers: Seq<int>,
    current: Option<int>,
) -> bool {
    &&& graph_extends(before, graph)
    &&& 0 <= kernel_len
    &&& graph.len() == before.len() + makers.len()
    &&& makers.no_duplicates()
    &&& distinct_cores(res)
    &&& distinct_cores(stack)
    &&& forall|s: int| 0 <= s < stack.len() ==> res.contains(#[trigger] stack[s])
    &&& forall|k: int|
        0 <= k < makers.len() ==> 0 <= #[trigger] makers[k] < res.len() && made_by(
            grammar,
            graph,
            before.len() + k,
            res[makers[k]],
        ) && !on_stack(stack, res[makers[k]].core_item()) && Some(makers[k]) != current
    &&& forall|i: int|
        0 <= i < res.len() && before_non_terminal(grammar, #[trigger] res[i]) ==> on_stack(
            stack,
            res[i].core_item(),
        ) || makers.contains(i) || Some(i) == current
    &&& match current {
        Some(at) => 0 <= at < res.len() && !on_stack(stack, res[at].core_item()),
        None => true,
    }
    &&& forall|m: int, d: int|
        0 <= m < graph.len() && own_dependencies(grammar, before, res, makers, m) <= d
            < graph[m].dependencies.len() ==> #[trigger] added_by_closure(
            grammar,
            before,
            graph,
            res,
            makers,
            m,
            d,
        )
    &&& forall|j: int|
        kernel_len <= j < res.len() ==> #[trigger] took_node(grammar, before, res, makers, j)
}

proof fn lemma_made_start(grammar: &SymbolicGrammar, graph: Seq<NodeView>, kernel: Seq<LalrItem>)
    requires
        distinct_cores(kernel),
    ensures
        made_inv(grammar, graph, graph, kernel, kernel, kernel.len() as int, Seq::empty(), None),
{
    reveal(made_inv);
    assert forall|i: int| 0 <= i < kernel.len() implies on_stack(
        kernel,
        (#[trigger] kernel[i]).core_item(),
    ) by {
        assert(kernel[i].core_item() == kernel[i].core_item());
    }
}

proof fn lemma_made_pop(
    grammar: &SymbolicGrammar,
    before: Seq<NodeView>,
    graph: Seq<NodeView>,
    res: Seq<LalrItem>,
    stack: Seq<LalrItem>,
    kernel_len: int,
    makers: Seq<int>,
) -> (at: int)
    requires
        made_inv(grammar, before, graph, res, stack, kernel_len, makers, None),
        stack.len() > 0,
    ensures
        0 <= at < res.len(),
        res[at] == stack.last(),
        made_inv(grammar, before, graph, res, stack.drop_last(), kernel_len, makers, Some(at)),
{
    reveal(made_inv);
    let rest = stack.drop_last();
    let top = stack.last();
    assert(res.contains(stack[stack.len() - 1]));
    let at = choose|i: int| 0 <= i < res.len() && res[i] == top;
    assert forall|a: int, b: int| 0 <= a < b < rest.len() implies (#[trigger] rest[a]).core_item()
        != (#[trigger] rest[b]).core_item() by {
        assert(rest[a] == stack[a] && rest[b] == stack[b]);
    }
    assert(!on_stack(rest, top.core_item())) by {
        if on_stack(rest, top.core_item()) {
            let j = choose|j: int| 0 <= j < rest.len() && (#[trigger] rest[j]).core_item() == top.core_item();
            assert(stack[j].core_item() != stack[stack.len() - 1].core_item());
        }
    }
    assert forall|s: int| 0 <= s < rest.len() implies res.contains(#[trigger] rest[s]) by {
        assert(rest[s] == stack[s]);
    }
    assert forall|k: int| 0 <= k < makers.len() implies 0 <= #[trigger] makers[k] < res.len()
        && made_by(grammar, graph, before.len() + k, res[makers[k]]) && !on_stack(
        rest,
        res[makers[k]].core_item(),
    ) && Some(makers[k]) != Some(at) by {
        if on_stack(rest, res[makers[k]].core_item()) {
            let j = choose|j: int|
                0 <= j < rest.len() && (#[trigger] rest[j]).core_item()
                    == res[makers[k]].core_item();
            assert(stack[j].core_item() == res[makers[k]].core_item());
        }
        if makers[k] == at {
            assert(stack[stack.len() - 1].core_item() == res[makers[k]].core_item());
        }
    }
    assert forall|i: int|
        0 <= i < res.len() && before_non_terminal(grammar, #[trigger] res[i]) implies on_stack(
        rest,
        res[i].core_item(),
    ) || makers.contains(i) || Some(i) == Some(at) by {
        if on_stack(stack, res[i].core_item()) {
            let j = choose|j: int|
                0 <= j < stack.len() && (#[trigger] stack[j]).core_item() == res[i].core_item();
            if j < rest.len() {
                assert(rest[j] == stack[j]);
            } else {
                if i < at {
                    assert(res[i].core_item() != res[at].core_item());
                } else if at < i {
                    assert(res[at].core_item() != res[i].core_item());
                }
            }
        }
    }
    at
}

/// The item at work is done without a node: its marker does not stand
/// before a non-terminal.
proof fn lemma_made_pass(
    grammar: &SymbolicGrammar,
    before: Seq<NodeView>,
    graph: Seq<NodeView>,
    res: Seq<LalrItem>,
    stack: Seq<LalrItem>,
    kernel_len: int,
    makers: Seq<int>,
    at: int,
)
    requires
        made_inv(grammar, before, graph, res, stack, kernel_len, makers, Some(at)),
        !before_non_terminal(grammar, res[at]),
    ensures
        made_inv(grammar, before, graph, res, stack, kernel_len, makers, None),
{
    reveal(made_inv);
}

/// The item at work makes its node.
proof fn lemma_made_node(
    grammar: &SymbolicGrammar,
    before: Seq<NodeView>,
    graph: Seq<NodeView>,
    res: Seq<LalrItem>,
    stack: Seq<LalrItem>,
    kernel_len: int,
    makers: Seq<int>,
    at: int,
    node: NodeView,
)
    requires
        made_inv(grammar, before, graph, res, stack, kernel_len, makers, Some(at)),
        before_non_terminal(grammar, res[at]),
        node.tokens == grammar.first(rest_of(grammar, res[at].core_item())),
        !node.can_eof_follow,
        node.dependencies == if grammar.nullable(rest_of(grammar, res[at].core_item())) {
            seq![res[at].lookahead_node]
        } else {
            Seq::<LookAheadNodeRef>::empty()
        },
    ensures
        made_inv(
            grammar,
            before,
            graph.push(node),
            res,
            stack,
            kernel_len,
            makers.push(at),
            None,
        ),
{
    reveal(made_inv);
    let later = graph.push(node);
    let more = makers.push(at);
    assert(graph_extends(graph, later));
    lemma_extends_transitive(before, graph, later);
    assert forall|a: int, b: int| 0 <= a < more.len() && 0 <= b < more.len() && a
        != b implies more[a] != more[b] by {
        if a < makers.len() && b < makers.len() {
            assert(makers[a] != makers[b]);
        } else if a < makers.len() {
            assert(makers[a] != at);
        } else {
            assert(makers[b] != at);
        }
    }
    assert forall|k: int| 0 <= k < more.len() implies 0 <= #[trigger] more[k] < res.len()
        && made_by(grammar, later, before.len() + k, res[more[k]]) && !on_stack(
        stack,
        res[more[k]].core_item(),
    ) && Some(more[k]) != None::<int> by {
        if k < makers.len() {
            assert(more[k] == makers[k]);
            assert(later[before.len() + k] == graph[before.len() + k]);
        } else {
            assert(later[before.len() + k] == node);
        }
    }
    assert forall|i: int|
        0 <= i < res.len() && before_non_terminal(grammar, #[trigger] res[i]) implies on_stack(
        stack,
        res[i].core_item(),
    ) || more.contains(i) by {
        if makers.contains(i) {
            let k = choose|k: int| 0 <= k < makers.len() && makers[k] == i;
            assert(more[k] == i);
        } else if i == at {
            assert(more[makers.len() as int] == i);
        }
    }
    assert forall|m: int| 0 <= m < later.len() implies #[trigger] own_dependencies(
        grammar,
        before,
        res,
        more,
        m,
    ) == if m < graph.len() {
        own_dependencies(grammar, before, res, makers, m)
    } else {
        node.dependencies.len() as int
    } by {
        if before.len() <= m < graph.len() {
            assert(more[m - before.len()] == makers[m - before.len()]);
        } else if m >= graph.len() {
            assert(more[m - before.len()] == at);
        }
    }
    assert forall|m: int, d: int|
        0 <= m < later.len() && own_dependencies(grammar, before, res, more, m) <= d
            < later[m].dependencies.len() implies #[trigger] added_by_closure(
        grammar,
        before,
        later,
        res,
        more,
        m,
        d,
    ) by {
        assert(m < graph.len());
        assert(later[m] == graph[m]);
        assert(added_by_closure(grammar, before, graph, res, makers, m, d));
        let (k, j) = choose|k: int, j: int|
            0 <= k < makers.len() && 0 <= j < res.len() && graph[m].dependencies[d].0
                == before.len() + k && res[j].lookahead_node.0 == m && #[trigger] expands_to(
                grammar,
                res[makers[k]].core_item(),
                res[j].core_item(),
            );
        assert(more[k] == makers[k]);
        assert(expands_to(grammar, res[more[k]].core_item(), res[j].core_item()));
    }
    assert forall|j: int| kernel_len <= j < res.len() implies #[trigger] took_node(
        grammar,
        before,
        res,
        more,
        j,
    ) by {
        assert(took_node(grammar, before, res, makers, j));
        let k = choose|k: int|
            0 <= k < makers.len() && res[j].lookahead_node.0 == before.len() + k
                && #[trigger] expands_to(grammar, res[makers[k]].core_item(), res[j].core_item());
        assert(more[k] == makers[k]);
        assert(expands_to(grammar, res[more[k]].core_item(), res[j].core_item()));
    }
}

/// An item that is there gets the node of the item at work as a dependency.
proof fn lemma_made_edge(
    grammar: &SymbolicGrammar,
    before: Seq<NodeView>,
    graph: Seq<NodeView>,
    res: Seq<LalrItem>,
    stack: Seq<LalrItem>,
    kernel_len: int,
    makers: Seq<int>,
    there: int,
)
    requires
        made_inv(grammar, before, graph, res, stack, kernel_len, makers, None),
        makers.len() > 0,
        graph.len() <= usize::MAX,
        0 <= there < res.len(),
        0 <= res[there].lookahead_node.0 < graph.len(),
        expands_to(grammar, res[makers.last()].core_item(), res[there].core_item()),
    ensures
        made_inv(
            grammar,
            before,
            with_dependency(
                graph,
                res[there].lookahead_node.0 as int,
                LookAheadNodeRef((before.len() + makers.len() - 1) as usize),
            ),
            res,
            stack,
            kernel_len,
            makers,
            None,
        ),
{
    reveal(made_inv);
    let from = res[there].lookahead_node.0 as int;
    let to = LookAheadNodeRef((before.len() + makers.len() - 1) as usize);
    let later = with_dependency(graph, from, to);
    assert(graph_extends(graph, later));
    lemma_extends_transitive(before, graph, later);
    assert forall|k: int| 0 <= k < makers.len() implies 0 <= #[trigger] makers[k] < res.len()
        && made_by(grammar, later, before.len() + k, res[makers[k]]) && !on_stack(
        stack,
        res[makers[k]].core_item(),
    ) && Some(makers[k]) != None::<int> by {
        let m = before.len() + k;
        assert(made_by(grammar, graph, m, res[makers[k]]));
        if grammar.nullable(rest_of(grammar, res[makers[k]].core_item())) {
            assert(later[m].dependencies[0] == graph[m].dependencies[0]);
        }
    }
    assert forall|m: int, d: int|
        0 <= m < later.len() && own_dependencies(grammar, before, res, makers, m) <= d
            < later[m].dependencies.len() implies #[trigger] added_by_closure(
        grammar,
        before,
        later,
        res,
        makers,
        m,
        d,
    ) by {
        if m == from && d == graph[m].dependencies.len() {
            let k = makers.len() - 1;
            assert(later[m].dependencies[d] == to);
            assert(to.0 == before.len() + k);
            assert(res[there].lookahead_node.0 == m);
            assert(expands_to(grammar, res[makers[k]].core_item(), res[there].core_item()));
        } else {
            assert(d < graph[m].dependencies.len());
            assert(later[m].dependencies[d] == graph[m].dependencies[d]);
            assert(added_by_closure(grammar, before, graph, res, makers, m, d));
            let (k, j) = choose|k: int, j: int|
                0 <= k < makers.len() && 0 <= j < res.len() && graph[m].dependencies[d].0
                    == before.len() + k && res[j].lookahead_node.0 == m && #[trigger] expands_to(
                    grammar,
                    res[makers[k]].core_item(),
                    res[j].core_item(),
                );
            assert(expands_to(grammar, res[makers[k]].core_item(), res[j].core_item()));
        }
    }
}

/// An item that was not there comes in with the node of the item at work.
proof fn lemma_made_push(
    grammar: &SymbolicGrammar,
    before: Seq<NodeView>,
    graph: Seq<NodeView>,
    res: Seq<LalrItem>,
    stack: Seq<LalrItem>,
    kernel_len: int,
    makers: Seq<int>,
    item: LalrItem,
)
    requires
        made_inv(grammar, before, graph, res, stack, kernel_len, makers, None),
        makers.len() > 0,
        kernel_len <= res.len(),
        !core_set(res).contains(item.core_item()),
        item.lookahead_node.0 == before.len() + makers.len() - 1,
        expands_to(grammar, res[makers.last()].core_item(), item.core_item()),
    ensures
        made_inv(
            grammar,
            before,
            graph,
            res.push(item),
            stack.push(item),
            kernel_len,
            makers,
            None,
        ),
{
    reveal(made_inv);
    let res2 = res.push(item);
    let stack2 = stack.push(item);
    lemma_core_set_push(res, item);
    assert forall|i: int, j: int| 0 <= i < j < res2.len() implies (#[trigger] res2[i]).core_item()
        != (#[trigger] res2[j]).core_item() by {
        assert(res2[i] == res[i]);
        if j == res.len() {
            if res[i].core_item() == item.core_item() {
                assert(core_set(res).contains(item.core_item()));
            }
        } else {
            assert(res2[j] == res[j]);
        }
    }
    assert forall|a: int, b: int| 0 <= a < b < stack2.len() implies (
    #[trigger] stack2[a]).core_item() != (#[trigger] stack2[b]).core_item() by {
        assert(stack2[a] == stack[a]);
        if b == stack.len() {
            assert(res.contains(stack[a]));
            let i = choose|i: int| 0 <= i < res.len() && res[i] == stack[a];
            if stack[a].core_item() == item.core_item() {
                assert(core_set(res).contains(res[i].core_item()));
            }
        } else {
            assert(stack2[b] == stack[b]);
        }
    }
    assert forall|s: int| 0 <= s < stack2.len() implies res2.contains(#[trigger] stack2[s]) by {
        if s < stack.len() {
            assert(stack2[s] == stack[s]);
            let i = choose|i: int| 0 <= i < res.len() && res[i] == stack[s];
            assert(res2[i] == stack2[s]);
        } else {
            assert(res2[res.len() as int] == stack2[s]);
        }
    }
    assert forall|k: int| 0 <= k < makers.len() implies 0 <= #[trigger] makers[k] < res2.len()
        && made_by(grammar, graph, before.len() + k, res2[makers[k]]) && !on_stack(
        stack2,
        res2[makers[k]].core_item(),
    ) && Some(makers[k]) != None::<int> by {
        assert(res2[makers[k]] == res[makers[k]]);
        if on_stack(stack2, res[makers[k]].core_item()) {
            let j = choose|j: int|
                0 <= j < stack2.len() && (#[trigger] stack2[j]).core_item()
                    == res[makers[k]].core_item();
            if j < stack.len() {
                assert(stack[j].core_item() == res[makers[k]].core_item());
            } else {
                assert(core_set(res).contains(res[makers[k]].core_item()));
            }
        }
    }
    assert forall|i: int|
        0 <= i < res2.len() && before_non_terminal(grammar, #[trigger] res2[i]) implies on_stack(
        stack2,
        res2[i].core_item(),
    ) || makers.contains(i) by {
        if i < res.len() {
            assert(res2[i] == res[i]);
            if on_stack(stack, res[i].core_item()) {
                let j = choose|j: int|
                    0 <= j < stack.len() && (#[trigger] stack[j]).core_item() == res[i].core_item();
                assert(stack2[j] == stack[j]);
            }
        } else {
            assert(stack2[stack.len() as int].core_item() == res2[i].core_item());
        }
    }
    assert forall|m: int| 0 <= m < graph.len() implies #[trigger] own_dependencies(
        grammar,
        before,
        res2,
        makers,
        m,
    ) == own_dependencies(grammar, before, res, makers, m) by {
        if m >= before.len() {
            assert(res2[makers[m - before.len()]] == res[makers[m - before.len()]]);
        }
    }
    assert forall|m: int, d: int|
        0 <= m < graph.len() && own_dependencies(grammar, before, res2, makers, m) <= d
            < graph[m].dependencies.len() implies #[trigger] added_by_closure(
        grammar,
        before,
        graph,
        res2,
        makers,
        m,
        d,
    ) by {
        assert(added_by_closure(grammar, before, graph, res, makers, m, d));
        let (k, j) = choose|k: int, j: int|
            0 <= k < makers.len() && 0 <= j < res.len() && graph[m].dependencies[d].0
                == before.len() + k && res[j].lookahead_node.0 == m && #[trigger] expands_to(
                grammar,
                res[makers[k]].core_item(),
                res[j].core_item(),
            );
        assert(res2[makers[k]] == res[makers[k]] && res2[j] == res[j]);
        assert(expands_to(grammar, res2[makers[k]].core_item(), res2[j].core_item()));
    }
    assert forall|j: int| kernel_len <= j < res2.len() implies #[trigger] took_node(
        grammar,
        before,
        res2,
        makers,
        j,
    ) by {
        if j < res.len() {
            assert(took_node(grammar, before, res, makers, j));
            let k = choose|k: int|
                0 <= k < makers.len() && res[j].lookahead_node.0 == before.len() + k
                    && #[trigger] expands_to(
                    grammar,
                    res[makers[k]].core_item(),
                    res[j].core_item(),
                );
            assert(res2[makers[k]] == res[makers[k]] && res2[j] == res[j]);
            assert(expands_to(grammar, res2[makers[k]].core_item(), res2[j].core_item()));
        } else {
            let k = makers.len() - 1;
            assert(res2[makers[k]] == res[makers[k]]);
            assert(expands_to(grammar, res2[makers[k]].core_item(), res2[j].core_item()));
        }
    }
}

proof fn lemma_made_len(
    grammar: &SymbolicGrammar,
    before: Seq<NodeView>,
    graph: Seq<NodeView>,
    res: Seq<LalrItem>,
    stack: Seq<LalrItem>,
    kernel_len: int,
    makers: Seq<int>,
    current: Option<int>,
)
    requires
        made_inv(grammar, before, graph, res, stack, kernel_len, makers, current),
    ensures
        graph.len() == before.len() + makers.len(),
{
    reveal(made_inv);
}

proof fn lemma_made_end(
    grammar: &SymbolicGrammar,
    before: Seq<NodeView>,
    graph: Seq<NodeView>,
    res: Seq<LalrItem>,
    kernel_len: int,
    makers: Seq<int>,
)
    requires
        made_inv(
            grammar,
            before,
            graph,
            res,
            Seq::<LalrItem>::empty(),
            kernel_len,
            makers,
            None,
        ),
    ensures
        closure_exact(grammar, before, graph, res, kernel_len, makers),
{
    reveal(made_inv);
    assert forall|i: int|
        0 <= i < res.len() && before_non_terminal(grammar, #[trigger] res[i]) implies makers.contains(
        i,
    ) by {
        assert(!on_stack(Seq::<LalrItem>::empty(), res[i].core_item()));
    }
}

pub proof fn lemma_items_ok_push(
    items: Seq<LalrItem>,
    item: LalrItem,
    grammar: &SymbolicGrammar,
    graph: &LookAheadGraph,
)
    requires
        items_ok(items, grammar, graph),
        item.core_item().valid(grammar),
        graph.contains_node(item.lookahead_node),
    ensures
        items_ok(items.push(item), grammar, graph),
{
    assert forall|i: int| 0 <= i < items.push(item).len() implies {
        &&& (#[trigger] items.push(item)[i]).core_item().valid(grammar)
        &&& graph.contains_node(items.push(item)[i].lookahead_node)
    } by {
        if i < items.len() {
            assert(items.push(item)[i] == items[i]);
        }
    }
}

/// Items stay in order when their graph gets more nodes.
pub proof fn lemma_items_ok_grow(
    items: Seq<LalrItem>,
    grammar: &SymbolicGrammar,
    before: &LookAheadGraph,
    after: &LookAheadGraph,
)
    requires
        items_ok(items, grammar, before),
        before.nodes@.len() <= after.nodes@.len(),
    ensures
        items_ok(items, grammar, after),
{
}

impl LalrState {
    /// The unmarked state of the given kernel.
    pub fn new(kernel: Vec<LalrItem>) -> (state: Self)
        ensures
            state.kernel == kernel,
            !state.marked,
            state.epsilon_items@.len() == 0,
    {
        Self { kernel, marked: false, epsilon_items: Vec::new() }
    }

    /// The closure of the kernel, the kernel first. Each item whose marker
    /// stands before a non-terminal gets a fresh lookahead node for what can
    /// follow that non-terminal; the fresh items of the non-terminal's
    /// productions take that node, and those that are there already get it
    /// as a dependency.
    pub fn closure(&self, graph: &mut LookAheadGraph, grammar: &SymbolicGrammar) -> (res: Vec<
        LalrItem,
    >)
        requires
            grammar.wf(),
            old(graph).wf(),
            old(graph).token_count == grammar.token_count,
            items_ok(self.kernel@, grammar, old(graph)),
            distinct_cores(self.kernel@),
        ensures
            final(graph).wf(),
            final(graph).token_count == grammar.token_count,
            graph_extends(old(graph)@, final(graph)@),
            self.kernel@.len() <= res@.len(),
            res@.take(self.kernel@.len() as int) == self.kernel@,
            items_ok(res@, grammar, final(graph)),
            distinct_cores(res@),
            core_set(res@) == closure_set(grammar, core_set(self.kernel@)),
            forall|i: int|
                self.kernel@.len() <= i < res@.len() ==> (#[trigger] res@[i]).marker_position == 0
                    && res@[i].production_id < grammar.productions@.len(),
            closure_flows(grammar, final(graph)@, res@),
            exists|makers: Seq<int>| #[trigger]
                closure_exact(
                    grammar,
                    old(graph)@,
                    final(graph)@,
                    res@,
                    self.kernel@.len() as int,
                    makers,
                ),
    {
        let production_count = grammar.productions.len();
        let mut index_of: Vec<Option<usize>> = Vec::new();
        let mut p: usize = 0;
        while p < production_count
            invariant
                p <= production_count,
                index_of@.len() == p,
                forall|q: int| 0 <= q < p ==> #[trigger] index_of@[q] is None,
            decreases production_count - p,
        {
            index_of.push(None);
            p += 1;
        }
        let mut res: Vec<LalrItem> = Vec::new();
        let mut stack: Vec<LalrItem> = Vec::new();
        let mut k: usize = 0;
        while k < self.kernel.len()
            invariant
                k <= self.kernel@.len(),
                production_count == grammar.productions@.len(),
                index_of@.len() == production_count,
                res@ == self.kernel@.take(k as int),
                stack@ == res@,
                distinct_cores(self.kernel@),
                index_ok(index_of@, res@),
            decreases self.kernel@.len() - k,
        {
            let item = self.kernel[k];
            let ghost before = res@;
            if item.marker_position == 0 && item.production_id < production_count {
                index_of[item.production_id] = Some(k);
            }
            res.push(item);
            stack.push(item);
            proof {
                assert(res@ =~= self.kernel@.take(k + 1));
                lemma_core_set_push(before, item);
                assert forall|q: int| 0 <= q < index_of@.len() implies match #[trigger] index_of@[q] {
                    Some(i) => i < res@.len() && res@[i as int].core_item() == (SlrItem {
                        production_id: q as usize,
                        marker_position: 0,
                    }),
                    None => !core_set(res@).contains(
                        SlrItem { production_id: q as usize, marker_position: 0 },
                    ),
                } by {
                    let wanted = SlrItem { production_id: q as usize, marker_position: 0 };
                    if item.core_item() != wanted {
                        match index_of@[q] {
                            Some(i) => {
                                assert(before[i as int] == res@[i as int]);
                            },
                            None => {},
                        }
                    }
                }
            }
            k += 1;
        }
        proof {
            assert(res@ =~= self.kernel@);
            lemma_worklist_start(grammar, self.kernel@, index_of@);
            lemma_flow_start(grammar, graph@, self.kernel@);
            lemma_made_start(grammar, graph@, self.kernel@);
        }
        let ghost mut makers: Seq<int> = Seq::empty();
        while stack.len() > 0
            invariant
                grammar.wf(),
                graph.wf(),
                graph.token_count == grammar.token_count,
                graph_extends(old(graph)@, graph@),
                production_count == grammar.productions@.len(),
                items_ok(res@, grammar, graph),
                items_ok(stack@, grammar, graph),
                worklist_inv(grammar, self.kernel@, res@, stack@, index_of@, None),
                flow_inv(grammar, graph@, res@, stack@, None),
                made_inv(
                    grammar,
                    old(graph)@,
                    graph@,
                    res@,
                    stack@,
                    self.kernel@.len() as int,
                    makers,
                    None,
                ),
            decreases none_count(index_of@), stack@.len(),
        {
            let ghost stack_before = stack@;
            let ghost missing = none_count(index_of@);
            let ghost at: int;
            proof {
                lemma_worklist_pop(grammar, self.kernel@, res@, stack@, index_of@);
                lemma_flow_pop(grammar, graph@, res@, stack@);
                at = lemma_made_pop(
                    grammar,
                    old(graph)@,
                    graph@,
                    res@,
                    stack@,
                    self.kernel@.len() as int,
                    makers,
                );
            }
            let item = stack.pop().unwrap();
            let ghost popped = stack@;
            assert(popped =~= stack_before.drop_last());
            assert(item == stack_before[stack_before.len() - 1]);
            assert(item.core_item().valid(grammar));
            let production = grammar.get_production(item.production_id).unwrap();
            let mut beside: Option<usize> = None;
            if item.marker_position < production.body.len() {
                match production.body[item.marker_position] {
                    SymbolicSymbol::NonTerminal(non_terminal) => {
                        beside = Some(non_terminal);
                    },
                    _ => {},
                }
            }
            assert(beside is None ==> forall|to: SlrItem| !expands_to(grammar, item.core_item(), to));
            match beside {
                Some(non_terminal) => {
                    assert(item.core_item().pointed(grammar) == Some(
                        SymbolicSymbol::NonTerminal(non_terminal),
                    ));
                    let beta = slice_subrange(
                        production.body.as_slice(),
                        item.marker_position + 1,
                        production.body.len(),
                    );
                    proof {
                        assert forall|i: int| 0 <= i < beta@.len() implies grammar.symbol_in_range(
                            #[trigger] beta@[i],
                        ) by {
                            assert(beta@[i] == production.body@[item.marker_position + 1 + i]);
                            if item.production_id != SPECIAL_ID {
                                assert(grammar.symbols_in_range(
                                    grammar.productions@[item.production_id as int].body@,
                                ));
                            }
                        }
                    }
                    let firsts = grammar.first_set(beta);
                    let natural_lookahead = LookAhead {
                        tokens: firsts.tokens,
                        can_eof_follow: false,
                    };
                    let mut dependencies: Vec<LookAheadNodeRef> = Vec::new();
                    if firsts.nullable {
                        dependencies.push(item.lookahead_node);
                    }
                    let ghost graph_before = graph@;
                    let ghost nodes_before = graph.nodes@.len();
                    let lookahead_node = LookAheadNodeRef::new(
                        graph,
                        natural_lookahead,
                        dependencies,
                    );
                    proof {
                        lemma_graph_extends_push(graph_before, graph@.last());
                        assert(graph@ =~= graph_before.push(graph@.last()));
                        lemma_extends_transitive(old(graph)@, graph_before, graph@);
                        assert(graph@.len() == graph.nodes@.len());
                        assert(graph_before.len() == nodes_before);
                        lemma_flow_graph(
                            grammar,
                            graph_before,
                            graph@,
                            res@,
                            stack@,
                            Some(item.core_item()),
                        );
                        assert(rest_of(grammar, item.core_item()) =~= beta@);
                        if firsts.nullable {
                            let deps = graph@[lookahead_node.0 as int].dependencies;
                            assert(deps[0] == item.lookahead_node);
                            assert(has_edge(
                                graph@,
                                lookahead_node.0 as int,
                                item.lookahead_node.0 as int,
                            ));
                        }
                        assert(carries(grammar, graph@, lookahead_node.0 as int, item));
                        assert(dependencies@ =~= if firsts.nullable {
                            seq![item.lookahead_node]
                        } else {
                            Seq::<LookAheadNodeRef>::empty()
                        });
                        lemma_made_len(
                            grammar,
                            old(graph)@,
                            graph_before,
                            res@,
                            stack@,
                            self.kernel@.len() as int,
                            makers,
                            Some(at),
                        );
                        lemma_made_node(
                            grammar,
                            old(graph)@,
                            graph_before,
                            res@,
                            stack@,
                            self.kernel@.len() as int,
                            makers,
                            at,
                            graph@.last(),
                        );
                        makers = makers.push(at);
                    }
                    let mut p: usize = 0;
                    while p < production_count
                        invariant
                            p <= production_count,
                            grammar.wf(),
                            graph.wf(),
                            graph.token_count == grammar.token_count,
                            graph_extends(old(graph)@, graph@),
                            graph.contains_node(lookahead_node),
                            production_count == grammar.productions@.len(),
                            items_ok(res@, grammar, graph),
                            items_ok(stack@, grammar, graph),
                            worklist_inv(
                                grammar,
                                self.kernel@,
                                res@,
                                stack@,
                                index_of@,
                                Some(item.core_item()),
                            ),
                            item.core_item().pointed(grammar) == Some(
                                SymbolicSymbol::NonTerminal(non_terminal),
                            ),
                            forall|q: int|
                                0 <= q < p && grammar.has_head(q, non_terminal)
                                    ==> core_set(res@).contains(
                                    #[trigger] fresh_item(q),
                                ),
                            flow_inv(grammar, graph@, res@, stack@, Some(item.core_item())),
                            made_inv(
                                grammar,
                                old(graph)@,
                                graph@,
                                res@,
                                stack@,
                                self.kernel@.len() as int,
                                makers,
                                None,
                            ),
                            makers.len() > 0,
                            0 <= makers.last() < res@.len(),
                            res@[makers.last()] == item,
                            lookahead_node.0 == old(graph)@.len() + makers.len() - 1,
                            res@.contains(item),
                            carries(grammar, graph@, lookahead_node.0 as int, item),
                            forall|j: int|
                                0 <= j < res@.len() && (#[trigger] res@[j]).marker_position == 0
                                    && res@[j].production_id < p && grammar.has_head(
                                    res@[j].production_id as int,
                                    non_terminal,
                                ) ==> flows(grammar, graph@, item, res@[j].lookahead_node),
                            none_count(index_of@) <= missing,
                            none_count(index_of@) == missing ==> stack@.len() == popped.len(),
                            popped.len() + 1 == stack_before.len(),
                        decreases production_count - p,
                    {
                        if grammar.productions[p].head == non_terminal {
                            assert(grammar.has_head(p as int, non_terminal));
                            assert(expands_to(grammar, item.core_item(), fresh_item(p as int)));
                            proof {
                                lemma_worklist_index(
                                    grammar,
                                    self.kernel@,
                                    res@,
                                    stack@,
                                    index_of@,
                                    Some(item.core_item()),
                                    p as int,
                                );
                            }
                            match index_of[p] {
                                Some(i) => {
                                    let ghost graph_then = graph@;
                                    assert(graph@.len() == graph.nodes.len());
                                    let there = res[i];
                                    there.lookahead_node.add_dependency(graph, lookahead_node);
                                    proof {
                                        lemma_extends_transitive(
                                            old(graph)@,
                                            graph_then,
                                            graph@,
                                        );
                                        assert(there.core_item() == fresh_item(p as int));
                                        lemma_flow_graph(
                                            grammar,
                                            graph_then,
                                            graph@,
                                            res@,
                                            stack@,
                                            Some(item.core_item()),
                                        );
                                        lemma_carries_kept(
                                            grammar,
                                            graph_then,
                                            graph@,
                                            lookahead_node.0 as int,
                                            item,
                                        );
                                        let deps = graph@[there.lookahead_node.0 as int].dependencies;
                                        assert(deps[deps.len() - 1] == lookahead_node);
                                        assert(has_edge(
                                            graph@,
                                            there.lookahead_node.0 as int,
                                            lookahead_node.0 as int,
                                        ));
                                        assert(flows(grammar, graph@, item, there.lookahead_node));
                                        assert(graph_then.len() == old(graph)@.len() + makers.len()) by {
                                            lemma_made_len(
                                                grammar,
                                                old(graph)@,
                                                graph_then,
                                                res@,
                                                stack@,
                                                self.kernel@.len() as int,
                                                makers,
                                                None,
                                            );
                                        }
                                        lemma_made_edge(
                                            grammar,
                                            old(graph)@,
                                            graph_then,
                                            res@,
                                            stack@,
                                            self.kernel@.len() as int,
                                            makers,
                                            i as int,
                                        );
                                        lemma_worklist_distinct(
                                            grammar,
                                            self.kernel@,
                                            res@,
                                            stack@,
                                            index_of@,
                                            Some(item.core_item()),
                                        );
                                        assert forall|j: int|
                                            0 <= j < res@.len() && (
                                            #[trigger] res@[j]).marker_position == 0
                                                && res@[j].production_id < p + 1
                                                && grammar.has_head(
                                                res@[j].production_id as int,
                                                non_terminal,
                                            ) implies flows(
                                            grammar,
                                            graph@,
                                            item,
                                            res@[j].lookahead_node,
                                        ) by {
                                            if res@[j].production_id < p {
                                                lemma_flows_kept(
                                                    grammar,
                                                    graph_then,
                                                    graph@,
                                                    item,
                                                    res@[j].lookahead_node,
                                                );
                                            } else {
                                                assert(res@[j].core_item() == res@[i as int].core_item());
                                                if j < i {
                                                    assert(res@[j].core_item()
                                                        != res@[i as int].core_item());
                                                } else if i < j {
                                                    assert(res@[i as int].core_item()
                                                        != res@[j].core_item());
                                                }
                                            }
                                        }
                                    }
                                },
                                None => {
                                    let ghost res_before = res@;
                                    let ghost stack_then = stack@;
                                    let ghost index_before = index_of@;
                                    let new_item = LalrItem::new(p, lookahead_node);
                                    index_of[p] = Some(res.len());
                                    res.push(new_item);
                                    stack.push(new_item);
                                    proof {
                                        lemma_none_count_fill(
                                            index_before,
                                            p as int,
                                            res_before.len() as usize,
                                        );
                                        lemma_worklist_push(
                                            grammar,
                                            self.kernel@,
                                            res_before,
                                            stack_then,
                                            index_before,
                                            item.core_item(),
                                            new_item,
                                        );
                                        lemma_items_ok_push(res_before, new_item, grammar, graph);
                                        lemma_items_ok_push(stack_then, new_item, grammar, graph);
                                        lemma_core_set_push(res_before, new_item);
                                        lemma_worklist_absent(
                                            grammar,
                                            self.kernel@,
                                            res_before,
                                            stack_then,
                                            index_before,
                                            Some(item.core_item()),
                                            p as int,
                                        );
                                        lemma_flow_push(
                                            grammar,
                                            graph@,
                                            res_before,
                                            stack_then,
                                            item.core_item(),
                                            new_item,
                                        );
                                        lemma_made_push(
                                            grammar,
                                            old(graph)@,
                                            graph@,
                                            res_before,
                                            stack_then,
                                            self.kernel@.len() as int,
                                            makers,
                                            new_item,
                                        );
                                        let at = choose|at: int|
                                            0 <= at < res_before.len() && res_before[at] == item;
                                        assert(res@[at] == item);
                                        assert(flows(grammar, graph@, item, new_item.lookahead_node));
                                        assert forall|j: int|
                                            0 <= j < res@.len() && (
                                            #[trigger] res@[j]).marker_position == 0
                                                && res@[j].production_id < p + 1
                                                && grammar.has_head(
                                                res@[j].production_id as int,
                                                non_terminal,
                                            ) implies flows(
                                            grammar,
                                            graph@,
                                            item,
                                            res@[j].lookahead_node,
                                        ) by {
                                            if j < res_before.len() {
                                                assert(res@[j] == res_before[j]);
                                                if res@[j].production_id == p {
                                                    assert(res_before[j].core_item() == fresh_item(
                                                        p as int,
                                                    ));
                                                    assert(core_set(res_before).contains(
                                                        fresh_item(p as int),
                                                    ));
                                                }
                                            }
                                        }
                                    }
                                },
                            }
                        }
                        p += 1;
                    }
                    proof {
                        assert forall|to: SlrItem| #[trigger]
                            expands_to(grammar, item.core_item(), to) implies core_set(res@).contains(
                            to,
                        ) by {
                            assert(to == fresh_item(to.production_id as int));
                        }
                        assert(expanded(grammar, res@, item.core_item()));
                        assert forall|j: int|
                            0 <= j < res@.len() && #[trigger] expands_to(
                                grammar,
                                item.core_item(),
                                res@[j].core_item(),
                            ) implies flows(grammar, graph@, item, res@[j].lookahead_node) by {
                            assert(grammar.has_head(res@[j].production_id as int, non_terminal));
                        }
                    }
                },
                None => {
                    assert(expanded(grammar, res@, item.core_item()));
                    proof {
                        lemma_made_pass(
                            grammar,
                            old(graph)@,
                            graph@,
                            res@,
                            stack@,
                            self.kernel@.len() as int,
                            makers,
                            at,
                        );
                    }
                },
            }
            proof {
                lemma_flow_finish(grammar, graph@, res@, stack@, item);
                lemma_worklist_done(
                    grammar,
                    self.kernel@,
                    res@,
                    stack@,
                    index_of@,
                    item.core_item(),
                );
            }
        }
        proof {
            assert(stack@ =~= Seq::<LalrItem>::empty());
            lemma_worklist_end(grammar, self.kernel@, res@, index_of@);
            lemma_flow_end(grammar, graph@, res@);
            lemma_made_end(
                grammar,
                old(graph)@,
                graph@,
                res@,
                self.kernel@.len() as int,
                makers,
            );
        }
        res
    }
}

/// The item of production `p` with nothing matched yet.
pub open spec fn fresh_item(p: int) -> SlrItem {
    SlrItem { production_id: p as usize, marker_position: 0 }
}

/// The states of an automaton on their own.
pub struct SymbolicAutomaton {
    pub states: Vec<LalrState>,
}

} // verus!
