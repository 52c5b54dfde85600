//! Items: a production with a marker that says how much of it has been matched.

use crate::symbolic_grammar::{SymbolicGrammar, SymbolicSymbol};
use vstd::prelude::*;

verus! {

#[derive(Clone, Copy, Hash, PartialEq, Eq, Debug, Structural)]
pub struct SlrItem {
    pub production_id: usize,
    pub marker_position: usize,
}

impl SlrItem {
    /// The production exists and the marker stands within its body or at its end.
    pub open spec fn valid(self, grammar: &SymbolicGrammar) -> bool {
        &&& grammar.production_spec(self.production_id) is Some
        &&& self.marker_position <= self.body(grammar).len()
    }

    /// Body of the item's production.
    pub open spec fn body(self, grammar: &SymbolicGrammar) -> Seq<SymbolicSymbol> {
        grammar.production_spec(self.production_id).unwrap().body@
    }

    /// The symbol behind the marker, if the marker is not at the end.
    pub open spec fn pointed(self, grammar: &SymbolicGrammar) -> Option<SymbolicSymbol> {
        if self.valid(grammar) && self.marker_position < self.body(grammar).len() {
            Some(self.body(grammar)[self.marker_position as int])
        } else {
            None
        }
    }

    /// The item with the marker moved over one symbol.
    pub open spec fn advanced(self) -> SlrItem {
        SlrItem {
            production_id: self.production_id,
            marker_position: (self.marker_position + 1) as usize,
        }
    }

    /// The item with the marker moved back over one symbol.
    pub open spec fn retreated(self) -> SlrItem {
        SlrItem {
            production_id: self.production_id,
            marker_position: (self.marker_position - 1) as usize,
        }
    }

    /// The item of `production_id` with nothing matched yet.
    pub fn new(production_id: usize) -> (item: Self)
        ensures
            item == (SlrItem { production_id, marker_position: 0 }),
    {
        Self { production_id, marker_position: 0 }
    }

    /// The symbol behind the marker; the end of input stands for "none".
    pub fn pointed_symbol(&self, grammar: &SymbolicGrammar) -> (symbol: SymbolicSymbol)
        requires
            grammar.production_spec(self.production_id) is Some,
        ensures
            symbol == if self.marker_position < self.body(grammar).len() {
                self.body(grammar)[self.marker_position as int]
            } else {
                SymbolicSymbol::EOF
            },
    {
        match grammar.get_production(self.production_id) {
            Some(production) => {
                if self.marker_position < production.body.len() {
                    production.body[self.marker_position]
                } else {
                    SymbolicSymbol::EOF
                }
            },
            None => SymbolicSymbol::EOF,
        }
    }

    /// Whether the marker stands at the end of the body.
    pub fn is_final_item(&self, grammar: &SymbolicGrammar) -> (is_final: bool)
        requires
            grammar.production_spec(self.production_id) is Some,
        ensures
            is_final == (self.marker_position == self.body(grammar).len()),
    {
        match grammar.get_production(self.production_id) {
            Some(production) => self.marker_position == production.arity(),
            None => false,
        }
    }

    pub fn move_marker(&mut self)
        requires
            old(self).marker_position < usize::MAX,
        ensures
            *final(self) == old(self).advanced(),
    {
        self.marker_position += 1;
    }
}

/// Closure puts `to` into a set that holds `from`: the marker of `from`
/// stands before the head of `to`, and nothing of `to` is matched.
pub open spec fn expands_to(grammar: &SymbolicGrammar, from: SlrItem, to: SlrItem) -> bool {
    &&& from.pointed(grammar) is Some
    &&& from.pointed(grammar).unwrap() is NonTerminal
    &&& grammar.has_head(to.production_id as int, from.pointed(grammar).unwrap()->NonTerminal_0)
    &&& to.marker_position == 0
}

/// `chain` starts in `kernel` and goes on by closure steps.
pub open spec fn is_derivation(
    grammar: &SymbolicGrammar,
    kernel: Set<SlrItem>,
    chain: Seq<SlrItem>,
) -> bool {
    &&& chain.len() > 0
    &&& kernel.contains(chain[0])
    &&& forall|i: int|
        0 <= i < chain.len() - 1 ==> expands_to(grammar, #[trigger] chain[i], chain[i + 1])
}

/// `item` is in the closure of `kernel`: the least set that holds `kernel` and,
/// with an item whose marker stands before a non-terminal, the fresh items of
/// all productions of that non-terminal.
pub open spec fn in_closure(grammar: &SymbolicGrammar, kernel: Set<SlrItem>, item: SlrItem) -> bool {
    exists|chain: Seq<SlrItem>| #[trigger]
        is_derivation(grammar, kernel, chain) && chain.last() == item
}

pub open spec fn closure_set(grammar: &SymbolicGrammar, kernel: Set<SlrItem>) -> Set<SlrItem> {
    Set::new(|item: SlrItem| in_closure(grammar, kernel, item))
}

/// The kernel reached from `kernel` over `symbol`: the items of the closure
/// whose marker stands before `symbol`, with the marker moved over it.
pub open spec fn goto_set(
    grammar: &SymbolicGrammar,
    kernel: Set<SlrItem>,
    symbol: SymbolicSymbol,
) -> Set<SlrItem> {
    Set::new(
        |item: SlrItem|
            item.marker_position > 0 && in_closure(grammar, kernel, item.retreated())
                && item.retreated().pointed(grammar) == Some(symbol),
    )
}

pub proof fn lemma_kernel_in_closure(grammar: &SymbolicGrammar, kernel: Set<SlrItem>, item: SlrItem)
    requires
        kernel.contains(item),
    ensures
        in_closure(grammar, kernel, item),
{
    let chain = seq![item];
    assert(is_derivation(grammar, kernel, chain));
    assert(chain.last() == item);
}

pub proof fn lemma_closure_step(
    grammar: &SymbolicGrammar,
    kernel: Set<SlrItem>,
    from: SlrItem,
    to: SlrItem,
)
    requires
        in_closure(grammar, kernel, from),
        expands_to(grammar, from, to),
    ensures
        in_closure(grammar, kernel, to),
{
    let chain = choose|chain: Seq<SlrItem>| #[trigger]
        is_derivation(grammar, kernel, chain) && chain.last() == from;
    let longer = chain.push(to);
    assert forall|i: int| 0 <= i < longer.len() - 1 implies expands_to(
        grammar,
        #[trigger] longer[i],
        longer[i + 1],
    ) by {
        if i < chain.len() - 1 {
            assert(expands_to(grammar, chain[i], chain[i + 1]));
        }
    }
    assert(is_derivation(grammar, kernel, longer));
    assert(longer.last() == to);
}

/// A set that holds `kernel` and is closed under closure steps holds the
/// closure of `kernel`.
pub proof fn lemma_closure_is_least(
    grammar: &SymbolicGrammar,
    kernel: Set<SlrItem>,
    closed: Set<SlrItem>,
    item: SlrItem,
)
    requires
        kernel.subset_of(closed),
        forall|from: SlrItem, to: SlrItem|
            closed.contains(from) && #[trigger] expands_to(grammar, from, to) ==> closed.contains(
                to,
            ),
        in_closure(grammar, kernel, item),
    ensures
        closed.contains(item),
{
    let chain = choose|chain: Seq<SlrItem>| #[trigger]
        is_derivation(grammar, kernel, chain) && chain.last() == item;
    lemma_chain_in_closed(grammar, kernel, closed, chain, chain.len() - 1);
}

proof fn lemma_chain_in_closed(
    grammar: &SymbolicGrammar,
    kernel: Set<SlrItem>,
    closed: Set<SlrItem>,
    chain: Seq<SlrItem>,
    i: int,
)
    requires
        kernel.subset_of(closed),
        forall|from: SlrItem, to: SlrItem|
            closed.contains(from) && #[trigger] expands_to(grammar, from, to) ==> closed.contains(
                to,
            ),
        is_derivation(grammar, kernel, chain),
        0 <= i < chain.len(),
    ensures
        closed.contains(chain[i]),
    decreases i,
{
    if i > 0 {
        lemma_chain_in_closed(grammar, kernel, closed, chain, i - 1);
        assert(expands_to(grammar, chain[i - 1], chain[i]));
    }
}

/// An item of a closure is an item of the kernel, or a fresh item of a
/// production of the grammar.
pub proof fn lemma_closure_item_shape(
    grammar: &SymbolicGrammar,
    kernel: Set<SlrItem>,
    item: SlrItem,
)
    requires
        in_closure(grammar, kernel, item),
    ensures
        kernel.contains(item) || (item.marker_position == 0 && item.production_id
            < grammar.productions@.len()),
{
    let chain = choose|chain: Seq<SlrItem>| #[trigger]
        is_derivation(grammar, kernel, chain) && chain.last() == item;
    if chain.len() > 1 {
        assert(expands_to(grammar, chain[chain.len() - 2], chain[chain.len() - 1]));
    }
}

} // verus!
