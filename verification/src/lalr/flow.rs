//! How lookaheads flow through a complete automaton: within a state from an
//! item to the items that closure puts beside it, and between states from an
//! item to the item that a transition makes of it.

use crate::lalr::automaton::{link_ok, links_ok, LalrAutomaton};
use crate::lalr::{lemma_flows_lookahead, rest_of};
use crate::lookahead::{lemma_reaches_step, reaches, resolved_eof, resolved_tokens};
use crate::slr::item::expands_to;
use vstd::prelude::*;

verus! {

impl LalrAutomaton {
    /// Within a state, the lookahead of an item that closure puts beside
    /// another holds what begins the rest of the other's body, and, where
    /// that rest is nullable, the other's lookahead.
    pub proof fn lemma_lookahead_in_closure(&self, state: int, from: int, to: int)
        requires
            self.wf(),
            0 <= state < self.states@.len(),
            0 <= from < self.closures@[state].len(),
            0 <= to < self.closures@[state].len(),
            expands_to(
                &self.grammar,
                self.closures@[state][from].core_item(),
                self.closures@[state][to].core_item(),
            ),
        ensures
            ({
                let source = self.closures@[state][from];
                let target = self.closures@[state][to];
                let rest = rest_of(&self.grammar, source.core_item());
                &&& self.grammar.first(rest).subset_of(
                    resolved_tokens(self.graph@, target.lookahead_node.0 as int),
                )
                &&& self.grammar.nullable(rest) ==> {
                    &&& resolved_tokens(self.graph@, source.lookahead_node.0 as int).subset_of(
                        resolved_tokens(self.graph@, target.lookahead_node.0 as int),
                    )
                    &&& (resolved_eof(self.graph@, source.lookahead_node.0 as int)
                        ==> resolved_eof(self.graph@, target.lookahead_node.0 as int))
                }
            }),
    {
        let closure = self.closures@[state];
        assert(self.closure_ok(state, closure));
        assert(self.graph@.len() == self.graph.nodes@.len());
        lemma_flows_lookahead(
            &self.grammar,
            self.graph@,
            closure[from],
            closure[to].lookahead_node,
        );
    }

    /// Between states, the item that a transition makes of an item has the
    /// lookahead of that item, and maybe more.
    pub proof fn lemma_lookahead_over_transition(&self, state: int, from: int) -> (to: int)
        requires
            self.wf(),
            0 <= state < self.states@.len(),
            0 <= from < self.closures@[state].len(),
            self.closures@[state][from].core_item().pointed(&self.grammar) is Some,
        ensures
            ({
                let source = self.closures@[state][from];
                let symbol = source.core_item().pointed(&self.grammar)->Some_0;
                let target = self.transition(state, symbol);
                &&& target is Some
                &&& target->Some_0 < self.states@.len()
                &&& 0 <= to < self.states@[target->Some_0 as int].kernel@.len()
                &&& self.states@[target->Some_0 as int].kernel@[to].core_item()
                    == source.core_item().advanced()
                &&& resolved_tokens(self.graph@, source.lookahead_node.0 as int).subset_of(
                    resolved_tokens(
                        self.graph@,
                        self.states@[target->Some_0 as int].kernel@[to].lookahead_node.0 as int,
                    ),
                )
                &&& (resolved_eof(self.graph@, source.lookahead_node.0 as int) ==> resolved_eof(
                    self.graph@,
                    self.states@[target->Some_0 as int].kernel@[to].lookahead_node.0 as int,
                ))
            }),
    {
        let closure = self.closures@[state];
        let source = closure[from];
        let symbol = source.core_item().pointed(&self.grammar)->Some_0;
        let target = self.transition(state, symbol);
        assert(self.closure_ok(state, closure));
        assert(links_ok(&self.grammar, self.graph@, self.states@, closure, symbol, target));
        assert(link_ok(self.graph@, self.states@, source, target));
        let there = self.states@[target->Some_0 as int].kernel@;
        let to = choose|k: int|
            0 <= k < there.len() && (#[trigger] there[k]).core_item()
                == source.core_item().advanced() && (there[k].lookahead_node
                == source.lookahead_node || crate::lookahead::has_edge(
                self.graph@,
                there[k].lookahead_node.0 as int,
                source.lookahead_node.0 as int,
            ));
        let upper = there[to].lookahead_node.0 as int;
        let lower = source.lookahead_node.0 as int;
        assert forall|n: int| reaches(self.graph@, lower, n) implies reaches(
            self.graph@,
            upper,
            n,
        ) by {
            if there[to].lookahead_node != source.lookahead_node {
                lemma_reaches_step(self.graph@, upper, lower, n);
            }
        }
        assert forall|token: usize|
            resolved_tokens(self.graph@, lower).contains(token) implies resolved_tokens(
            self.graph@,
            upper,
        ).contains(token) by {
            let n = choose|n: int| #[trigger]
                reaches(self.graph@, lower, n) && self.graph@[n].tokens.contains(token);
            assert(reaches(self.graph@, upper, n));
        }
        if resolved_eof(self.graph@, lower) {
            let n = choose|n: int| #[trigger]
                reaches(self.graph@, lower, n) && self.graph@[n].can_eof_follow;
            assert(reaches(self.graph@, upper, n));
        }
        to
    }
}

} // verus!
