//! What a grammar derives: the words of terminals that its symbols stand
//! for.

use crate::symbolic_grammar::{SymbolicGrammar, SymbolicNonTerminal, SymbolicSymbol, SymbolicToken};
use vstd::prelude::*;

verus! {

impl SymbolicGrammar {
    /// The production `p` has the head `head`, and `parts` has one word for
    /// each symbol of its body, which together are `word`.
    pub open spec fn builds(
        &self,
        p: int,
        head: SymbolicNonTerminal,
        parts: Seq<Seq<SymbolicToken>>,
        word: Seq<SymbolicToken>,
    ) -> bool {
        &&& self.has_head(p, head)
        &&& parts.len() == self.body_at(p).len()
        &&& parts.flatten() == word
    }

    /// `symbol` derives `word` by productions nested at most `depth` deep: a
    /// terminal derives itself, and a non-terminal what the symbols of the
    /// body of one of its productions derive one after another.
    pub open spec fn derives_within(
        &self,
        symbol: SymbolicSymbol,
        word: Seq<SymbolicToken>,
        depth: nat,
    ) -> bool
        decreases depth,
    {
        match symbol {
            SymbolicSymbol::Token(token) => word == seq![token],
            SymbolicSymbol::NonTerminal(head) => {
                if depth == 0 {
                    false
                } else {
                    exists|p: int, parts: Seq<Seq<SymbolicToken>>| #[trigger]
                        self.builds(p, head, parts, word) && forall|i: int|
                            0 <= i < parts.len() ==> self.derives_within(
                                self.body_at(p)[i],
                                #[trigger] parts[i],
                                (depth - 1) as nat,
                            )
                }
            },
            SymbolicSymbol::EOF => false,
        }
    }

    /// `symbol` derives `word`.
    pub open spec fn derives(&self, symbol: SymbolicSymbol, word: Seq<SymbolicToken>) -> bool {
        exists|depth: nat| self.derives_within(symbol, word, depth)
    }

    pub proof fn lemma_derives_monotone(
        &self,
        symbol: SymbolicSymbol,
        word: Seq<SymbolicToken>,
        depth: nat,
        deeper: nat,
    )
        requires
            self.derives_within(symbol, word, depth),
            depth <= deeper,
        ensures
            self.derives_within(symbol, word, deeper),
        decreases depth,
    {
        match symbol {
            SymbolicSymbol::NonTerminal(head) => {
                let (p, parts) = choose|p: int, parts: Seq<Seq<SymbolicToken>>| #[trigger]
                    self.builds(p, head, parts, word) && forall|i: int|
                        0 <= i < parts.len() ==> self.derives_within(
                            self.body_at(p)[i],
                            #[trigger] parts[i],
                            (depth - 1) as nat,
                        );
                assert forall|i: int| 0 <= i < parts.len() implies self.derives_within(
                    self.body_at(p)[i],
                    #[trigger] parts[i],
                    (deeper - 1) as nat,
                ) by {
                    self.lemma_derives_monotone(
                        self.body_at(p)[i],
                        parts[i],
                        (depth - 1) as nat,
                        (deeper - 1) as nat,
                    );
                }
                assert(self.builds(p, head, parts, word));
            },
            _ => {},
        }
    }

    /// One depth serves the derivations of the first `count` symbols.
    proof fn lemma_common_derivation_depth(
        &self,
        symbols: Seq<SymbolicSymbol>,
        parts: Seq<Seq<SymbolicToken>>,
        count: nat,
    ) -> (depth: nat)
        requires
            count <= symbols.len(),
            count <= parts.len(),
            forall|i: int| 0 <= i < count ==> self.derives(symbols[i], #[trigger] parts[i]),
        ensures
            forall|i: int|
                0 <= i < count ==> self.derives_within(symbols[i], #[trigger] parts[i], depth),
        decreases count,
    {
        if count == 0 {
            0
        } else {
            let below = self.lemma_common_derivation_depth(symbols, parts, (count - 1) as nat);
            let last = count - 1;
            assert(self.derives(symbols[last], parts[last]));
            let own = choose|d: nat| self.derives_within(symbols[last], parts[last], d);
            let depth = if own <= below {
                below
            } else {
                own
            };
            assert forall|i: int| 0 <= i < count implies self.derives_within(
                symbols[i],
                #[trigger] parts[i],
                depth,
            ) by {
                if i == last {
                    self.lemma_derives_monotone(symbols[i], parts[i], own, depth);
                } else {
                    self.lemma_derives_monotone(symbols[i], parts[i], below, depth);
                }
            }
            depth
        }
    }

    /// The head of a production derives what the symbols of its body derive
    /// one after another.
    pub proof fn lemma_production_derives(&self, p: int, parts: Seq<Seq<SymbolicToken>>)
        requires
            0 <= p < self.productions@.len(),
            parts.len() == self.body_at(p).len(),
            forall|i: int|
                0 <= i < parts.len() ==> self.derives(self.body_at(p)[i], #[trigger] parts[i]),
        ensures
            self.derives(
                SymbolicSymbol::NonTerminal(self.productions@[p].head),
                parts.flatten(),
            ),
    {
        let depth = self.lemma_common_derivation_depth(self.body_at(p), parts, parts.len());
        let head = self.productions@[p].head;
        assert(self.builds(p, head, parts, parts.flatten()));
        let deeper: nat = depth + 1;
        let word = parts.flatten();
        assert forall|i: int| 0 <= i < parts.len() implies self.derives_within(
            self.body_at(p)[i],
            #[trigger] parts[i],
            (deeper - 1) as nat,
        ) by {}
        assert(exists|q: int, words: Seq<Seq<SymbolicToken>>| #[trigger]
            self.builds(q, head, words, word) && forall|i: int|
                0 <= i < words.len() ==> self.derives_within(
                    self.body_at(q)[i],
                    #[trigger] words[i],
                    (deeper - 1) as nat,
                ));
        let symbol = SymbolicSymbol::NonTerminal(head);
        assert(symbol->NonTerminal_0 == head);
        assert(deeper != 0);
        assert(self.builds(p, symbol->NonTerminal_0, parts, word));
        assert(self.derives_within(symbol, word, deeper));
    }
}

} // verus!
