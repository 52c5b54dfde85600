//! Grammars over dense integer ids, and their `FIRST` sets.

pub mod derivation;
pub mod interning;

use crate::token_set::TokenSet;
use vstd::prelude::*;

verus! {

pub type SymbolicToken = usize;

pub type SymbolicNonTerminal = usize;

/// Id of the augmenting production, and of its head.
pub const SPECIAL_ID: usize = usize::MAX;

#[derive(Debug, Hash, Clone, Copy, PartialEq, Eq, Structural)]
pub enum SymbolicSymbol {
    Token(SymbolicToken),
    NonTerminal(SymbolicNonTerminal),
    EOF,
}

#[derive(Debug)]
pub struct SymbolicProduction {
    pub production_id: usize,
    pub head: SymbolicNonTerminal,
    pub body: Vec<SymbolicSymbol>,
}

impl SymbolicProduction {
    pub fn id(&self) -> (id: usize)
        ensures
            id == self.production_id,
    {
        self.production_id
    }

    pub fn head(&self) -> (head: &SymbolicNonTerminal)
        ensures
            *head == self.head,
    {
        &self.head
    }

    pub fn body(&self) -> (body: &Vec<SymbolicSymbol>)
        ensures
            body@ == self.body@,
    {
        &self.body
    }

    pub fn arity(&self) -> (arity: usize)
        ensures
            arity == self.body@.len(),
    {
        self.body.len()
    }

    /// The augmenting production `S' -> start_symbol`.
    pub fn special_production(start_symbol: SymbolicNonTerminal) -> (production: Self)
        ensures
            production.production_id == SPECIAL_ID,
            production.head == SPECIAL_ID,
            production.body@ == seq![SymbolicSymbol::NonTerminal(start_symbol)],
    {
        let mut body: Vec<SymbolicSymbol> = Vec::new();
        body.push(SymbolicSymbol::NonTerminal(start_symbol));
        assert(body@ =~= seq![SymbolicSymbol::NonTerminal(start_symbol)]);
        Self { production_id: usize::MAX, head: usize::MAX, body }
    }
}

/// Terminals that can begin a derivation, and whether the empty word is derived.
pub struct SymbolicFirstSet {
    pub tokens: TokenSet,
    pub nullable: bool,
}

/// Terminals that can follow a non-terminal, and whether the input may end there.
pub struct SymbolicFollowSet {
    pub tokens: TokenSet,
    pub eof_follows: bool,
}

#[derive(Debug)]
pub struct SymbolicGrammar {
    pub token_count: usize,
    pub non_terminal_count: usize,
    pub start_symbol: SymbolicNonTerminal,
    pub special_production: SymbolicProduction,
    pub productions: Vec<SymbolicProduction>,
}

impl SymbolicGrammar {
    /// `symbol` names a declared terminal or non-terminal.
    pub open spec fn symbol_in_range(&self, symbol: SymbolicSymbol) -> bool {
        match symbol {
            SymbolicSymbol::Token(t) => t < self.token_count,
            SymbolicSymbol::NonTerminal(n) => n < self.non_terminal_count,
            SymbolicSymbol::EOF => false,
        }
    }

    /// Every symbol of `beta` names a declared terminal or non-terminal.
    pub open spec fn symbols_in_range(&self, beta: Seq<SymbolicSymbol>) -> bool {
        forall|i: int| 0 <= i < beta.len() ==> self.symbol_in_range(#[trigger] beta[i])
    }

    /// Production `p` exists and has head `head`.
    pub open spec fn has_head(&self, p: int, head: SymbolicNonTerminal) -> bool {
        0 <= p < self.productions@.len() && self.productions@[p].head == head
    }

    /// Body of the production stored at index `p`.
    pub open spec fn body_at(&self, p: int) -> Seq<SymbolicSymbol> {
        self.productions@[p].body@
    }

    /// The grammar is well formed: productions are stored under their ids, every
    /// symbol is declared, and the augmenting production derives the start symbol.
    pub open spec fn wf(&self) -> bool {
        &&& self.start_symbol < self.non_terminal_count
        &&& self.special_production.production_id == SPECIAL_ID
        &&& self.special_production.head == SPECIAL_ID
        &&& self.special_production.body@ == seq![SymbolicSymbol::NonTerminal(self.start_symbol)]
        &&& forall|p: int|
            0 <= p < self.productions@.len() ==> {
                &&& (#[trigger] self.productions@[p]).production_id == p
                &&& self.productions@[p].head < self.non_terminal_count
                &&& self.symbols_in_range(self.productions@[p].body@)
            }
    }

    /// The production that `id` names, the sentinel id naming the augmenting one.
    pub open spec fn production_spec(&self, id: usize) -> Option<SymbolicProduction> {
        if id == SPECIAL_ID {
            Some(self.special_production)
        } else if id < self.productions@.len() {
            Some(self.productions@[id as int])
        } else {
            None
        }
    }

    /// `beta` derives the empty word by a derivation that nests productions at
    /// most `depth` deep. A non-terminal does so when each of its productions does.
    pub open spec fn nullable_within(&self, beta: Seq<SymbolicSymbol>, depth: nat) -> bool
        decreases depth, beta.len(),
    {
        if beta.len() == 0 {
            true
        } else {
            match beta[0] {
                SymbolicSymbol::NonTerminal(n) => {
                    if depth == 0 {
                        false
                    } else {
                        &&& forall|p: int| #[trigger]
                            self.has_head(p, n) ==> self.nullable_within(
                                self.body_at(p),
                                (depth - 1) as nat,
                            )
                        &&& self.nullable_within(beta.skip(1), depth)
                    }
                },
                _ => false,
            }
        }
    }

    /// `token` begins `beta` by a derivation that nests productions at most
    /// `depth` deep.
    pub open spec fn first_within(
        &self,
        beta: Seq<SymbolicSymbol>,
        depth: nat,
        token: SymbolicToken,
    ) -> bool
        decreases depth, beta.len(),
    {
        if beta.len() == 0 {
            false
        } else {
            match beta[0] {
                SymbolicSymbol::Token(t) => t == token,
                SymbolicSymbol::NonTerminal(n) => {
                    if depth == 0 {
                        false
                    } else {
                        ||| exists|p: int| #[trigger]
                            self.has_head(p, n) && self.first_within(
                                self.body_at(p),
                                (depth - 1) as nat,
                                token,
                            )
                        ||| {
                            &&& forall|p: int| #[trigger]
                                self.has_head(p, n) ==> self.nullable_within(
                                    self.body_at(p),
                                    (depth - 1) as nat,
                                )
                            &&& self.first_within(beta.skip(1), depth, token)
                        }
                    }
                },
                SymbolicSymbol::EOF => false,
            }
        }
    }

    /// Nullability of `beta`: the least solution of the scan rules.
    pub open spec fn nullable(&self, beta: Seq<SymbolicSymbol>) -> bool {
        exists|depth: nat| self.nullable_within(beta, depth)
    }

    /// Terminals of `FIRST(beta)`: the least solution of the scan rules.
    pub open spec fn first(&self, beta: Seq<SymbolicSymbol>) -> Set<SymbolicToken> {
        Set::new(|token: SymbolicToken| exists|depth: nat| self.first_within(beta, depth, token))
    }

    /// Every production of `n` is nullable.
    pub open spec fn all_nullable(&self, n: SymbolicNonTerminal) -> bool {
        forall|p: int| #[trigger] self.has_head(p, n) ==> self.nullable(self.body_at(p))
    }

    /// Terminals that begin some production of `n`.
    pub open spec fn first_of(&self, n: SymbolicNonTerminal) -> Set<SymbolicToken> {
        Set::new(
            |token: SymbolicToken|
                exists|p: int| #[trigger]
                    self.has_head(p, n) && self.first(self.body_at(p)).contains(token),
        )
    }

    pub proof fn lemma_nullable_within_monotone(
        &self,
        beta: Seq<SymbolicSymbol>,
        depth: nat,
        deeper: nat,
    )
        requires
            self.nullable_within(beta, depth),
            depth <= deeper,
        ensures
            self.nullable_within(beta, deeper),
        decreases depth, beta.len(),
    {
        if beta.len() > 0 {
            match beta[0] {
                SymbolicSymbol::NonTerminal(n) => {
                    assert forall|p: int| #[trigger] self.has_head(p, n) implies self.nullable_within(
                        self.body_at(p),
                        (deeper - 1) as nat,
                    ) by {
                        self.lemma_nullable_within_monotone(
                            self.body_at(p),
                            (depth - 1) as nat,
                            (deeper - 1) as nat,
                        );
                    }
                    self.lemma_nullable_within_monotone(beta.skip(1), depth, deeper);
                },
                _ => {},
            }
        }
    }

    pub proof fn lemma_first_within_monotone(
        &self,
        beta: Seq<SymbolicSymbol>,
        depth: nat,
        deeper: nat,
        token: SymbolicToken,
    )
        requires
            self.first_within(beta, depth, token),
            depth <= deeper,
        ensures
            self.first_within(beta, deeper, token),
        decreases depth, beta.len(),
    {
        if beta.len() > 0 {
            match beta[0] {
                SymbolicSymbol::NonTerminal(n) => {
                    if exists|p: int| #[trigger]
                        self.has_head(p, n) && self.first_within(
                            self.body_at(p),
                            (depth - 1) as nat,
                            token,
                        ) {
                        let p = choose|p: int| #[trigger]
                            self.has_head(p, n) && self.first_within(
                                self.body_at(p),
                                (depth - 1) as nat,
                                token,
                            );
                        self.lemma_first_within_monotone(
                            self.body_at(p),
                            (depth - 1) as nat,
                            (deeper - 1) as nat,
                            token,
                        );
                    } else {
                        assert forall|p: int| #[trigger]
                            self.has_head(p, n) implies self.nullable_within(
                            self.body_at(p),
                            (deeper - 1) as nat,
                        ) by {
                            self.lemma_nullable_within_monotone(
                                self.body_at(p),
                                (depth - 1) as nat,
                                (deeper - 1) as nat,
                            );
                        }
                        self.lemma_first_within_monotone(beta.skip(1), depth, deeper, token);
                    }
                },
                _ => {},
            }
        }
    }

    /// One depth serves the first `count` productions of an all-nullable `n`.
    proof fn lemma_common_depth(&self, n: SymbolicNonTerminal, count: nat) -> (depth: nat)
        requires
            self.all_nullable(n),
            count <= self.productions@.len(),
        ensures
            forall|p: int|
                p < count && #[trigger] self.has_head(p, n) ==> self.nullable_within(
                    self.body_at(p),
                    depth,
                ),
        decreases count,
    {
        if count == 0 {
            0
        } else {
            let below = self.lemma_common_depth(n, (count - 1) as nat);
            let last = count - 1;
            if self.has_head(last, n) {
                let own = choose|d: nat| self.nullable_within(self.body_at(last), d);
                let depth = if own <= below {
                    below
                } else {
                    own
                };
                assert forall|p: int| p < count && #[trigger] self.has_head(p, n) implies self.nullable_within(
                    self.body_at(p),
                    depth,
                ) by {
                    if p == last {
                        self.lemma_nullable_within_monotone(self.body_at(p), own, depth);
                    } else {
                        self.lemma_nullable_within_monotone(self.body_at(p), below, depth);
                    }
                }
                depth
            } else {
                below
            }
        }
    }

    /// The scan rule for nullability: the empty sequence is nullable, and a
    /// sequence is nullable when it begins with a non-terminal whose productions
    /// are all nullable and its rest is nullable too.
    pub proof fn lemma_nullable_unfold(&self, beta: Seq<SymbolicSymbol>)
        ensures
            self.nullable(beta) <==> (beta.len() == 0 || match beta[0] {
                SymbolicSymbol::NonTerminal(n) => self.all_nullable(n) && self.nullable(
                    beta.skip(1),
                ),
                _ => false,
            }),
    {
        if beta.len() == 0 {
            assert(self.nullable_within(beta, 0));
        } else {
            match beta[0] {
                SymbolicSymbol::NonTerminal(n) => {
                    if self.nullable(beta) {
                        let d = choose|d: nat| self.nullable_within(beta, d);
                        assert forall|p: int| #[trigger]
                            self.has_head(p, n) implies self.nullable(self.body_at(p)) by {
                            assert(self.nullable_within(self.body_at(p), (d - 1) as nat));
                        }
                        assert(self.nullable_within(beta.skip(1), d));
                    }
                    if self.all_nullable(n) && self.nullable(beta.skip(1)) {
                        let d1 = self.lemma_common_depth(n, self.productions@.len());
                        let d2 = choose|d: nat| self.nullable_within(beta.skip(1), d);
                        let d = if d1 + 1 <= d2 {
                            d2
                        } else {
                            d1 + 1
                        };
                        assert forall|p: int| #[trigger]
                            self.has_head(p, n) implies self.nullable_within(
                            self.body_at(p),
                            (d - 1) as nat,
                        ) by {
                            self.lemma_nullable_within_monotone(
                                self.body_at(p),
                                d1,
                                (d - 1) as nat,
                            );
                        }
                        self.lemma_nullable_within_monotone(beta.skip(1), d2, d);
                        assert(self.nullable_within(beta, d));
                    }
                },
                _ => {
                    assert(forall|d: nat| !self.nullable_within(beta, d));
                },
            }
        }
    }

    /// The scan rule for `FIRST`: a terminal contributes itself and ends the
    /// scan; a non-terminal contributes what begins its productions, and the
    /// scan goes on behind it when all of them are nullable.
    pub proof fn lemma_first_unfold(&self, beta: Seq<SymbolicSymbol>)
        ensures
            self.first(beta) == if beta.len() == 0 {
                Set::<SymbolicToken>::empty()
            } else {
                match beta[0] {
                    SymbolicSymbol::Token(t) => set![t],
                    SymbolicSymbol::NonTerminal(n) => if self.all_nullable(n) {
                        self.first_of(n).union(self.first(beta.skip(1)))
                    } else {
                        self.first_of(n)
                    },
                    SymbolicSymbol::EOF => Set::<SymbolicToken>::empty(),
                }
            },
    {
        let rhs = if beta.len() == 0 {
            Set::<SymbolicToken>::empty()
        } else {
            match beta[0] {
                SymbolicSymbol::Token(t) => set![t],
                SymbolicSymbol::NonTerminal(n) => if self.all_nullable(n) {
                    self.first_of(n).union(self.first(beta.skip(1)))
                } else {
                    self.first_of(n)
                },
                SymbolicSymbol::EOF => Set::<SymbolicToken>::empty(),
            }
        };
        assert forall|token: SymbolicToken| self.first(beta).contains(token) implies rhs.contains(
            token,
        ) by {
            let d = choose|d: nat| self.first_within(beta, d, token);
            match beta[0] {
                SymbolicSymbol::NonTerminal(n) => {
                    if exists|p: int| #[trigger]
                        self.has_head(p, n) && self.first_within(
                            self.body_at(p),
                            (d - 1) as nat,
                            token,
                        ) {
                        let p = choose|p: int| #[trigger]
                            self.has_head(p, n) && self.first_within(
                                self.body_at(p),
                                (d - 1) as nat,
                                token,
                            );
                        assert(self.first(self.body_at(p)).contains(token));
                        assert(self.first_of(n).contains(token));
                    } else {
                        assert forall|p: int| #[trigger]
                            self.has_head(p, n) implies self.nullable(self.body_at(p)) by {
                            assert(self.nullable_within(self.body_at(p), (d - 1) as nat));
                        }
                        assert(self.first_within(beta.skip(1), d, token));
                        assert(self.first(beta.skip(1)).contains(token));
                    }
                },
                _ => {},
            }
        }
        assert forall|token: SymbolicToken| rhs.contains(token) implies self.first(beta).contains(
            token,
        ) by {
            match beta[0] {
                SymbolicSymbol::Token(t) => {
                    assert(self.first_within(beta, 0, token));
                },
                SymbolicSymbol::NonTerminal(n) => {
                    if self.first_of(n).contains(token) {
                        let p = choose|p: int| #[trigger]
                            self.has_head(p, n) && self.first(self.body_at(p)).contains(token);
                        let d = choose|d: nat| self.first_within(self.body_at(p), d, token);
                        assert(self.first_within(beta, d + 1, token));
                    } else {
                        let d1 = self.lemma_common_depth(n, self.productions@.len());
                        let d2 = choose|d: nat| self.first_within(beta.skip(1), d, token);
                        let d = if d1 + 1 <= d2 {
                            d2
                        } else {
                            d1 + 1
                        };
                        assert forall|p: int| #[trigger]
                            self.has_head(p, n) implies self.nullable_within(
                            self.body_at(p),
                            (d - 1) as nat,
                        ) by {
                            self.lemma_nullable_within_monotone(
                                self.body_at(p),
                                d1,
                                (d - 1) as nat,
                            );
                        }
                        self.lemma_first_within_monotone(beta.skip(1), d2, d, token);
                        assert(self.first_within(beta, d, token));
                    }
                },
                SymbolicSymbol::EOF => {},
            }
        }
        assert(self.first(beta) =~= rhs);
    }
}

/// What the scan knows of a production.
#[derive(Clone, Copy, PartialEq, Eq, Structural)]
enum Mark {
    Unvisited,
    InProgress,
    Nullable,
    NonNullable,
}

spec fn unvisited_count(marks: Seq<Mark>) -> nat
    decreases marks.len(),
{
    if marks.len() == 0 {
        0
    } else {
        unvisited_count(marks.drop_last()) + if marks.last() == Mark::Unvisited {
            1nat
        } else {
            0nat
        }
    }
}

proof fn lemma_count_visit(marks: Seq<Mark>, p: int, mark: Mark)
    requires
        0 <= p < marks.len(),
        marks[p] == Mark::Unvisited,
        mark != Mark::Unvisited,
    ensures
        unvisited_count(marks.update(p, mark)) + 1 == unvisited_count(marks),
    decreases marks.len(),
{
    let updated = marks.update(p, mark);
    if p == marks.len() - 1 {
        assert(updated.drop_last() =~= marks.drop_last());
    } else {
        assert(updated.drop_last() =~= marks.drop_last().update(p, mark));
        lemma_count_visit(marks.drop_last(), p, mark);
    }
}

proof fn lemma_count_monotone(before: Seq<Mark>, after: Seq<Mark>)
    requires
        before.len() == after.len(),
        forall|q: int|
            0 <= q < before.len() && #[trigger] after[q] == Mark::Unvisited ==> before[q]
                == Mark::Unvisited,
    ensures
        unvisited_count(after) <= unvisited_count(before),
    decreases before.len(),
{
    if before.len() > 0 {
        assert forall|q: int|
            0 <= q < before.drop_last().len() && #[trigger] after.drop_last()[q]
                == Mark::Unvisited implies before.drop_last()[q] == Mark::Unvisited by {
            assert(after[q] == after.drop_last()[q]);
        }
        lemma_count_monotone(before.drop_last(), after.drop_last());
        assert(after[after.len() - 1] == after.last());
    }
}

/// Marks only move from unvisited to done, and a production in progress stays so.
spec fn marks_extend(before: Seq<Mark>, after: Seq<Mark>) -> bool {
    &&& after.len() == before.len()
    &&& forall|q: int|
        #![trigger before[q]]
        #![trigger after[q]]
        0 <= q < before.len() ==> {
            &&& (before[q] != Mark::Unvisited ==> after[q] == before[q])
            &&& (after[q] == Mark::InProgress ==> before[q] == Mark::InProgress)
        }
}

impl SymbolicGrammar {
    /// A finished production is marked with its nullability.
    spec fn marks_exact(&self, marks: Seq<Mark>) -> bool {
        forall|q: int|
            0 <= q < marks.len() ==> {
                &&& (#[trigger] marks[q] == Mark::Nullable ==> self.nullable(self.body_at(q)))
                &&& (marks[q] == Mark::NonNullable ==> !self.nullable(self.body_at(q)))
            }
    }

    /// A production in progress is nullable only if `gamma` is, at no greater depth.
    spec fn chain(&self, marks: Seq<Mark>, gamma: Seq<SymbolicSymbol>) -> bool {
        forall|q: int, d: nat|
            0 <= q < marks.len() && marks[q] == Mark::InProgress && #[trigger] self.nullable_within(
                self.body_at(q),
                d,
            ) ==> self.nullable_within(gamma, d)
    }

    /// All productions of `n` have been visited.
    spec fn all_visited(&self, n: SymbolicNonTerminal, marks: Seq<Mark>) -> bool {
        forall|p: int| #[trigger] self.has_head(p, n) ==> marks[p] != Mark::Unvisited
    }

    /// The scan of `gamma` stays within `tokens` and the visited productions.
    spec fn scan_closed(
        &self,
        gamma: Seq<SymbolicSymbol>,
        marks: Seq<Mark>,
        tokens: Set<SymbolicToken>,
    ) -> bool
        decreases gamma.len(),
    {
        if gamma.len() == 0 {
            true
        } else {
            match gamma[0] {
                SymbolicSymbol::Token(t) => tokens.contains(t),
                SymbolicSymbol::NonTerminal(n) => {
                    &&& self.all_visited(n, marks)
                    &&& (self.all_nullable(n) ==> self.scan_closed(gamma.skip(1), marks, tokens))
                },
                SymbolicSymbol::EOF => true,
            }
        }
    }

    /// The scan of each production visited since `before` stays within `tokens`
    /// and the visited productions.
    spec fn visited_closed(
        &self,
        before: Seq<Mark>,
        marks: Seq<Mark>,
        tokens: Set<SymbolicToken>,
    ) -> bool {
        forall|q: int|
            0 <= q < marks.len() && before[q] == Mark::Unvisited && #[trigger] marks[q]
                != Mark::Unvisited ==> self.scan_closed(self.body_at(q), marks, tokens)
    }

    proof fn lemma_scan_closed_monotone(
        &self,
        gamma: Seq<SymbolicSymbol>,
        marks: Seq<Mark>,
        tokens: Set<SymbolicToken>,
        later: Seq<Mark>,
        more: Set<SymbolicToken>,
    )
        requires
            self.scan_closed(gamma, marks, tokens),
            marks.len() == later.len(),
            marks.len() == self.productions@.len(),
            forall|q: int|
                0 <= q < marks.len() && #[trigger] later[q] == Mark::Unvisited ==> marks[q]
                    == Mark::Unvisited,
            tokens.subset_of(more),
        ensures
            self.scan_closed(gamma, later, more),
        decreases gamma.len(),
    {
        if gamma.len() > 0 {
            match gamma[0] {
                SymbolicSymbol::NonTerminal(n) => {
                    assert forall|p: int| #[trigger] self.has_head(p, n) implies later[p]
                        != Mark::Unvisited by {
                        assert(marks[p] != Mark::Unvisited);
                    }
                    if self.all_nullable(n) {
                        self.lemma_scan_closed_monotone(gamma.skip(1), marks, tokens, later, more);
                    }
                },
                _ => {},
            }
        }
    }

    /// A set that the scans of `gamma` and of all visited productions stay
    /// within holds every terminal that begins `gamma`.
    proof fn lemma_closed_holds_first(
        &self,
        gamma: Seq<SymbolicSymbol>,
        marks: Seq<Mark>,
        tokens: Set<SymbolicToken>,
        depth: nat,
        token: SymbolicToken,
    )
        requires
            marks.len() == self.productions@.len(),
            self.scan_closed(gamma, marks, tokens),
            forall|q: int|
                0 <= q < marks.len() && #[trigger] marks[q] != Mark::Unvisited
                    ==> self.scan_closed(self.body_at(q), marks, tokens),
            self.first_within(gamma, depth, token),
        ensures
            tokens.contains(token),
        decreases depth, gamma.len(),
    {
        match gamma[0] {
            SymbolicSymbol::NonTerminal(n) => {
                if exists|p: int| #[trigger]
                    self.has_head(p, n) && self.first_within(
                        self.body_at(p),
                        (depth - 1) as nat,
                        token,
                    ) {
                    let p = choose|p: int| #[trigger]
                        self.has_head(p, n) && self.first_within(
                            self.body_at(p),
                            (depth - 1) as nat,
                            token,
                        );
                    assert(marks[p] != Mark::Unvisited);
                    self.lemma_closed_holds_first(
                        self.body_at(p),
                        marks,
                        tokens,
                        (depth - 1) as nat,
                        token,
                    );
                } else {
                    assert forall|p: int| #[trigger]
                        self.has_head(p, n) implies self.nullable(self.body_at(p)) by {
                        assert(self.nullable_within(self.body_at(p), (depth - 1) as nat));
                    }
                    self.lemma_closed_holds_first(gamma.skip(1), marks, tokens, depth, token);
                }
            },
            _ => {},
        }
    }

    /// What the nullability of a sequence that begins with a non-terminal says
    /// of a production of that non-terminal, and of the rest.
    proof fn lemma_nullable_within_head(&self, gamma: Seq<SymbolicSymbol>, depth: nat, p: int)
        requires
            gamma.len() > 0,
            gamma[0] is NonTerminal,
            self.has_head(p, gamma[0]->NonTerminal_0),
            self.nullable_within(gamma, depth),
        ensures
            depth > 0,
            self.nullable_within(self.body_at(p), (depth - 1) as nat),
            self.nullable_within(gamma.skip(1), depth),
    {
    }

    /// A sequence whose nullability rests on a production that needs the
    /// sequence itself to be nullable is not nullable.
    proof fn lemma_cycle_not_nullable(&self, gamma: Seq<SymbolicSymbol>, p: int, depth: nat)
        requires
            gamma.len() > 0,
            gamma[0] is NonTerminal,
            self.has_head(p, gamma[0]->NonTerminal_0),
            forall|d: nat| #[trigger]
                self.nullable_within(self.body_at(p), d) ==> self.nullable_within(gamma, d),
        ensures
            !self.nullable_within(gamma, depth),
        decreases depth,
    {
        if depth > 0 && self.nullable_within(gamma, depth) {
            assert(self.nullable_within(self.body_at(p), (depth - 1) as nat));
            self.lemma_cycle_not_nullable(gamma, p, (depth - 1) as nat);
        }
    }
}

impl SymbolicGrammar {
    /// Scans `beta` from position `start`. A production is entered at most once
    /// over the whole scan: `marks` records which are unvisited, in progress, or
    /// finished with which nullability.
    fn first_set_helper(
        &self,
        beta: &[SymbolicSymbol],
        start: usize,
        marks: &mut Vec<Mark>,
    ) -> (res: SymbolicFirstSet)
        requires
            self.wf(),
            start <= beta@.len(),
            self.symbols_in_range(beta@),
            old(marks)@.len() == self.productions@.len(),
            self.marks_exact(old(marks)@),
            self.chain(old(marks)@, beta@.skip(start as int)),
        ensures
            marks_extend(old(marks)@, final(marks)@),
            self.marks_exact(final(marks)@),
            res.tokens.capacity() == self.token_count,
            res.nullable == self.nullable(beta@.skip(start as int)),
            res.tokens@.subset_of(self.first(beta@.skip(start as int))),
            self.scan_closed(beta@.skip(start as int), final(marks)@, res.tokens@),
            self.visited_closed(old(marks)@, final(marks)@, res.tokens@),
        decreases unvisited_count(old(marks)@), beta@.len() - start,
    {
        let ghost entry = marks@;
        let ghost gamma = beta@.skip(start as int);
        let mut tokens = TokenSet::new(self.token_count);
        proof {
            self.lemma_nullable_unfold(gamma);
            self.lemma_first_unfold(gamma);
        }
        if start >= beta.len() {
            return SymbolicFirstSet { tokens, nullable: true };
        }
        assert(gamma[0] == beta@[start as int]);
        assert(self.symbol_in_range(beta@[start as int]));
        match beta[start] {
            SymbolicSymbol::Token(t) => {
                tokens.insert(t);
                SymbolicFirstSet { tokens, nullable: false }
            },
            SymbolicSymbol::EOF => SymbolicFirstSet { tokens, nullable: false },
            SymbolicSymbol::NonTerminal(n) => {
                let mut every_nullable = true;
                let mut p: usize = 0;
                while p < self.productions.len()
                    invariant
                        self.wf(),
                        p <= self.productions@.len(),
                        start < beta@.len(),
                        gamma == beta@.skip(start as int),
                        gamma.len() > 0,
                        gamma[0] == SymbolicSymbol::NonTerminal(n),
                        entry.len() == self.productions@.len(),
                        marks_extend(entry, marks@),
                        self.marks_exact(marks@),
                        self.chain(entry, gamma),
                        unvisited_count(entry) == unvisited_count(old(marks)@),
                        tokens.capacity() == self.token_count,
                        tokens@.subset_of(self.first_of(n)),
                        every_nullable == (forall|q: int|
                            q < p && #[trigger] self.has_head(q, n) ==> self.nullable(
                                self.body_at(q),
                            )),
                        forall|q: int|
                            q < p && #[trigger] self.has_head(q, n) ==> marks@[q]
                                != Mark::Unvisited,
                        self.visited_closed(entry, marks@, tokens@),
                    decreases self.productions@.len() - p,
                {
                    if self.productions[p].head == n {
                        assert(self.has_head(p as int, n));
                        let ghost before = marks@;
                        let ghost found = tokens@;
                        match marks[p] {
                            Mark::Unvisited => {
                                marks[p] = Mark::InProgress;
                                let ghost entered = marks@;
                                let ghost body = self.body_at(p as int);
                                proof {
                                    assert(body.skip(0) =~= body);
                                    lemma_count_visit(before, p as int, Mark::InProgress);
                                    lemma_count_monotone(entry, before);
                                    assert forall|q: int, d: nat|
                                        0 <= q < entered.len() && entered[q] == Mark::InProgress
                                            && #[trigger] self.nullable_within(
                                            self.body_at(q),
                                            d,
                                        ) implies self.nullable_within(body, d) by {
                                        if q != p {
                                            assert(before[q] == Mark::InProgress);
                                            assert(entry[q] == Mark::InProgress);
                                            assert(self.nullable_within(gamma, d));
                                            self.lemma_nullable_within_head(gamma, d, p as int);
                                            self.lemma_nullable_within_monotone(
                                                body,
                                                (d - 1) as nat,
                                                d,
                                            );
                                        }
                                    }
                                }
                                let found_here = self.first_set_helper(
                                    self.productions[p].body.as_slice(),
                                    0,
                                    marks,
                                );
                                let ghost left = marks@;
                                marks[p] = if found_here.nullable {
                                    Mark::Nullable
                                } else {
                                    Mark::NonNullable
                                };
                                tokens.extend(&found_here.tokens);
                                if !found_here.nullable {
                                    every_nullable = false;
                                }
                                proof {
                                    assert(self.first(body).subset_of(self.first_of(n)));
                                    assert forall|q: int|
                                        0 <= q < marks@.len() && entry[q] == Mark::Unvisited
                                            && #[trigger] marks@[q]
                                            != Mark::Unvisited implies self.scan_closed(
                                        self.body_at(q),
                                        marks@,
                                        tokens@,
                                    ) by {
                                        if q == p {
                                            self.lemma_scan_closed_monotone(
                                                body,
                                                left,
                                                found_here.tokens@,
                                                marks@,
                                                tokens@,
                                            );
                                        } else if before[q] != Mark::Unvisited {
                                            self.lemma_scan_closed_monotone(
                                                self.body_at(q),
                                                before,
                                                found,
                                                marks@,
                                                tokens@,
                                            );
                                        } else {
                                            assert(entered[q] == Mark::Unvisited);
                                            assert(left[q] != Mark::Unvisited);
                                            self.lemma_scan_closed_monotone(
                                                self.body_at(q),
                                                left,
                                                found_here.tokens@,
                                                marks@,
                                                tokens@,
                                            );
                                        }
                                    }
                                }
                            },
                            Mark::InProgress => {
                                every_nullable = false;
                                proof {
                                    assert(entry[p as int] == Mark::InProgress);
                                    if self.nullable(self.body_at(p as int)) {
                                        let d = choose|d: nat|
                                            self.nullable_within(self.body_at(p as int), d);
                                        self.lemma_cycle_not_nullable(gamma, p as int, d);
                                    }
                                }
                            },
                            Mark::NonNullable => {
                                every_nullable = false;
                            },
                            Mark::Nullable => {},
                        }
                    }
                    p += 1;
                }
                assert(every_nullable == self.all_nullable(n));
                assert(self.all_visited(n, marks@));
                if every_nullable {
                    let ghost looped = marks@;
                    let ghost found = tokens@;
                    proof {
                        lemma_count_monotone(entry, looped);
                        assert(beta@.skip(start + 1) =~= gamma.skip(1));
                        assert forall|q: int, d: nat|
                            0 <= q < looped.len() && looped[q] == Mark::InProgress
                                && #[trigger] self.nullable_within(
                                self.body_at(q),
                                d,
                            ) implies self.nullable_within(gamma.skip(1), d) by {
                            assert(entry[q] == Mark::InProgress);
                            assert(self.nullable_within(gamma, d));
                        }
                    }
                    let rest = self.first_set_helper(beta, start + 1, marks);
                    tokens.extend(&rest.tokens);
                    proof {
                        assert forall|q: int|
                            0 <= q < marks@.len() && entry[q] == Mark::Unvisited
                                && #[trigger] marks@[q]
                                != Mark::Unvisited implies self.scan_closed(
                            self.body_at(q),
                            marks@,
                            tokens@,
                        ) by {
                            if looped[q] != Mark::Unvisited {
                                self.lemma_scan_closed_monotone(
                                    self.body_at(q),
                                    looped,
                                    found,
                                    marks@,
                                    tokens@,
                                );
                            } else {
                                self.lemma_scan_closed_monotone(
                                    self.body_at(q),
                                    marks@,
                                    rest.tokens@,
                                    marks@,
                                    tokens@,
                                );
                            }
                        }
                        self.lemma_scan_closed_monotone(
                            gamma.skip(1),
                            marks@,
                            rest.tokens@,
                            marks@,
                            tokens@,
                        );
                        assert forall|q: int| #[trigger] self.has_head(q, n) implies marks@[q]
                            != Mark::Unvisited by {
                            assert(looped[q] != Mark::Unvisited);
                        }
                    }
                    SymbolicFirstSet { tokens, nullable: rest.nullable }
                } else {
                    SymbolicFirstSet { tokens, nullable: false }
                }
            },
        }
    }

    /// `FIRST(beta)`: the terminals that can begin `beta`, and whether `beta` is
    /// nullable.
    pub fn first_set(&self, beta: &[SymbolicSymbol]) -> (res: SymbolicFirstSet)
        requires
            self.wf(),
            self.symbols_in_range(beta@),
        ensures
            res.tokens@ == self.first(beta@),
            res.nullable == self.nullable(beta@),
            res.tokens.capacity() == self.token_count,
    {
        let mut marks: Vec<Mark> = Vec::new();
        let mut p: usize = 0;
        while p < self.productions.len()
            invariant
                p <= self.productions@.len(),
                marks@.len() == p,
                forall|q: int| 0 <= q < p ==> #[trigger] marks@[q] == Mark::Unvisited,
            decreases self.productions@.len() - p,
        {
            marks.push(Mark::Unvisited);
            p += 1;
        }
        assert(beta@.skip(0) =~= beta@);
        let res = self.first_set_helper(beta, 0, &mut marks);
        proof {
            assert forall|token: SymbolicToken|
                self.first(beta@).contains(token) implies res.tokens@.contains(token) by {
                let d = choose|d: nat| self.first_within(beta@, d, token);
                self.lemma_closed_holds_first(beta@, marks@, res.tokens@, d, token);
            }
            assert(res.tokens@ =~= self.first(beta@));
        }
        res
    }
}

/// Why a grammar was rejected.
#[derive(Debug, Clone, Copy, PartialEq, Eq, Structural)]
pub enum GrammarError {
    /// No terminal, no non-terminal or no production was given.
    EmptyGrammar,
    /// The start symbol is not a declared non-terminal.
    UndeclaredStartSymbol,
    /// The head of a production is not a declared non-terminal.
    UndeclaredHead { production: usize },
    /// The end of input stands inside the body of a production.
    EndOfInputInBody { production: usize, position: usize },
    /// A symbol in the body of a production is not declared.
    SymbolOutOfRange { production: usize, position: usize },
    /// A terminal has the name of an earlier terminal.
    DuplicateToken { token: usize },
    /// A non-terminal has the name of an earlier non-terminal.
    DuplicateNonTerminal { non_terminal: usize },
}

/// The first defect of `body` at or behind `from`, if it has one.
pub open spec fn body_defect(
    token_count: usize,
    non_terminal_count: usize,
    production: usize,
    body: Seq<SymbolicSymbol>,
    from: int,
) -> Option<GrammarError>
    decreases body.len() - from,
{
    if from < 0 || from >= body.len() {
        None
    } else {
        match body[from] {
            SymbolicSymbol::EOF => Some(
                GrammarError::EndOfInputInBody { production, position: from as usize },
            ),
            SymbolicSymbol::Token(t) if t >= token_count => Some(
                GrammarError::SymbolOutOfRange { production, position: from as usize },
            ),
            SymbolicSymbol::NonTerminal(n) if n >= non_terminal_count => Some(
                GrammarError::SymbolOutOfRange { production, position: from as usize },
            ),
            _ => body_defect(token_count, non_terminal_count, production, body, from + 1),
        }
    }
}

/// The first defect of the rules at or behind `from`, if there is one.
pub open spec fn rules_defect(
    token_count: usize,
    non_terminal_count: usize,
    rules: Seq<(SymbolicNonTerminal, Seq<SymbolicSymbol>)>,
    from: int,
) -> Option<GrammarError>
    decreases rules.len() - from,
{
    if from < 0 || from >= rules.len() {
        None
    } else if rules[from].0 >= non_terminal_count {
        Some(GrammarError::UndeclaredHead { production: from as usize })
    } else {
        match body_defect(token_count, non_terminal_count, from as usize, rules[from].1, 0) {
            Some(e) => Some(e),
            None => rules_defect(token_count, non_terminal_count, rules, from + 1),
        }
    }
}

/// The first defect of a grammar's description, if it has one.
pub open spec fn grammar_defect(
    token_count: usize,
    non_terminal_count: usize,
    start_symbol: SymbolicNonTerminal,
    rules: Seq<(SymbolicNonTerminal, Seq<SymbolicSymbol>)>,
) -> Option<GrammarError> {
    if token_count == 0 || non_terminal_count == 0 || rules.len() == 0 {
        Some(GrammarError::EmptyGrammar)
    } else if start_symbol >= non_terminal_count {
        Some(GrammarError::UndeclaredStartSymbol)
    } else {
        rules_defect(token_count, non_terminal_count, rules, 0)
    }
}

/// The rules with their bodies as sequences.
pub open spec fn rule_views(rules: Seq<(SymbolicNonTerminal, Vec<SymbolicSymbol>)>) -> Seq<
    (SymbolicNonTerminal, Seq<SymbolicSymbol>),
> {
    Seq::new(rules.len(), |p: int| (rules[p].0, rules[p].1@))
}

proof fn lemma_no_body_defect(
    token_count: usize,
    non_terminal_count: usize,
    production: usize,
    body: Seq<SymbolicSymbol>,
    from: int,
    i: int,
)
    requires
        body_defect(token_count, non_terminal_count, production, body, from) is None,
        0 <= from <= i < body.len(),
    ensures
        match body[i] {
            SymbolicSymbol::Token(t) => t < token_count,
            SymbolicSymbol::NonTerminal(n) => n < non_terminal_count,
            SymbolicSymbol::EOF => false,
        },
    decreases body.len() - from,
{
    if from < i {
        lemma_no_body_defect(token_count, non_terminal_count, production, body, from + 1, i);
    }
}

/// Checks one body from position 0.
fn check_body(
    token_count: usize,
    non_terminal_count: usize,
    production: usize,
    body: &Vec<SymbolicSymbol>,
) -> (defect: Option<GrammarError>)
    ensures
        defect == body_defect(token_count, non_terminal_count, production, body@, 0),
{
    let mut i: usize = 0;
    while i < body.len()
        invariant
            i <= body@.len(),
            body_defect(token_count, non_terminal_count, production, body@, 0) == body_defect(
                token_count,
                non_terminal_count,
                production,
                body@,
                i as int,
            ),
        decreases body@.len() - i,
    {
        match body[i] {
            SymbolicSymbol::EOF => {
                return Some(GrammarError::EndOfInputInBody { production, position: i });
            },
            SymbolicSymbol::Token(t) => {
                if t >= token_count {
                    return Some(GrammarError::SymbolOutOfRange { production, position: i });
                }
            },
            SymbolicSymbol::NonTerminal(n) => {
                if n >= non_terminal_count {
                    return Some(GrammarError::SymbolOutOfRange { production, position: i });
                }
            },
        }
        i += 1;
    }
    None
}

impl SymbolicGrammar {
    /// Builds the grammar of the given rules, each a head and a body. The rule
    /// at position `p` becomes the production with id `p`. A description with a
    /// defect is rejected with its first defect.
    pub fn new(
        token_count: usize,
        non_terminal_count: usize,
        start_symbol: SymbolicNonTerminal,
        rules: Vec<(SymbolicNonTerminal, Vec<SymbolicSymbol>)>,
    ) -> (res: Result<Self, GrammarError>)
        ensures
            match res {
                Ok(grammar) => {
                    &&& grammar_defect(
                        token_count,
                        non_terminal_count,
                        start_symbol,
                        rule_views(rules@),
                    ) is None
                    &&& grammar.wf()
                    &&& grammar.token_count == token_count
                    &&& grammar.non_terminal_count == non_terminal_count
                    &&& grammar.start_symbol == start_symbol
                    &&& grammar.productions@.len() == rules@.len()
                    &&& forall|p: int|
                        0 <= p < rules@.len() ==> {
                            &&& (#[trigger] grammar.productions@[p]).head == rules@[p].0
                            &&& grammar.productions@[p].body@ == rules@[p].1@
                        }
                },
                Err(e) => grammar_defect(
                    token_count,
                    non_terminal_count,
                    start_symbol,
                    rule_views(rules@),
                ) == Some(e),
            },
    {
        if token_count == 0 || non_terminal_count == 0 || rules.len() == 0 {
            return Err(GrammarError::EmptyGrammar);
        }
        if start_symbol >= non_terminal_count {
            return Err(GrammarError::UndeclaredStartSymbol);
        }
        let ghost given = rules@;
        let mut pending = rules;
        let mut reversed: Vec<SymbolicProduction> = Vec::new();
        // Rules are taken from the back, so the productions come out reversed.
        let mut p: usize = 0;
        while p < pending.len()
            invariant
                p <= pending@.len(),
                pending@ == given,
                given == rules@,
                token_count != 0,
                non_terminal_count != 0,
                given.len() != 0,
                start_symbol < non_terminal_count,
                rules_defect(token_count, non_terminal_count, rule_views(given), 0)
                    == rules_defect(token_count, non_terminal_count, rule_views(given), p as int),
                forall|q: int|
                    0 <= q < p ==> {
                        &&& (#[trigger] given[q]).0 < non_terminal_count
                        &&& body_defect(token_count, non_terminal_count, q as usize, given[q].1@, 0)
                            is None
                    },
            decreases pending@.len() - p,
        {
            assert(rule_views(given)[p as int] == (given[p as int].0, given[p as int].1@));
            if pending[p].0 >= non_terminal_count {
                return Err(GrammarError::UndeclaredHead { production: p });
            }
            match check_body(token_count, non_terminal_count, p, &pending[p].1) {
                Some(e) => {
                    return Err(e);
                },
                None => {},
            }
            p += 1;
        }
        let count = pending.len();
        while pending.len() > 0
            invariant
                count == given.len(),
                pending@.len() + reversed@.len() == count,
                pending@ == given.take(pending@.len() as int),
                forall|q: int|
                    0 <= q < reversed@.len() ==> {
                        &&& (#[trigger] reversed@[q]).production_id == count - 1 - q
                        &&& reversed@[q].head == given[count - 1 - q].0
                        &&& reversed@[q].body@ == given[count - 1 - q].1@
                    },
            decreases pending@.len(),
        {
            let id = pending.len() - 1;
            let ghost before = pending@;
            match pending.pop() {
                Some((head, body)) => {
                    assert(before[id as int] == given[id as int]);
                    assert(pending@ =~= given.take(id as int));
                    reversed.push(SymbolicProduction { production_id: id, head, body });
                },
                None => {},
            }
        }
        let mut productions: Vec<SymbolicProduction> = Vec::new();
        while reversed.len() > 0
            invariant
                count == given.len(),
                productions@.len() + reversed@.len() == count,
                forall|q: int|
                    0 <= q < reversed@.len() ==> {
                        &&& (#[trigger] reversed@[q]).production_id == count - 1 - q
                        &&& reversed@[q].head == given[count - 1 - q].0
                        &&& reversed@[q].body@ == given[count - 1 - q].1@
                    },
                forall|q: int|
                    0 <= q < productions@.len() ==> {
                        &&& (#[trigger] productions@[q]).production_id == q
                        &&& productions@[q].head == given[q].0
                        &&& productions@[q].body@ == given[q].1@
                    },
            decreases reversed@.len(),
        {
            let ghost last = reversed@[reversed@.len() - 1];
            match reversed.pop() {
                Some(production) => {
                    assert(production == last);
                    productions.push(production);
                },
                None => {},
            }
        }
        let grammar = SymbolicGrammar {
            token_count,
            non_terminal_count,
            start_symbol,
            special_production: SymbolicProduction::special_production(start_symbol),
            productions,
        };
        proof {
            assert forall|q: int| 0 <= q < grammar.productions@.len() implies {
                &&& (#[trigger] grammar.productions@[q]).production_id == q
                &&& grammar.productions@[q].head < grammar.non_terminal_count
                &&& grammar.symbols_in_range(grammar.productions@[q].body@)
            } by {
                assert(given[q].0 < non_terminal_count);
                assert forall|i: int|
                    0 <= i < grammar.productions@[q].body@.len() implies grammar.symbol_in_range(
                    #[trigger] grammar.productions@[q].body@[i],
                ) by {
                    lemma_no_body_defect(
                        token_count,
                        non_terminal_count,
                        q as usize,
                        given[q].1@,
                        0,
                        i,
                    );
                }
            }
        }
        Ok(grammar)
    }

    /// Whether every symbol of `beta` names a declared terminal or
    /// non-terminal.
    pub fn has_symbols(&self, beta: &[SymbolicSymbol]) -> (ok: bool)
        ensures
            ok == self.symbols_in_range(beta@),
    {
        let mut i: usize = 0;
        while i < beta.len()
            invariant
                i <= beta@.len(),
                forall|j: int| 0 <= j < i ==> self.symbol_in_range(#[trigger] beta@[j]),
            decreases beta@.len() - i,
        {
            let known = match beta[i] {
                SymbolicSymbol::Token(t) => t < self.token_count,
                SymbolicSymbol::NonTerminal(n) => n < self.non_terminal_count,
                SymbolicSymbol::EOF => false,
            };
            if !known {
                assert(!self.symbol_in_range(beta@[i as int]));
                return false;
            }
            i += 1;
        }
        true
    }

    /// Whether the grammar is well formed.
    pub fn is_well_formed(&self) -> (ok: bool)
        ensures
            ok == self.wf(),
    {
        if self.start_symbol >= self.non_terminal_count {
            return false;
        }
        if self.special_production.production_id != usize::MAX || self.special_production.head
            != usize::MAX || self.special_production.body.len() != 1 {
            return false;
        }
        match self.special_production.body[0] {
            SymbolicSymbol::NonTerminal(n) => {
                if n != self.start_symbol {
                    assert(self.special_production.body@[0] != SymbolicSymbol::NonTerminal(
                        self.start_symbol,
                    ));
                    return false;
                }
            },
            _ => {
                assert(self.special_production.body@[0] != SymbolicSymbol::NonTerminal(
                    self.start_symbol,
                ));
                return false;
            },
        }
        assert(self.special_production.body@ =~= seq![
            SymbolicSymbol::NonTerminal(self.start_symbol),
        ]);
        let mut p: usize = 0;
        while p < self.productions.len()
            invariant
                p <= self.productions@.len(),
                forall|q: int|
                    0 <= q < p ==> {
                        &&& (#[trigger] self.productions@[q]).production_id == q
                        &&& self.productions@[q].head < self.non_terminal_count
                        &&& self.symbols_in_range(self.productions@[q].body@)
                    },
            decreases self.productions@.len() - p,
        {
            let production = &self.productions[p];
            if production.production_id != p || production.head >= self.non_terminal_count
                || !self.has_symbols(production.body.as_slice()) {
                return false;
            }
            p += 1;
        }
        true
    }

    /// The production with the given id, the sentinel id naming the augmenting
    /// production.
    pub fn get_production(&self, id: usize) -> (production: Option<&SymbolicProduction>)
        ensures
            match production {
                Some(production) => self.production_spec(id) == Some(*production),
                None => self.production_spec(id) is None,
            },
    {
        if id == usize::MAX {
            return Some(&self.special_production);
        }
        if id < self.productions.len() {
            Some(&self.productions[id])
        } else {
            None
        }
    }

    /// The productions with the given head, in the order of their ids.
    pub fn get_productions_with_head(&self, head: SymbolicNonTerminal) -> (found: Vec<
        &SymbolicProduction,
    >)
        ensures
            found@.map_values(|production: &SymbolicProduction| *production)
                == self.productions@.filter(|production: SymbolicProduction| production.head == head),
    {
        let mut found: Vec<&SymbolicProduction> = Vec::new();
        let ghost deref = |production: &SymbolicProduction| *production;
        let ghost wanted = |production: SymbolicProduction| production.head == head;
        let mut p: usize = 0;
        assert(self.productions@.take(0) =~= Seq::empty());
        assert(found@.map_values(deref) =~= Seq::empty());
        while p < self.productions.len()
            invariant
                p <= self.productions@.len(),
                deref == |production: &SymbolicProduction| *production,
                wanted == |production: SymbolicProduction| production.head == head,
                found@.map_values(deref) == self.productions@.take(p as int).filter(wanted),
            decreases self.productions@.len() - p,
        {
            let ghost before = found@;
            proof {
                self.productions@.lemma_take_succ_push(p as int);
                self.productions@.take(p as int).lemma_filter_push(
                    self.productions@[p as int],
                    wanted,
                );
            }
            if self.productions[p].head == head {
                found.push(&self.productions[p]);
                assert(found@.map_values(deref) =~= before.map_values(deref).push(
                    self.productions@[p as int],
                ));
            }
            p += 1;
        }
        assert(self.productions@.take(p as int) =~= self.productions@);
        found
    }

    pub fn token_count(&self) -> (count: usize)
        ensures
            count == self.token_count,
    {
        self.token_count
    }

    pub fn non_terminal_count(&self) -> (count: usize)
        ensures
            count == self.non_terminal_count,
    {
        self.non_terminal_count
    }

    /// `nullable` and `first` satisfy the scan rules, by `lemma_nullable_unfold` and
    /// `lemma_first_unfold`. An assignment `null`, `fst` that satisfies them too
    /// holds whatever `nullable` and `first` hold: these are the least solution.
    pub proof fn lemma_first_is_least(
        &self,
        null: spec_fn(Seq<SymbolicSymbol>) -> bool,
        fst: spec_fn(Seq<SymbolicSymbol>) -> Set<SymbolicToken>,
        beta: Seq<SymbolicSymbol>,
    )
        requires
            self.satisfies_scan_rules(null, fst),
        ensures
            self.nullable(beta) ==> null(beta),
            self.first(beta).subset_of(fst(beta)),
    {
        if self.nullable(beta) {
            let d = choose|d: nat| self.nullable_within(beta, d);
            self.lemma_least_nullable(null, fst, beta, d);
        }
        assert forall|token: SymbolicToken| self.first(beta).contains(token) implies fst(
            beta,
        ).contains(token) by {
            let d = choose|d: nat| self.first_within(beta, d, token);
            self.lemma_least_first(null, fst, beta, d, token);
        }
    }

    /// `null` and `fst` are closed under the rules of the scan.
    pub open spec fn satisfies_scan_rules(
        &self,
        null: spec_fn(Seq<SymbolicSymbol>) -> bool,
        fst: spec_fn(Seq<SymbolicSymbol>) -> Set<SymbolicToken>,
    ) -> bool {
        &&& null(Seq::<SymbolicSymbol>::empty())
        &&& forall|gamma: Seq<SymbolicSymbol>|
            #![trigger null(gamma)]
            #![trigger fst(gamma)]
            gamma.len() > 0 ==> match gamma[0] {
                SymbolicSymbol::Token(t) => fst(gamma).contains(t),
                SymbolicSymbol::NonTerminal(n) => {
                    &&& forall|p: int, token: SymbolicToken|
                        #![trigger self.has_head(p, n), fst(gamma).contains(token)]
                        self.has_head(p, n) && fst(self.body_at(p)).contains(token) ==> fst(
                            gamma,
                        ).contains(token)
                    &&& (forall|p: int| #[trigger] self.has_head(p, n) ==> null(self.body_at(p)))
                        ==> {
                        &&& fst(gamma.skip(1)).subset_of(fst(gamma))
                        &&& (null(gamma.skip(1)) ==> null(gamma))
                    }
                },
                SymbolicSymbol::EOF => true,
            }
    }

    proof fn lemma_least_nullable(
        &self,
        null: spec_fn(Seq<SymbolicSymbol>) -> bool,
        fst: spec_fn(Seq<SymbolicSymbol>) -> Set<SymbolicToken>,
        beta: Seq<SymbolicSymbol>,
        depth: nat,
    )
        requires
            self.satisfies_scan_rules(null, fst),
            self.nullable_within(beta, depth),
        ensures
            null(beta),
        decreases depth, beta.len(),
    {
        if beta.len() == 0 {
            assert(beta =~= Seq::<SymbolicSymbol>::empty());
        } else {
            match beta[0] {
                SymbolicSymbol::NonTerminal(n) => {
                    assert forall|p: int| #[trigger] self.has_head(p, n) implies null(
                        self.body_at(p),
                    ) by {
                        self.lemma_least_nullable(null, fst, self.body_at(p), (depth - 1) as nat);
                    }
                    self.lemma_least_nullable(null, fst, beta.skip(1), depth);
                },
                _ => {},
            }
        }
    }

    proof fn lemma_least_first(
        &self,
        null: spec_fn(Seq<SymbolicSymbol>) -> bool,
        fst: spec_fn(Seq<SymbolicSymbol>) -> Set<SymbolicToken>,
        beta: Seq<SymbolicSymbol>,
        depth: nat,
        token: SymbolicToken,
    )
        requires
            self.satisfies_scan_rules(null, fst),
            self.first_within(beta, depth, token),
        ensures
            fst(beta).contains(token),
        decreases depth, beta.len(),
    {
        match beta[0] {
            SymbolicSymbol::NonTerminal(n) => {
                if exists|p: int| #[trigger]
                    self.has_head(p, n) && self.first_within(
                        self.body_at(p),
                        (depth - 1) as nat,
                        token,
                    ) {
                    let p = choose|p: int| #[trigger]
                        self.has_head(p, n) && self.first_within(
                            self.body_at(p),
                            (depth - 1) as nat,
                            token,
                        );
                    self.lemma_least_first(null, fst, self.body_at(p), (depth - 1) as nat, token);
                } else {
                    assert forall|p: int| #[trigger] self.has_head(p, n) implies null(
                        self.body_at(p),
                    ) by {
                        self.lemma_least_nullable(null, fst, self.body_at(p), (depth - 1) as nat);
                    }
                    self.lemma_least_first(null, fst, beta.skip(1), depth, token);
                }
            },
            _ => {},
        }
    }
}

} // verus!
