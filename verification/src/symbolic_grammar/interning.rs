//! From names to ids: terminals and non-terminals get the ids of their
//! positions, and productions are rewritten over ids.

use crate::grammar::production::Production;
use crate::grammar::{first_position, Grammar};
use crate::symbolic_grammar::{
    grammar_defect, rule_views, GrammarError, SymbolicGrammar, SymbolicNonTerminal,
    SymbolicSymbol,
};
use vstd::prelude::*;

verus! {

/// The first position at or behind `from` whose name stands at an earlier
/// position too.
pub open spec fn first_duplicate(names: Seq<Seq<char>>, from: nat) -> Option<usize>
    decreases names.len() - from,
{
    if from >= names.len() {
        None
    } else if first_position(names, names[from as int], 0) != Some(from as usize) {
        Some(from as usize)
    } else {
        first_duplicate(names, from + 1)
    }
}

impl Grammar {
    /// The id of the terminal named `name`: its first position.
    pub fn token_id(&self, name: &String) -> (id: Option<usize>)
        ensures
            id == first_position(self.token_names(), name@, 0),
    {
        let mut i: usize = 0;
        while i < self.tokens.len()
            invariant
                i <= self.tokens@.len(),
                first_position(self.token_names(), name@, 0) == first_position(
                    self.token_names(),
                    name@,
                    i as nat,
                ),
            decreases self.tokens@.len() - i,
        {
            if self.tokens[i].name == *name {
                return Some(i);
            }
            i += 1;
        }
        None
    }

    /// The id of the non-terminal named `name`: its first position.
    pub fn non_terminal_id(&self, name: &String) -> (id: Option<usize>)
        ensures
            id == first_position(self.non_terminal_names(), name@, 0),
    {
        let mut i: usize = 0;
        while i < self.non_terminals.len()
            invariant
                i <= self.non_terminals@.len(),
                first_position(self.non_terminal_names(), name@, 0) == first_position(
                    self.non_terminal_names(),
                    name@,
                    i as nat,
                ),
            decreases self.non_terminals@.len() - i,
        {
            if self.non_terminals[i].name == *name {
                return Some(i);
            }
            i += 1;
        }
        None
    }

    /// The symbol that `name` stands for: a terminal, else a non-terminal,
    /// else the end of input.
    pub open spec fn symbol_of(&self, name: Seq<char>) -> SymbolicSymbol {
        match first_position(self.token_names(), name, 0) {
            Some(token) => SymbolicSymbol::Token(token),
            None => match first_position(self.non_terminal_names(), name, 0) {
                Some(non_terminal) => SymbolicSymbol::NonTerminal(non_terminal),
                None => SymbolicSymbol::EOF,
            },
        }
    }

    /// The id of the non-terminal named `name`, or the greatest id if there
    /// is none.
    pub open spec fn head_of(&self, name: Seq<char>) -> SymbolicNonTerminal {
        match first_position(self.non_terminal_names(), name, 0) {
            Some(non_terminal) => non_terminal,
            None => usize::MAX,
        }
    }

    /// The production at position `p` over ids.
    pub open spec fn rule_of(&self, p: int) -> (SymbolicNonTerminal, Seq<SymbolicSymbol>) {
        (
            self.head_of(self.productions@[p].head@),
            Seq::new(
                self.productions@[p].body@.len(),
                |i: int| self.symbol_of(self.productions@[p].body@[i]@),
            ),
        )
    }

    /// All productions over ids.
    pub open spec fn rules(&self) -> Seq<(SymbolicNonTerminal, Seq<SymbolicSymbol>)> {
        Seq::new(self.productions@.len(), |p: int| self.rule_of(p))
    }

    /// The first defect of the grammar, if it has one: a name that is
    /// declared twice, or the first defect of the grammar over ids.
    pub open spec fn defect(&self) -> Option<GrammarError> {
        match first_duplicate(self.token_names(), 0) {
            Some(token) => Some(GrammarError::DuplicateToken { token }),
            None => match first_duplicate(self.non_terminal_names(), 0) {
                Some(non_terminal) => Some(GrammarError::DuplicateNonTerminal { non_terminal }),
                None => grammar_defect(
                    self.tokens@.len() as usize,
                    self.non_terminals@.len() as usize,
                    self.head_of(self.start_symbol@),
                    self.rules(),
                ),
            },
        }
    }
}

impl SymbolicGrammar {
    /// The symbol that `name` stands for in `grammar`.
    pub fn find_symbol(grammar: &Grammar, name: &String) -> (symbol: SymbolicSymbol)
        ensures
            symbol == grammar.symbol_of(name@),
    {
        match grammar.token_id(name) {
            Some(token) => SymbolicSymbol::Token(token),
            None => match grammar.non_terminal_id(name) {
                Some(non_terminal) => SymbolicSymbol::NonTerminal(non_terminal),
                None => SymbolicSymbol::EOF,
            },
        }
    }

    /// The head and the body of `production` over ids.
    pub fn map_production(grammar: &Grammar, production: &Production) -> (rule: (
        SymbolicNonTerminal,
        Vec<SymbolicSymbol>,
    ))
        ensures
            rule.0 == grammar.head_of(production.head@),
            rule.1@.len() == production.body@.len(),
            forall|i: int|
                0 <= i < production.body@.len() ==> #[trigger] rule.1@[i] == grammar.symbol_of(
                    production.body@[i]@,
                ),
    {
        let head = match grammar.non_terminal_id(&production.head) {
            Some(non_terminal) => non_terminal,
            None => usize::MAX,
        };
        let mut body: Vec<SymbolicSymbol> = Vec::new();
        let mut i: usize = 0;
        while i < production.body.len()
            invariant
                i <= production.body@.len(),
                body@.len() == i,
                forall|j: int|
                    0 <= j < i ==> #[trigger] body@[j] == grammar.symbol_of(production.body@[j]@),
            decreases production.body@.len() - i,
        {
            body.push(Self::find_symbol(grammar, &production.body[i]));
            i += 1;
        }
        (head, body)
    }

    /// The grammar over ids of a grammar over names. A terminal or
    /// non-terminal gets the id of its position; a name that stands for
    /// nothing becomes the end of input, or the greatest id where a
    /// non-terminal is asked for. A grammar with a defect is rejected with
    /// its first defect.
    pub fn from_grammar(grammar: &Grammar) -> (res: Result<Self, GrammarError>)
        ensures
            match res {
                Ok(symbolic) => {
                    &&& grammar.defect() is None
                    &&& symbolic.wf()
                    &&& symbolic.token_count == grammar.tokens@.len()
                    &&& symbolic.non_terminal_count == grammar.non_terminals@.len()
                    &&& symbolic.start_symbol == grammar.head_of(grammar.start_symbol@)
                    &&& symbolic.productions@.len() == grammar.productions@.len()
                    &&& forall|p: int|
                        0 <= p < grammar.productions@.len() ==> {
                            &&& (#[trigger] symbolic.productions@[p]).head == grammar.rule_of(p).0
                            &&& symbolic.productions@[p].body@ == grammar.rule_of(p).1
                        }
                },
                Err(e) => grammar.defect() == Some(e),
            },
    {
        let mut i: usize = 0;
        while i < grammar.tokens.len()
            invariant
                i <= grammar.tokens@.len(),
                first_duplicate(grammar.token_names(), 0) == first_duplicate(
                    grammar.token_names(),
                    i as nat,
                ),
            decreases grammar.tokens@.len() - i,
        {
            let found = grammar.token_id(&grammar.tokens[i].name);
            assert(grammar.token_names()[i as int] == grammar.tokens@[i as int].name@);
            if found != Some(i) {
                return Err(GrammarError::DuplicateToken { token: i });
            }
            i += 1;
        }
        let mut i: usize = 0;
        while i < grammar.non_terminals.len()
            invariant
                i <= grammar.non_terminals@.len(),
                first_duplicate(grammar.token_names(), 0) is None,
                first_duplicate(grammar.non_terminal_names(), 0) == first_duplicate(
                    grammar.non_terminal_names(),
                    i as nat,
                ),
            decreases grammar.non_terminals@.len() - i,
        {
            let found = grammar.non_terminal_id(&grammar.non_terminals[i].name);
            assert(grammar.non_terminal_names()[i as int] == grammar.non_terminals@[i as int].name@);
            if found != Some(i) {
                return Err(GrammarError::DuplicateNonTerminal { non_terminal: i });
            }
            i += 1;
        }
        let start_symbol = match grammar.non_terminal_id(&grammar.start_symbol) {
            Some(non_terminal) => non_terminal,
            None => usize::MAX,
        };
        let mut rules: Vec<(SymbolicNonTerminal, Vec<SymbolicSymbol>)> = Vec::new();
        let mut p: usize = 0;
        while p < grammar.productions.len()
            invariant
                p <= grammar.productions@.len(),
                rules@.len() == p,
                forall|q: int|
                    0 <= q < p ==> (#[trigger] rules@[q]).0 == grammar.rule_of(q).0 && rules@[q].1@
                        == grammar.rule_of(q).1,
            decreases grammar.productions@.len() - p,
        {
            let rule = Self::map_production(grammar, &grammar.productions[p]);
            assert(rule.1@ =~= grammar.rule_of(p as int).1);
            rules.push(rule);
            p += 1;
        }
        assert(rule_views(rules@) =~= grammar.rules());
        Self::new(grammar.tokens.len(), grammar.non_terminals.len(), start_symbol, rules)
    }
}

} // verus!
