//! Grammars by name: what a grammar looks like before its symbols are
//! numbered.

pub mod non_terminal;
pub mod production;
pub mod symbol;
pub mod token;

use crate::grammar::non_terminal::NonTerminal;
use crate::grammar::production::Production;
use crate::grammar::symbol::Symbol;
use crate::grammar::token::Token;
use vstd::prelude::*;

verus! {

/// The last position below `upto` at which `names` holds `name`.
pub open spec fn last_position(names: Seq<Seq<char>>, name: Seq<char>, upto: nat) -> Option<usize>
    decreases upto,
{
    if upto == 0 {
        None
    } else if names[upto - 1] == name {
        Some((upto - 1) as usize)
    } else {
        last_position(names, name, (upto - 1) as nat)
    }
}

/// The first position at or behind `from` at which `names` holds `name`.
pub open spec fn first_position(names: Seq<Seq<char>>, name: Seq<char>, from: nat) -> Option<usize>
    decreases names.len() - from,
{
    if from >= names.len() {
        None
    } else if names[from as int] == name {
        Some(from as usize)
    } else {
        first_position(names, name, from + 1)
    }
}

#[derive(Debug)]
pub struct Grammar {
    pub non_terminals: Vec<NonTerminal>,
    pub tokens: Vec<Token>,
    pub productions: Vec<Production>,
    pub extra_production: Production,
    pub start_symbol: String,
}

impl Grammar {
    pub open spec fn token_names(&self) -> Seq<Seq<char>> {
        Seq::new(self.tokens@.len(), |i: int| self.tokens@[i].name@)
    }

    pub open spec fn non_terminal_names(&self) -> Seq<Seq<char>> {
        Seq::new(self.non_terminals@.len(), |i: int| self.non_terminals@[i].name@)
    }

    pub open spec fn production_names(&self) -> Seq<Seq<char>> {
        Seq::new(self.productions@.len(), |i: int| self.productions@[i].name@)
    }

    /// The symbol at position `index`: a terminal, a non-terminal, or
    /// behind all of them the end of input.
    pub open spec fn symbol_at(&self, index: usize) -> Symbol {
        if index < self.tokens@.len() {
            Symbol::Token(index)
        } else if index - self.tokens@.len() < self.non_terminals@.len() {
            Symbol::NonTerminal((index - self.tokens@.len()) as usize)
        } else {
            Symbol::EOF
        }
    }

    /// The symbol that `name` names. A non-terminal goes before a terminal
    /// of the same name, and of two of a kind the later one.
    pub open spec fn symbol_named(&self, name: Seq<char>) -> Option<Symbol> {
        match last_position(
            self.non_terminal_names(),
            name,
            self.non_terminals@.len(),
        ) {
            Some(i) => Some(Symbol::NonTerminal(i)),
            None => match last_position(self.token_names(), name, self.tokens@.len()) {
                Some(i) => Some(Symbol::Token(i)),
                None => None,
            },
        }
    }

    /// The grammar of the given symbols and productions. Its extra
    /// production, without a name and without a head, has the start symbol
    /// as its body.
    pub fn new(
        non_terminals: Vec<NonTerminal>,
        tokens: Vec<Token>,
        productions: Vec<Production>,
        start_symbol: String,
    ) -> (grammar: Self)
        ensures
            grammar.non_terminals == non_terminals,
            grammar.tokens == tokens,
            grammar.productions == productions,
            grammar.start_symbol == start_symbol,
            grammar.extra_production.name@ == Seq::<char>::empty(),
            grammar.extra_production.head@ == Seq::<char>::empty(),
            grammar.extra_production.body@.len() == 1,
            grammar.extra_production.body@[0]@ == start_symbol@,
    {
        let mut body: Vec<String> = Vec::new();
        body.push(start_symbol.clone());
        let extra_production = Production::new(String::new(), String::new(), body);
        Self { non_terminals, tokens, productions, extra_production, start_symbol }
    }

    /// The symbol named `name`, if there is one.
    pub fn get_symbol(&self, name: &String) -> (symbol: Option<Symbol>)
        ensures
            symbol == self.symbol_named(name@),
    {
        let mut i: usize = self.non_terminals.len();
        while i > 0
            invariant
                i <= self.non_terminals@.len(),
                last_position(self.non_terminal_names(), name@, self.non_terminals@.len())
                    == last_position(self.non_terminal_names(), name@, i as nat),
            decreases i,
        {
            if self.non_terminals[i - 1].name == *name {
                return Some(Symbol::NonTerminal(i - 1));
            }
            i -= 1;
        }
        let mut i: usize = self.tokens.len();
        while i > 0
            invariant
                i <= self.tokens@.len(),
                last_position(self.non_terminal_names(), name@, self.non_terminals@.len())
                    is None,
                last_position(self.token_names(), name@, self.tokens@.len()) == last_position(
                    self.token_names(),
                    name@,
                    i as nat,
                ),
            decreases i,
        {
            if self.tokens[i - 1].name == *name {
                return Some(Symbol::Token(i - 1));
            }
            i -= 1;
        }
        None
    }

    /// The symbol at position `index`.
    pub fn get_symbol_from_id(&self, index: usize) -> (symbol: Symbol)
        ensures
            symbol == self.symbol_at(index),
    {
        if index < self.tokens.len() {
            Symbol::Token(index)
        } else {
            let i = index - self.tokens.len();
            if i < self.non_terminals.len() {
                Symbol::NonTerminal(i)
            } else {
                Symbol::EOF
            }
        }
    }

    /// The name of the symbol at position `index`; the end of input is `$`.
    pub fn get_symbol_name_from_id(&self, index: usize) -> (name: &str)
        ensures
            name@ == match self.symbol_at(index) {
                Symbol::NonTerminal(i) => self.non_terminals@[i as int].name@,
                Symbol::Token(i) => self.tokens@[i as int].name@,
                Symbol::EOF => "$"@,
            },
    {
        match self.get_symbol_from_id(index) {
            Symbol::NonTerminal(i) => self.non_terminals[i].name.as_str(),
            Symbol::Token(i) => self.tokens[i].name.as_str(),
            Symbol::EOF => "$",
        }
    }

    /// The production named `name`, of several the last.
    pub fn get_production(&self, name: &String) -> (production: Option<&Production>)
        ensures
            match last_position(self.production_names(), name@, self.productions@.len()) {
                Some(i) => production == Some(&self.productions@[i as int]),
                None => production is None,
            },
    {
        let mut i: usize = self.productions.len();
        while i > 0
            invariant
                i <= self.productions@.len(),
                last_position(self.production_names(), name@, self.productions@.len())
                    == last_position(self.production_names(), name@, i as nat),
            decreases i,
        {
            if self.productions[i - 1].name == *name {
                return Some(&self.productions[i - 1]);
            }
            i -= 1;
        }
        None
    }

    /// The production with the id `id`; the greatest id names the extra
    /// production.
    pub fn get_production_from_id(&self, id: usize) -> (production: Option<&Production>)
        ensures
            production == if id == usize::MAX {
                Some(&self.extra_production)
            } else if id < self.productions@.len() {
                Some(&self.productions@[id as int])
            } else {
                None
            },
    {
        if id == usize::MAX {
            return Some(&self.extra_production);
        }
        if id < self.productions.len() {
            Some(&self.productions[id])
        } else {
            None
        }
    }

    pub fn get_token(&self, index: usize) -> (token: Option<&Token>)
        ensures
            token == if index < self.tokens@.len() {
                Some(&self.tokens@[index as int])
            } else {
                None
            },
    {
        if index < self.tokens.len() {
            Some(&self.tokens[index])
        } else {
            None
        }
    }

    pub fn get_non_terminal(&self, index: usize) -> (non_terminal: Option<&NonTerminal>)
        ensures
            non_terminal == if index < self.non_terminals@.len() {
                Some(&self.non_terminals@[index as int])
            } else {
                None
            },
    {
        if index < self.non_terminals.len() {
            Some(&self.non_terminals[index])
        } else {
            None
        }
    }

    /// The ids below `upto` of the productions with the head `head`, in
    /// increasing order.
    pub open spec fn with_head(&self, head: Seq<char>, upto: nat) -> Seq<usize>
        decreases upto,
    {
        if upto == 0 {
            Seq::empty()
        } else if self.productions@[upto - 1].head@ == head {
            self.with_head(head, (upto - 1) as nat).push((upto - 1) as usize)
        } else {
            self.with_head(head, (upto - 1) as nat)
        }
    }

    /// The ids of the productions with the head `head`, in increasing order.
    pub fn get_production_with_head(&self, head: &String) -> (ids: Vec<usize>)
        ensures
            ids@ == self.with_head(head@, self.productions@.len()),
    {
        let mut ids: Vec<usize> = Vec::new();
        let mut i: usize = 0;
        while i < self.productions.len()
            invariant
                i <= self.productions@.len(),
                ids@ == self.with_head(head@, i as nat),
            decreases self.productions@.len() - i,
        {
            if self.productions[i].head == *head {
                ids.push(i);
            }
            i += 1;
        }
        ids
    }

    /// Number of symbols: the terminals, the non-terminals and the end of
    /// input.
    pub fn symbols_count(&self) -> (count: usize)
        requires
            self.tokens@.len() + self.non_terminals@.len() < usize::MAX,
        ensures
            count == self.tokens@.len() + self.non_terminals@.len() + 1,
    {
        self.tokens.len() + self.non_terminals.len() + 1
    }
}

} // verus!
