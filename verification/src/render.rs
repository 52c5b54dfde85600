//! Text for grammars, lookaheads, tables and automata.

use crate::grammar::production::Production;
use crate::lalr::automaton::LalrAutomaton;
use crate::parser::results::ParseError;
use crate::parser::traits::{Reduce, Tables};
use crate::parser::Symbol;
use crate::lalr::{items_ok, LalrItem};
use crate::lookahead::{resolved_eof, resolved_tokens, LookAhead, NodeView};
use crate::parsing::action::Action;
use crate::parsing::tables::{ActionTable, GoToTable, TransitionTables};
use crate::symbolic_grammar::{SymbolicGrammar, SymbolicProduction, SymbolicSymbol};
use itertools::Itertools;
use std::fmt::Display;
use vstd::prelude::*;
use vstd::slice::slice_subrange;
use vstd::string::StringExecFns;

verus! {

/// The decimal digit `d`.
pub open spec fn digit(d: nat) -> char {
    if d == 0 {
        '0'
    } else if d == 1 {
        '1'
    } else if d == 2 {
        '2'
    } else if d == 3 {
        '3'
    } else if d == 4 {
        '4'
    } else if d == 5 {
        '5'
    } else if d == 6 {
        '6'
    } else if d == 7 {
        '7'
    } else if d == 8 {
        '8'
    } else {
        '9'
    }
}

/// The decimal digits of `number`, the most significant first.
pub open spec fn decimal_text(number: nat) -> Seq<char>
    decreases number,
{
    if number < 10 {
        seq![digit(number)]
    } else {
        decimal_text(number / 10).push(digit(number % 10))
    }
}

/// The views of the strings of `parts`.
pub open spec fn views(parts: Seq<String>) -> Seq<Seq<char>> {
    Seq::new(parts.len(), |i: int| parts[i]@)
}

/// The first `count` of `parts`, with `separator` between each two.
pub open spec fn joined(parts: Seq<Seq<char>>, separator: Seq<char>, count: nat) -> Seq<char>
    decreases count,
{
    if count == 0 {
        Seq::empty()
    } else if count == 1 {
        parts[0]
    } else {
        joined(parts, separator, (count - 1) as nat) + separator + parts[count - 1]
    }
}

/// `count` spaces.
pub open spec fn spaces(count: nat) -> Seq<char> {
    Seq::new(count, |i: int| ' ')
}

/// `text` in the middle of five columns; of an odd number of spaces, the
/// greater part stands behind the text. A longer text stays as it is.
pub open spec fn centered(text: Seq<char>) -> Seq<char> {
    if text.len() >= 5 {
        text
    } else {
        spaces(((5 - text.len()) / 2) as nat) + text + spaces(
            ((5 - text.len()) - (5 - text.len()) / 2) as nat,
        )
    }
}

/// The decimal digits of `number`, as `usize::to_string` writes them:
/// without a sign and without leading zeros.
#[verifier::external_body]
fn decimal(number: usize) -> (text: String)
    ensures
        text@ == decimal_text(number as nat),
{
    number.to_string()
}

/// The parts with the separator between each two, as `Itertools::format` of
/// itertools writes them: the first part, then for each further part the
/// separator and the part.
#[verifier::external_body]
fn join(parts: &Vec<String>, separator: &str) -> (text: String)
    ensures
        text@ == joined(views(parts@), separator@, parts@.len()),
{
    format!("{}", parts.iter().format(separator))
}

/// `count` spaces.
fn blank(count: usize) -> (text: String)
    ensures
        text@ == spaces(count as nat),
{
    let mut text = String::new();
    let mut i: usize = 0;
    proof {
        reveal_strlit(" ");
    }
    while i < count
        invariant
            i <= count,
            text@ == spaces(i as nat),
            " "@ == seq![' '],
        decreases count - i,
    {
        text.append(" ");
        assert(text@ =~= spaces((i + 1) as nat));
        i += 1;
    }
    text
}

/// `text` in the middle of five columns.
fn center(text: &str) -> (res: String)
    ensures
        res@ == centered(text@),
{
    let length = text.unicode_len();
    if length >= 5 {
        let mut res = String::new();
        res.append(text);
        assert(res@ =~= text@);
        return res;
    }
    let padding = 5 - length;
    let mut res = blank(padding / 2);
    res.append(text);
    let behind = blank(padding - padding / 2);
    res.append(behind.as_str());
    res
}

/// The text of a symbol: a terminal between backticks, a non-terminal
/// plain, the end of input as `$`.
pub open spec fn symbol_text(symbol: SymbolicSymbol) -> Seq<char> {
    match symbol {
        SymbolicSymbol::Token(token) => "`"@ + decimal_text(token as nat) + "`"@,
        SymbolicSymbol::NonTerminal(non_terminal) => decimal_text(non_terminal as nat),
        SymbolicSymbol::EOF => "$"@,
    }
}

/// The texts of the symbols of `symbols`.
pub open spec fn symbol_texts(symbols: Seq<SymbolicSymbol>) -> Seq<Seq<char>> {
    Seq::new(symbols.len(), |i: int| symbol_text(symbols[i]))
}

/// The text of a production: its id, its head, and its body in parentheses.
pub open spec fn production_text(production: SymbolicProduction) -> Seq<char> {
    decimal_text(production.production_id as nat) + ": "@ + decimal_text(production.head as nat)
        + " -> ("@ + joined(symbol_texts(production.body@), ", "@, production.body@.len()) + ")"@
}

/// The decimal texts of the numbers below `count`, terminals between
/// backticks.
pub open spec fn number_texts(count: nat, ticks: bool) -> Seq<Seq<char>> {
    Seq::new(
        count,
        |i: int|
            if ticks {
                "`"@ + decimal_text(i as nat) + "`"@
            } else {
                decimal_text(i as nat)
            },
    )
}

impl SymbolicSymbol {
    pub fn to_text(&self) -> (text: String)
        ensures
            text@ == symbol_text(*self),
    {
        match self {
            SymbolicSymbol::Token(token) => {
                let mut text = String::new();
                text.append("`");
                text.append(decimal(*token).as_str());
                text.append("`");
                assert(text@ =~= "`"@ + decimal_text(*token as nat) + "`"@);
                text
            },
            SymbolicSymbol::NonTerminal(non_terminal) => decimal(*non_terminal),
            SymbolicSymbol::EOF => {
                let mut text = String::new();
                text.append("$");
                assert(text@ =~= "$"@);
                text
            },
        }
    }
}

/// The texts of `symbols`, one by one.
fn symbols_to_texts(symbols: &Vec<SymbolicSymbol>) -> (texts: Vec<String>)
    ensures
        views(texts@) == symbol_texts(symbols@),
        texts@.len() == symbols@.len(),
{
    let mut texts: Vec<String> = Vec::new();
    let mut i: usize = 0;
    while i < symbols.len()
        invariant
            i <= symbols@.len(),
            texts@.len() == i,
            forall|j: int| 0 <= j < i ==> (#[trigger] texts@[j])@ == symbol_text(symbols@[j]),
        decreases symbols@.len() - i,
    {
        texts.push(symbols[i].to_text());
        i += 1;
    }
    assert(views(texts@) =~= symbol_texts(symbols@));
    texts
}

/// The texts of the numbers below `count`.
fn numbers_to_texts(count: usize, ticks: bool) -> (texts: Vec<String>)
    ensures
        views(texts@) == number_texts(count as nat, ticks),
        texts@.len() == count,
{
    let mut texts: Vec<String> = Vec::new();
    let mut i: usize = 0;
    while i < count
        invariant
            i <= count,
            texts@.len() == i,
            forall|j: int|
                0 <= j < i ==> (#[trigger] texts@[j])@ == number_texts(count as nat, ticks)[j],
        decreases count - i,
    {
        if ticks {
            let mut text = String::new();
            text.append("`");
            text.append(decimal(i).as_str());
            text.append("`");
            assert(text@ =~= "`"@ + decimal_text(i as nat) + "`"@);
            texts.push(text);
        } else {
            texts.push(decimal(i));
        }
        i += 1;
    }
    assert(views(texts@) =~= number_texts(count as nat, ticks));
    texts
}

impl SymbolicProduction {
    pub fn to_text(&self) -> (text: String)
        ensures
            text@ == production_text(*self),
    {
        let mut text = decimal(self.production_id);
        text.append(": ");
        text.append(decimal(self.head).as_str());
        text.append(" -> (");
        let body = symbols_to_texts(&self.body);
        text.append(join(&body, ", ").as_str());
        text.append(")");
        text
    }
}

impl SymbolicGrammar {
    /// The texts of the productions.
    pub open spec fn production_texts(&self) -> Seq<Seq<char>> {
        Seq::new(self.productions@.len(), |p: int| production_text(self.productions@[p]))
    }

    /// The text of the grammar: its non-terminals, its terminals, its start
    /// symbol and its productions.
    pub open spec fn text(&self) -> Seq<char> {
        "SymbolicGrammar { "@ + "non_terminals: ["@ + joined(
            number_texts(self.non_terminal_count as nat, false),
            ", "@,
            self.non_terminal_count as nat,
        ) + "], "@ + "tokens: ["@ + joined(
            number_texts(self.token_count as nat, true),
            ", "@,
            self.token_count as nat,
        ) + "], "@ + "start_symbol: "@ + decimal_text(self.start_symbol as nat) + ", "@
            + "productions: ["@ + joined(
            self.production_texts(),
            ", "@,
            self.productions@.len(),
        ) + "] }"@
    }

    pub fn to_text(&self) -> (text: String)
        ensures
            text@ == self.text(),
    {
        let mut text = String::new();
        text.append("SymbolicGrammar { ");
        assert(text@ =~= "SymbolicGrammar { "@);
        text.append("non_terminals: [");
        let non_terminals = numbers_to_texts(self.non_terminal_count, false);
        text.append(join(&non_terminals, ", ").as_str());
        text.append("], ");
        text.append("tokens: [");
        let tokens = numbers_to_texts(self.token_count, true);
        text.append(join(&tokens, ", ").as_str());
        text.append("], ");
        text.append("start_symbol: ");
        text.append(decimal(self.start_symbol).as_str());
        text.append(", ");
        text.append("productions: [");
        let mut productions: Vec<String> = Vec::new();
        let mut p: usize = 0;
        while p < self.productions.len()
            invariant
                p <= self.productions@.len(),
                productions@.len() == p,
                forall|q: int|
                    0 <= q < p ==> (#[trigger] productions@[q])@ == production_text(
                        self.productions@[q],
                    ),
            decreases self.productions@.len() - p,
        {
            productions.push(self.productions[p].to_text());
            p += 1;
        }
        assert(views(productions@) =~= self.production_texts());
        text.append(join(&productions, ", ").as_str());
        text.append("] }");
        assert(text@ =~= self.text());
        text
    }
}

/// The texts of the terminals of `tokens` below `upto`, in increasing
/// order, each between backticks.
pub open spec fn token_texts(tokens: Set<usize>, upto: nat) -> Seq<Seq<char>>
    decreases upto,
{
    if upto == 0 {
        Seq::empty()
    } else if tokens.contains((upto - 1) as usize) {
        token_texts(tokens, (upto - 1) as nat).push("`"@ + decimal_text((upto - 1) as nat) + "`"@)
    } else {
        token_texts(tokens, (upto - 1) as nat)
    }
}

/// The texts of the members of a lookahead: the terminals in increasing
/// order, then `$` if the end of input may follow.
pub open spec fn member_texts(tokens: Set<usize>, eof: bool, capacity: nat) -> Seq<Seq<char>> {
    if eof {
        token_texts(tokens, capacity).push("$"@)
    } else {
        token_texts(tokens, capacity)
    }
}

/// The text of a lookahead: its members between braces.
pub open spec fn lookahead_text(tokens: Set<usize>, eof: bool, capacity: nat) -> Seq<char> {
    "{"@ + joined(
        member_texts(tokens, eof, capacity),
        ", "@,
        member_texts(tokens, eof, capacity).len(),
    ) + "}"@
}

impl LookAhead {
    pub open spec fn text(&self) -> Seq<char> {
        lookahead_text(self.tokens@, self.can_eof_follow, self.tokens.capacity())
    }

    pub fn to_text(&self) -> (text: String)
        ensures
            text@ == self.text(),
    {
        let mut members: Vec<String> = Vec::new();
        let capacity = self.tokens.size();
        let mut token: usize = 0;
        while token < capacity
            invariant
                token <= capacity,
                capacity == self.tokens.capacity(),
                views(members@) == token_texts(self.tokens@, token as nat),
            decreases capacity - token,
        {
            if self.tokens.contains(token) {
                let ghost before = members@;
                let mut text = String::new();
                text.append("`");
                text.append(decimal(token).as_str());
                text.append("`");
                assert(text@ =~= "`"@ + decimal_text(token as nat) + "`"@);
                members.push(text);
                assert(views(members@) =~= views(before).push(text@));
            }
            token += 1;
        }
        if self.can_eof_follow {
            let ghost before = members@;
            let mut text = String::new();
            text.append("$");
            assert(text@ =~= "$"@);
            members.push(text);
            assert(views(members@) =~= views(before).push(text@));
        }
        let mut text = String::new();
        text.append("{");
        text.append(join(&members, ", ").as_str());
        text.append("}");
        assert(text@ =~= self.text());
        text
    }
}

/// The numbers below `count`, each in the middle of five columns;
/// terminals stand between backticks.
pub open spec fn numbers_text(count: nat, ticks: bool) -> Seq<char>
    decreases count,
{
    if count == 0 {
        Seq::empty()
    } else {
        numbers_text((count - 1) as nat, ticks) + centered(
            number_texts(count, ticks)[count - 1],
        )
    }
}

/// The text of a cell that holds a state: the state in the middle of five
/// columns, or five spaces.
pub open spec fn target_text(target: Option<usize>) -> Seq<char> {
    match target {
        Some(state) => centered(decimal_text(state as nat)),
        None => spaces(5),
    }
}

/// The texts of the first `upto` cells of `row`.
pub open spec fn targets_text(row: Seq<Option<usize>>, upto: nat) -> Seq<char>
    decreases upto,
{
    if upto == 0 {
        Seq::empty()
    } else {
        targets_text(row, (upto - 1) as nat) + target_text(row[upto - 1])
    }
}

/// The text of a cell of the action table in the row of `state`: `S` and
/// the state of a shift, `R` and the state of the row for a reduction, `Acc`
/// for acceptance, each in the middle of five columns, or five spaces.
pub open spec fn action_text(state: nat, cell: Option<Action>) -> Seq<char> {
    match cell {
        Some(Action::Shift(target)) => centered("S"@ + decimal_text(target as nat)),
        Some(Action::Reduce(_)) => centered("R"@ + decimal_text(state)),
        Some(Action::Accept) => centered("Acc"@),
        None => spaces(5),
    }
}

/// The texts of the first `upto` cells of `row`, the row of `state`.
pub open spec fn actions_text(state: nat, row: Seq<Option<Action>>, upto: nat) -> Seq<char>
    decreases upto,
{
    if upto == 0 {
        Seq::empty()
    } else {
        actions_text(state, row, (upto - 1) as nat) + action_text(state, row[upto - 1])
    }
}

/// The numbers below `count` as a row of columns.
fn numbers_row(count: usize, ticks: bool) -> (text: String)
    ensures
        text@ == numbers_text(count as nat, ticks),
{
    let mut text = String::new();
    let mut i: usize = 0;
    while i < count
        invariant
            i <= count,
            text@ == numbers_text(i as nat, ticks),
        decreases count - i,
    {
        let mut number = String::new();
        if ticks {
            number.append("`");
            number.append(decimal(i).as_str());
            number.append("`");
            assert(number@ =~= "`"@ + decimal_text(i as nat) + "`"@);
        } else {
            number.append(decimal(i).as_str());
            assert(number@ =~= decimal_text(i as nat));
        }
        assert(number@ == number_texts((i + 1) as nat, ticks)[i as int]);
        text.append(center(number.as_str()).as_str());
        i += 1;
    }
    text
}

/// The cells of `row` as columns.
fn targets_row(row: &Vec<Option<usize>>) -> (text: String)
    ensures
        text@ == targets_text(row@, row@.len()),
{
    let mut text = String::new();
    let mut i: usize = 0;
    while i < row.len()
        invariant
            i <= row@.len(),
            text@ == targets_text(row@, i as nat),
        decreases row@.len() - i,
    {
        match row[i] {
            Some(state) => {
                text.append(center(decimal(state).as_str()).as_str());
            },
            None => {
                text.append(blank(5).as_str());
            },
        }
        i += 1;
    }
    text
}

impl ActionTable {
    /// The texts of the first `upto` rows, each on a line of its own: the
    /// state, then its cells.
    pub open spec fn rows_text(&self, upto: nat) -> Seq<char>
        decreases upto,
    {
        if upto == 0 {
            Seq::empty()
        } else {
            self.rows_text((upto - 1) as nat) + centered(decimal_text((upto - 1) as nat))
                + actions_text(
                (upto - 1) as nat,
                self.table@[upto - 1]@,
                self.table@[upto - 1]@.len(),
            ) + "\n"@
        }
    }

    /// The text of the table: a line that heads the columns with the
    /// terminals and `$`, then the rows.
    pub open spec fn text(&self) -> Seq<char> {
        spaces(5) + numbers_text(self.tokens_count as nat, false) + centered("$"@) + "\n"@
            + self.rows_text(self.table@.len())
    }

    pub fn to_text(&self) -> (text: String)
        ensures
            text@ == self.text(),
    {
        let mut text = blank(5);
        text.append(numbers_row(self.tokens_count, false).as_str());
        text.append(center("$").as_str());
        text.append("\n");
        let ghost head = text@;
        let mut state: usize = 0;
        while state < self.table.len()
            invariant
                state <= self.table@.len(),
                text@ == head + self.rows_text(state as nat),
            decreases self.table@.len() - state,
        {
            let ghost before = text@;
            let mut line = center(decimal(state).as_str());
            let row = &self.table[state];
            let mut i: usize = 0;
            while i < row.len()
                invariant
                    i <= row@.len(),
                    line@ == centered(decimal_text(state as nat)) + actions_text(
                        state as nat,
                        row@,
                        i as nat,
                    ),
                decreases row@.len() - i,
            {
                let ghost line_before = line@;
                match row[i] {
                    Some(Action::Shift(target)) => {
                        let mut cell = String::new();
                        cell.append("S");
                        cell.append(decimal(target).as_str());
                        assert(cell@ =~= "S"@ + decimal_text(target as nat));
                        line.append(center(cell.as_str()).as_str());
                    },
                    Some(Action::Reduce(_)) => {
                        let mut cell = String::new();
                        cell.append("R");
                        cell.append(decimal(state).as_str());
                        assert(cell@ =~= "R"@ + decimal_text(state as nat));
                        line.append(center(cell.as_str()).as_str());
                    },
                    Some(Action::Accept) => {
                        line.append(center("Acc").as_str());
                    },
                    None => {
                        line.append(blank(5).as_str());
                    },
                }
                assert(line@ =~= centered(decimal_text(state as nat)) + actions_text(
                    state as nat,
                    row@,
                    (i + 1) as nat,
                ));
                i += 1;
            }
            line.append("\n");
            text.append(line.as_str());
            assert(text@ =~= head + self.rows_text((state + 1) as nat));
            state += 1;
        }
        text
    }
}

impl GoToTable {
    /// The texts of the first `upto` rows, each on a line of its own: the
    /// state, then its cells.
    pub open spec fn rows_text(&self, upto: nat) -> Seq<char>
        decreases upto,
    {
        if upto == 0 {
            Seq::empty()
        } else {
            self.rows_text((upto - 1) as nat) + centered(decimal_text((upto - 1) as nat))
                + targets_text(self.table@[upto - 1]@, self.table@[upto - 1]@.len()) + "\n"@
        }
    }

    /// The text of the table: a line that heads the columns with the
    /// non-terminals, then the rows.
    pub open spec fn text(&self) -> Seq<char> {
        spaces(5) + numbers_text(self.non_terminals_count as nat, false) + "\n"@ + self.rows_text(
            self.table@.len(),
        )
    }

    pub fn to_text(&self) -> (text: String)
        ensures
            text@ == self.text(),
    {
        let mut text = blank(5);
        text.append(numbers_row(self.non_terminals_count, false).as_str());
        text.append("\n");
        let ghost head = text@;
        let mut state: usize = 0;
        while state < self.table.len()
            invariant
                state <= self.table@.len(),
                text@ == head + self.rows_text(state as nat),
            decreases self.table@.len() - state,
        {
            let mut line = center(decimal(state).as_str());
            line.append(targets_row(&self.table[state]).as_str());
            line.append("\n");
            text.append(line.as_str());
            assert(text@ =~= head + self.rows_text((state + 1) as nat));
            state += 1;
        }
        text
    }
}

impl TransitionTables {
    /// The texts of the first `upto` states, each on a line of its own: the
    /// state, its transitions over non-terminals, and those over terminals.
    pub open spec fn rows_text(&self, upto: nat) -> Seq<char>
        decreases upto,
    {
        if upto == 0 {
            Seq::empty()
        } else {
            self.rows_text((upto - 1) as nat) + centered(decimal_text((upto - 1) as nat))
                + targets_text(
                self.non_terminal_table@[upto - 1]@,
                self.non_terminal_table@[upto - 1]@.len(),
            ) + targets_text(self.token_table@[upto - 1]@, self.token_table@[upto - 1]@.len())
                + "\n"@
        }
    }

    /// The number of states that both tables have a row for.
    pub open spec fn height(&self) -> nat {
        if self.token_table@.len() <= self.non_terminal_table@.len() {
            self.token_table@.len()
        } else {
            self.non_terminal_table@.len()
        }
    }

    /// The text of the tables: a title, a line that heads the columns with
    /// the non-terminals and the terminals of the first row, then the rows.
    pub open spec fn text(&self) -> Seq<char> {
        "TransitionTables:\n"@ + spaces(5) + numbers_text(
            self.non_terminal_table@[0]@.len(),
            false,
        ) + numbers_text(self.token_table@[0]@.len(), true) + "\n"@ + self.rows_text(
            self.height(),
        )
    }

    pub fn to_text(&self) -> (text: String)
        requires
            self.token_table@.len() > 0,
            self.non_terminal_table@.len() > 0,
        ensures
            text@ == self.text(),
    {
        let mut text = String::new();
        text.append("TransitionTables:\n");
        assert(text@ =~= "TransitionTables:\n"@);
        text.append(blank(5).as_str());
        text.append(numbers_row(self.non_terminal_table[0].len(), false).as_str());
        text.append(numbers_row(self.token_table[0].len(), true).as_str());
        text.append("\n");
        let ghost head = text@;
        let mut state: usize = 0;
        while state < self.token_table.len() && state < self.non_terminal_table.len()
            invariant
                state <= self.height(),
                text@ == head + self.rows_text(state as nat),
            decreases self.height() - state,
        {
            let mut line = center(decimal(state).as_str());
            line.append(targets_row(&self.non_terminal_table[state]).as_str());
            line.append(targets_row(&self.token_table[state]).as_str());
            line.append("\n");
            text.append(line.as_str());
            assert(text@ =~= head + self.rows_text((state + 1) as nat));
            state += 1;
        }
        text
    }
}

/// The text of an item: the head of its production, the body with a dot
/// where the marker stands, and the lookahead.
pub open spec fn item_text(
    grammar: &SymbolicGrammar,
    graph: Seq<NodeView>,
    item: LalrItem,
) -> Seq<char> {
    let production = grammar.production_spec(item.production_id).unwrap();
    let before = production.body@.subrange(0, item.marker_position as int);
    let after = production.body@.subrange(
        item.marker_position as int,
        production.body@.len() as int,
    );
    decimal_text(production.head as nat) + " -> "@ + joined(
        symbol_texts(before),
        " "@,
        before.len(),
    ) + "·"@ + joined(symbol_texts(after), " "@, after.len()) + ", "@ + lookahead_text(
        resolved_tokens(graph, item.lookahead_node.0 as int),
        resolved_eof(graph, item.lookahead_node.0 as int),
        grammar.token_count as nat,
    )
}

/// The texts of `symbols`, one by one.
fn slice_to_texts(symbols: &[SymbolicSymbol]) -> (texts: Vec<String>)
    ensures
        views(texts@) == symbol_texts(symbols@),
        texts@.len() == symbols@.len(),
{
    let mut texts: Vec<String> = Vec::new();
    let mut i: usize = 0;
    while i < symbols.len()
        invariant
            i <= symbols@.len(),
            texts@.len() == i,
            forall|j: int| 0 <= j < i ==> (#[trigger] texts@[j])@ == symbol_text(symbols@[j]),
        decreases symbols@.len() - i,
    {
        texts.push(symbols[i].to_text());
        i += 1;
    }
    assert(views(texts@) =~= symbol_texts(symbols@));
    texts
}

impl LalrAutomaton {
    /// The texts of the items of `items`.
    pub open spec fn item_texts(&self, items: Seq<LalrItem>) -> Seq<Seq<char>> {
        Seq::new(items.len(), |i: int| item_text(&self.grammar, self.graph@, items[i]))
    }

    /// The texts of the first `upto` states, each on a line of its own: the
    /// state, then the items of its kernel between braces.
    pub open spec fn states_text(&self, upto: nat) -> Seq<char>
        decreases upto,
    {
        if upto == 0 {
            Seq::empty()
        } else {
            self.states_text((upto - 1) as nat) + decimal_text((upto - 1) as nat) + ": {"@
                + joined(
                self.item_texts(self.states@[upto - 1].kernel@),
                ", "@,
                self.states@[upto - 1].kernel@.len(),
            ) + "}\n"@
        }
    }

    /// The text of the automaton: a title, the states, and the transitions.
    pub open spec fn text(&self) -> Seq<char> {
        "SlrAutomaton:\n"@ + "States:\n"@ + self.states_text(self.states@.len())
            + self.transitions.text()
    }

    fn item_to_text(&self, item: &LalrItem) -> (text: String)
        requires
            self.grammar.wf(),
            self.graph.wf(),
            self.graph.token_count == self.grammar.token_count,
            item.core_item().valid(&self.grammar),
            self.graph.contains_node(item.lookahead_node),
        ensures
            text@ == item_text(&self.grammar, self.graph@, *item),
    {
        let production = self.grammar.get_production(item.production_id).unwrap();
        let before = slice_subrange(production.body.as_slice(), 0, item.marker_position);
        let after = slice_subrange(
            production.body.as_slice(),
            item.marker_position,
            production.body.len(),
        );
        let mut text = decimal(production.head);
        text.append(" -> ");
        text.append(join(&slice_to_texts(before), " ").as_str());
        text.append("·");
        text.append(join(&slice_to_texts(after), " ").as_str());
        text.append(", ");
        text.append(item.lookahead_node.compute_lookahead(&self.graph).to_text().as_str());
        text
    }

    pub fn to_text(&self) -> (text: String)
        requires
            self.wf(),
        ensures
            text@ == self.text(),
    {
        let mut text = String::new();
        text.append("SlrAutomaton:\n");
        assert(text@ =~= "SlrAutomaton:\n"@);
        text.append("States:\n");
        let ghost head = text@;
        let mut state: usize = 0;
        while state < self.states.len()
            invariant
                state <= self.states@.len(),
                self.wf(),
                text@ == head + self.states_text(state as nat),
            decreases self.states@.len() - state,
        {
            let kernel = &self.states[state].kernel;
            let mut items: Vec<String> = Vec::new();
            let mut i: usize = 0;
            while i < kernel.len()
                invariant
                    i <= kernel@.len(),
                    self.wf(),
                    items_ok(kernel@, &self.grammar, &self.graph),
                    items@.len() == i,
                    forall|j: int|
                        0 <= j < i ==> (#[trigger] items@[j])@ == item_text(
                            &self.grammar,
                            self.graph@,
                            kernel@[j],
                        ),
                decreases kernel@.len() - i,
            {
                items.push(self.item_to_text(&kernel[i]));
                i += 1;
            }
            assert(views(items@) =~= self.item_texts(kernel@));
            let mut line = decimal(state);
            line.append(": {");
            line.append(join(&items, ", ").as_str());
            line.append("}\n");
            text.append(line.as_str());
            assert(text@ =~= head + self.states_text((state + 1) as nat));
            state += 1;
        }
        text.append(self.transitions.to_text().as_str());
        assert(text@ =~= self.text());
        text
    }
}

impl Production {
    /// The text of the production: its name, its head, and its body in
    /// parentheses.
    pub open spec fn text(&self) -> Seq<char> {
        self.name@ + ": "@ + self.head@ + " -> ("@ + joined(
            views(self.body@),
            ", "@,
            self.body@.len(),
        ) + ")"@
    }

    pub fn to_text(&self) -> (text: String)
        ensures
            text@ == self.text(),
    {
        let mut text = String::new();
        text.append(self.name.as_str());
        assert(text@ =~= self.name@);
        text.append(": ");
        text.append(self.head.as_str());
        text.append(" -> (");
        text.append(join(&self.body, ", ").as_str());
        text.append(")");
        text
    }
}

impl<NonTerminal: Display, Token: Display> Symbol<NonTerminal, Token> {
    /// `text` is the text of the symbol: the kind of the symbol, and in
    /// parentheses a text that the payload shows itself as.
    pub open spec fn shown_as(&self, text: Seq<char>) -> bool {
        match self {
            Symbol::NonTerminal(non_terminal) => exists|payload: String|
                vstd::string::to_string_from_display_ensures(non_terminal, payload) && text
                    == "NonTerminal("@ + #[trigger] payload@ + ")"@,
            Symbol::Token(token) => exists|payload: String|
                vstd::string::to_string_from_display_ensures(token, payload) && text
                    == "Token("@ + #[trigger] payload@ + ")"@,
        }
    }

    pub fn to_text(&self) -> (text: String)
        ensures
            self.shown_as(text@),
    {
        let mut text = String::new();
        match self {
            Symbol::NonTerminal(non_terminal) => {
                let payload = non_terminal.to_string();
                text.append("NonTerminal(");
                assert(text@ =~= "NonTerminal("@);
                text.append(payload.as_str());
                text.append(")");
                assert(text@ == "NonTerminal("@ + payload@ + ")"@);
            },
            Symbol::Token(token) => {
                let payload = token.to_string();
                text.append("Token(");
                assert(text@ =~= "Token("@);
                text.append(payload.as_str());
                text.append(")");
                assert(text@ == "Token("@ + payload@ + ")"@);
            },
        }
        text
    }
}

impl<
    NonTerminal: Into<StartSymbol> + Display,
    Token: Display,
    StartSymbol,
    Prod: Reduce<NonTerminal, Token, Ctx>,
    Tab: Tables<NonTerminal, Token, Prod>,
    Ctx,
> ParseError<NonTerminal, Token, StartSymbol, Prod, Tab, Ctx> {
    /// `text` says after which symbols the parse failed and that any of the
    /// terminals named `expected` was expected.
    pub open spec fn says(&self, expected: Seq<Seq<char>>, text: Seq<char>) -> bool {
        exists|symbols: Seq<String>|
            symbols.len() == self.parser.stacks.symbol_stack@.len() && (forall|i: int|
                0 <= i < symbols.len() ==> self.parser.stacks.symbol_stack@[i].shown_as(
                    (#[trigger] symbols[i])@,
                )) && text == "ParseError: after ["@ + joined(
                views(symbols),
                ", "@,
                symbols.len(),
            ) + "] expected any of ["@ + joined(expected, ", "@, expected.len()) + "]"@
    }

    /// The message of the error: the symbols on the stack, and the names
    /// of the terminals that `tables` has an action for in the state on top.
    pub fn to_text(&self, tables: &Tab) -> (text: String)
        requires
            self.parser.stacks.state_stack@.len() > 0,
        ensures
            self.says(tables.names_in(self.parser.stacks.state_stack@.last()), text@),
    {
        let mut symbols: Vec<String> = Vec::new();
        let mut i: usize = 0;
        while i < self.parser.stacks.symbol_stack.len()
            invariant
                i <= self.parser.stacks.symbol_stack@.len(),
                symbols@.len() == i,
                forall|j: int|
                    0 <= j < i ==> self.parser.stacks.symbol_stack@[j].shown_as(
                        (#[trigger] symbols@[j])@,
                    ),
            decreases self.parser.stacks.symbol_stack@.len() - i,
        {
            symbols.push(self.parser.stacks.symbol_stack[i].to_text());
            i += 1;
        }
        let expected = tables.tokens_in_state(self.parser.stacks.current_state());
        let mut text = String::new();
        text.append("ParseError: after [");
        assert(text@ =~= "ParseError: after ["@);
        text.append(join(&symbols, ", ").as_str());
        text.append("] expected any of [");
        text.append(join(&expected, ", ").as_str());
        text.append("]");
        proof {
            let names = tables.names_in(self.parser.stacks.state_stack@.last());
            assert(views(expected@) =~= names);
            assert(text@ == "ParseError: after ["@ + joined(
                views(symbols@),
                ", "@,
                symbols@.len(),
            ) + "] expected any of ["@ + joined(names, ", "@, names.len()) + "]"@);
        }
        text
    }
}

} // verus!
