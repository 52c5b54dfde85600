use lalr_sdd::grammar::production::Production;
use lalr_sdd::lalr::automaton::LalrAutomaton;
use lalr_sdd::lookahead::LookAhead;
use lalr_sdd::parser::generated::{Indexed, LalrTables};
use lalr_sdd::parser::traits::Reduce;
use lalr_sdd::parser::{Parser, Symbol};
use lalr_sdd::parsing::action::Action;
use lalr_sdd::parsing::tables::{ActionTable, GoToTable, TransitionTables};
use lalr_sdd::symbolic_grammar::{SymbolicGrammar, SymbolicProduction, SymbolicSymbol};
use lalr_sdd::token_set::TokenSet;

fn tk(id: usize) -> SymbolicSymbol {
    SymbolicSymbol::Token(id)
}

fn nt(id: usize) -> SymbolicSymbol {
    SymbolicSymbol::NonTerminal(id)
}

fn sum_grammar() -> SymbolicGrammar {
    match SymbolicGrammar::new(2, 1, 0, vec![(0, vec![nt(0), tk(1), tk(0)]), (0, vec![tk(0)])]) {
        Ok(grammar) => grammar,
        Err(error) => panic!("grammar rejected: {:?}", error),
    }
}

#[test]
fn symbols_are_written_by_kind() {
    assert_eq!(tk(3).to_text(), "`3`");
    assert_eq!(nt(12).to_text(), "12");
    assert_eq!(SymbolicSymbol::EOF.to_text(), "$");
    assert_eq!(tk(0).to_text(), "`0`");
    assert_eq!(nt(1005).to_text(), "1005");
}

#[test]
fn productions_are_written_with_their_bodies() {
    let grammar = sum_grammar();
    assert_eq!(grammar.productions[0].to_text(), "0: 0 -> (0, `1`, `0`)");
    assert_eq!(grammar.productions[1].to_text(), "1: 0 -> (`0`)");
    assert_eq!(
        SymbolicProduction::special_production(4).to_text(),
        "18446744073709551615: 18446744073709551615 -> (4)"
    );
    let empty = SymbolicProduction { production_id: 7, head: 2, body: Vec::new() };
    assert_eq!(empty.to_text(), "7: 2 -> ()");
    let named = Production::new(
        "add".to_string(),
        "E".to_string(),
        vec!["E".to_string(), "+".to_string(), "T".to_string()],
    );
    assert_eq!(named.to_text(), "add: E -> (E, +, T)");
}

#[test]
fn grammars_are_written_whole() {
    assert_eq!(
        sum_grammar().to_text(),
        "SymbolicGrammar { non_terminals: [0], tokens: [`0`, `1`], start_symbol: 0, \
         productions: [0: 0 -> (0, `1`, `0`), 1: 0 -> (`0`)] }"
    );
}

#[test]
fn lookaheads_are_written_in_order() {
    let mut tokens = TokenSet::new(12);
    tokens.insert(11);
    tokens.insert(1);
    tokens.insert(3);
    assert_eq!(LookAhead { tokens, can_eof_follow: true }.to_text(), "{`1`, `3`, `11`, $}");
    assert_eq!(LookAhead { tokens: TokenSet::new(2), can_eof_follow: false }.to_text(), "{}");
    assert_eq!(LookAhead { tokens: TokenSet::new(2), can_eof_follow: true }.to_text(), "{$}");
    let mut tokens = TokenSet::new(2);
    tokens.insert(0);
    assert_eq!(LookAhead { tokens, can_eof_follow: false }.to_text(), "{`0`}");
}

#[test]
fn action_tables_are_written_in_columns() {
    let mut table = ActionTable::new(2);
    table.add_state();
    table.add_state();
    table.write(0, tk(0), Action::Shift(7));
    table.write(0, SymbolicSymbol::EOF, Action::Accept);
    table.write(1, tk(1), Action::Reduce(4));
    table.write(1, tk(0), Action::Shift(12345));
    assert_eq!(
        table.to_text(),
        "       0    1    $  \n  0   S7        Acc \n  1  S12345 R1       \n"
    );
    assert_eq!(ActionTable::new(0).to_text(), "       $  \n");
}

#[test]
fn goto_tables_are_written_in_columns() {
    let mut table = GoToTable::new(3);
    table.add_state();
    table.add_state();
    table.set(0, nt(1), Some(10));
    table.set(1, nt(2), Some(100));
    assert_eq!(
        table.to_text(),
        "       0    1    2  \n  0        10       \n  1             100 \n"
    );
}

#[test]
fn transition_tables_are_written_in_columns() {
    let mut tables = TransitionTables::new();
    tables.add_transitions(vec![None, Some(1)], vec![Some(1234)]);
    tables.add_transitions(vec![Some(0), None], vec![None]);
    assert_eq!(
        tables.to_text(),
        "TransitionTables:\n       0   `0`  `1` \n  0  1234        1  \n  1         0       \n"
    );
}

#[test]
fn automata_are_written_with_their_lookaheads() {
    let automaton = LalrAutomaton::compute(sum_grammar());
    let text = automaton.to_text();
    let lines: Vec<&str> = text.lines().collect();
    assert_eq!(lines[0], "SlrAutomaton:");
    assert_eq!(lines[1], "States:");
    assert_eq!(lines[2], "0: {18446744073709551615 -> ·0, {$}}");
    assert_eq!(lines[3], "1: {0 -> `0`·, {`1`, $}}");
    assert_eq!(lines[4], "2: {18446744073709551615 -> 0·, {$}, 0 -> 0·`1` `0`, {`1`, $}}");
    assert_eq!(lines[5], "3: {0 -> 0 `1`·`0`, {`1`, $}}");
    assert_eq!(lines[6], "4: {0 -> 0 `1` `0`·, {`1`, $}}");
    assert_eq!(lines[7], "TransitionTables:");
    assert_eq!(lines[8], "       0   `0`  `1` ");
    assert_eq!(lines[9], "  0    2    1       ");
    assert_eq!(lines.len(), 14);
    assert!(text.ends_with(&automaton.transitions.to_text()));
}

#[derive(Debug, Clone, PartialEq)]
enum Word {
    Number(u8),
    Plus,
}

impl std::fmt::Display for Word {
    fn fmt(&self, f: &mut std::fmt::Formatter<'_>) -> std::fmt::Result {
        match self {
            Word::Number(number) => f.write_str(&format!("n{}", number)),
            Word::Plus => f.write_str("+"),
        }
    }
}

impl Indexed for Word {
    fn index(&self) -> usize {
        self.id()
    }

    fn id(&self) -> usize {
        match self {
            Word::Number(_) => 0,
            Word::Plus => 1,
        }
    }
}

#[derive(Debug)]
struct Sum(u8);

impl std::fmt::Display for Sum {
    fn fmt(&self, f: &mut std::fmt::Formatter<'_>) -> std::fmt::Result {
        f.write_str(&format!("sum {}", self.0))
    }
}

impl Indexed for Sum {
    fn index(&self) -> usize {
        0
    }

    fn id(&self) -> usize {
        0
    }
}

impl From<Sum> for u8 {
    fn from(sum: Sum) -> u8 {
        sum.0
    }
}

#[derive(Debug, Clone, Copy)]
enum Step {
    Add,
    First,
}

impl Reduce<Sum, Word, ()> for Step {
    fn body_len(&self) -> usize {
        self.arity()
    }

    fn reduced(&self, _ctx: (), _body: vstd::seq::Seq<Symbol<Sum, Word>>) -> ((), Sum) {
        unreachable!()
    }

    fn arity(&self) -> usize {
        match self {
            Step::Add => 3,
            Step::First => 1,
        }
    }

    fn reduce(&self, _ctx: &mut (), body: Vec<Symbol<Sum, Word>>) -> Sum {
        let mut total = 0;
        for symbol in body {
            match symbol {
                Symbol::NonTerminal(Sum(sum)) => total += sum,
                Symbol::Token(Word::Number(number)) => total += number,
                Symbol::Token(Word::Plus) => {}
            }
        }
        Sum(total)
    }
}

#[test]
fn symbols_on_the_stack_are_written_with_their_payloads() {
    let token: Symbol<Sum, Word> = Symbol::Token(Word::Number(4));
    assert_eq!(token.to_text(), "Token(n4)");
    let non_terminal: Symbol<Sum, Word> = Symbol::NonTerminal(Sum(9));
    assert_eq!(non_terminal.to_text(), "NonTerminal(sum 9)");
}

#[test]
fn parse_errors_say_what_was_expected() {
    let automaton = LalrAutomaton::compute(sum_grammar());
    let (tables, conflicts) = LalrTables::generate(
        &automaton,
        vec![Step::Add, Step::First],
        vec!["n".to_string(), "+".to_string()],
    );
    assert!(conflicts.is_empty());
    type Sums = Parser<Sum, Word, u8, Step, LalrTables<Step>, ()>;
    match Sums::parse(&tables, vec![Word::Number(1), Word::Plus, Word::Number(2), Word::Plus]) {
        Ok(total) => panic!("parsed: {}", total),
        Err(error) => assert_eq!(
            error.to_text(&tables),
            "ParseError: after [NonTerminal(sum 3), Token(+)] expected any of [n]"
        ),
    }
    match Sums::parse(&tables, vec![Word::Plus]) {
        Ok(total) => panic!("parsed: {}", total),
        Err(error) => {
            assert_eq!(error.to_text(&tables), "ParseError: after [] expected any of [n]")
        }
    }
    match Sums::parse(&tables, vec![Word::Number(1), Word::Number(2)]) {
        Ok(total) => panic!("parsed: {}", total),
        Err(error) => assert_eq!(
            error.to_text(&tables),
            "ParseError: after [Token(n1)] expected any of [+]"
        ),
    }
    match Sums::parse(&tables, vec![Word::Number(1), Word::Plus, Word::Number(2)]) {
        Ok(total) => assert_eq!(total, 3),
        Err(error) => panic!("parse failed: {}", error.to_text(&tables)),
    }
}
