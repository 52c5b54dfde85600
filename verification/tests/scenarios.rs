use lalr_sdd::lalr::automaton::LalrAutomaton;
use lalr_sdd::parser::generated::{Indexed, LalrTables};
use lalr_sdd::parser::results::{ParseEofError, ParseOneError, ParseTokenError};
use lalr_sdd::parser::traits::{Reduce, Tables};
use lalr_sdd::parser::{Parser, Symbol};
use lalr_sdd::parsing::action::Action;
use lalr_sdd::parsing::tables::{ActionTable, Conflict, ConflictKind, GoToTable};
use lalr_sdd::symbolic_grammar::{SymbolicGrammar, SymbolicSymbol};

fn t(id: usize) -> SymbolicSymbol {
    SymbolicSymbol::Token(id)
}

fn n(id: usize) -> SymbolicSymbol {
    SymbolicSymbol::NonTerminal(id)
}

fn build(
    token_count: usize,
    non_terminal_count: usize,
    start: usize,
    rules: Vec<(usize, Vec<SymbolicSymbol>)>,
) -> (ActionTable, GoToTable, Vec<Conflict>) {
    let grammar = match SymbolicGrammar::new(token_count, non_terminal_count, start, rules) {
        Ok(grammar) => grammar,
        Err(error) => panic!("grammar rejected: {:?}", error),
    };
    let automaton = LalrAutomaton::compute(grammar);
    automaton.generate_tables()
}

fn names(names: &[&str]) -> Vec<String> {
    names.iter().map(|name| name.to_string()).collect()
}

// ---------------------------------------------------------------- balanced

#[derive(Debug, Clone, PartialEq)]
enum BalancedToken {
    A,
    B,
}

impl Indexed for BalancedToken {
    fn index(&self) -> usize {
        self.id()
    }

    fn id(&self) -> usize {
        match self {
            BalancedToken::A => 0,
            BalancedToken::B => 1,
        }
    }
}

#[derive(Debug, PartialEq)]
struct Nested {
    count: usize,
}

#[derive(Debug, PartialEq)]
enum BalancedNonTerminal {
    S(Nested),
}

impl Indexed for BalancedNonTerminal {
    fn index(&self) -> usize {
        self.id()
    }

    fn id(&self) -> usize {
        0
    }
}

impl From<BalancedNonTerminal> for Nested {
    fn from(value: BalancedNonTerminal) -> Nested {
        match value {
            BalancedNonTerminal::S(nested) => nested,
        }
    }
}

#[derive(Debug, Clone, Copy)]
enum BalancedProduction {
    Wrap,
    Empty,
}

impl Reduce<BalancedNonTerminal, BalancedToken, ()> for BalancedProduction {
    fn body_len(&self) -> usize {
        self.arity()
    }

    fn reduced(
        &self,
        _ctx: (),
        _body: vstd::seq::Seq<Symbol<BalancedNonTerminal, BalancedToken>>,
    ) -> ((), BalancedNonTerminal) {
        unreachable!()
    }

    fn arity(&self) -> usize {
        match self {
            BalancedProduction::Wrap => 3,
            BalancedProduction::Empty => 0,
        }
    }

    fn reduce(
        &self,
        _ctx: &mut (),
        mut body: Vec<Symbol<BalancedNonTerminal, BalancedToken>>,
    ) -> BalancedNonTerminal {
        match self {
            BalancedProduction::Wrap => {
                assert!(matches!(body.pop(), Some(Symbol::Token(BalancedToken::B))));
                let inner = match body.pop() {
                    Some(Symbol::NonTerminal(BalancedNonTerminal::S(inner))) => inner,
                    other => panic!("unexpected body: {:?}", other),
                };
                assert!(matches!(body.pop(), Some(Symbol::Token(BalancedToken::A))));
                BalancedNonTerminal::S(Nested { count: inner.count + 1 })
            }
            BalancedProduction::Empty => BalancedNonTerminal::S(Nested { count: 0 }),
        }
    }
}

type BalancedParser = Parser<
    BalancedNonTerminal,
    BalancedToken,
    Nested,
    BalancedProduction,
    LalrTables<BalancedProduction>,
    (),
>;

fn balanced_tables() -> LalrTables<BalancedProduction> {
    let (actions, gotos, conflicts) = build(2, 1, 0, vec![(0, vec![t(0), n(0), t(1)]), (0, vec![])]);
    assert!(conflicts.is_empty());
    LalrTables::new(
        actions,
        gotos,
        vec![BalancedProduction::Wrap, BalancedProduction::Empty],
        names(&["a", "b"]),
    )
}

fn balanced_word(word: &str) -> Vec<BalancedToken> {
    word.chars()
        .map(|c| if c == 'a' { BalancedToken::A } else { BalancedToken::B })
        .collect()
}

#[test]
fn balanced_word_carries_its_depth() {
    let tables = balanced_tables();
    let parsed = BalancedParser::parse(&tables, balanced_word("aaabbb"));
    match parsed {
        Ok(nested) => assert_eq!(nested, Nested { count: 3 }),
        Err(error) => panic!("parse failed: {:?}", error.parse_one_error),
    }
}

#[test]
fn empty_word_is_balanced() {
    let tables = balanced_tables();
    let parsed = BalancedParser::parse(&tables, Vec::new());
    match parsed {
        Ok(nested) => assert_eq!(nested, Nested { count: 0 }),
        Err(error) => panic!("parse failed: {:?}", error.parse_one_error),
    }
}

#[test]
fn unbalanced_word_ends_too_early() {
    let tables = balanced_tables();
    let parsed = BalancedParser::parse(&tables, balanced_word("aab"));
    match parsed {
        Ok(nested) => panic!("parsed: {:?}", nested),
        Err(error) => {
            assert!(matches!(
                error.parse_one_error,
                ParseOneError::ParseEofError(ParseEofError::ActionNotFound)
            ));
        }
    }
}

// ---------------------------------------------------------------- addition

#[derive(Debug, Clone, PartialEq)]
enum SumToken {
    Number(u64),
    Plus,
}

impl Indexed for SumToken {
    fn index(&self) -> usize {
        self.id()
    }

    fn id(&self) -> usize {
        match self {
            SumToken::Number(_) => 0,
            SumToken::Plus => 1,
        }
    }
}

#[derive(Debug, PartialEq)]
enum SumNonTerminal {
    E(u64),
}

impl Indexed for SumNonTerminal {
    fn index(&self) -> usize {
        self.id()
    }

    fn id(&self) -> usize {
        0
    }
}

struct Total(u64);

impl From<SumNonTerminal> for Total {
    fn from(value: SumNonTerminal) -> Total {
        match value {
            SumNonTerminal::E(total) => Total(total),
        }
    }
}

#[derive(Debug, Clone, Copy)]
enum SumProduction {
    Add,
    Number,
}

impl Reduce<SumNonTerminal, SumToken, Vec<String>> for SumProduction {
    fn body_len(&self) -> usize {
        self.arity()
    }

    fn reduced(
        &self,
        _ctx: Vec<String>,
        _body: vstd::seq::Seq<Symbol<SumNonTerminal, SumToken>>,
    ) -> (Vec<String>, SumNonTerminal) {
        unreachable!()
    }

    fn arity(&self) -> usize {
        match self {
            SumProduction::Add => 3,
            SumProduction::Number => 1,
        }
    }

    fn reduce(
        &self,
        ctx: &mut Vec<String>,
        body: Vec<Symbol<SumNonTerminal, SumToken>>,
    ) -> SumNonTerminal {
        let mut body = body.into_iter();
        match self {
            SumProduction::Add => {
                let left = match body.next() {
                    Some(Symbol::NonTerminal(SumNonTerminal::E(left))) => left,
                    other => panic!("unexpected body: {:?}", other),
                };
                assert!(matches!(body.next(), Some(Symbol::Token(SumToken::Plus))));
                let right = match body.next() {
                    Some(Symbol::Token(SumToken::Number(right))) => right,
                    other => panic!("unexpected body: {:?}", other),
                };
                ctx.push(format!("{} + {}", left, right));
                SumNonTerminal::E(left + right)
            }
            SumProduction::Number => match body.next() {
                Some(Symbol::Token(SumToken::Number(number))) => SumNonTerminal::E(number),
                other => panic!("unexpected body: {:?}", other),
            },
        }
    }
}

type SumParser =
    Parser<SumNonTerminal, SumToken, Total, SumProduction, LalrTables<SumProduction>, Vec<String>>;

fn sum_tables() -> LalrTables<SumProduction> {
    let (actions, gotos, conflicts) = build(2, 1, 0, vec![(0, vec![n(0), t(1), t(0)]), (0, vec![t(0)])]);
    assert!(conflicts.is_empty());
    LalrTables::new(
        actions,
        gotos,
        vec![SumProduction::Add, SumProduction::Number],
        names(&["n", "+"]),
    )
}

#[test]
fn addition_reduces_from_the_left() {
    let tables = sum_tables();
    let tokens = vec![
        SumToken::Number(1),
        SumToken::Plus,
        SumToken::Number(2),
        SumToken::Plus,
        SumToken::Number(3),
    ];
    let mut parser = SumParser::new(Vec::new());
    for token in tokens {
        let mut token = token;
        loop {
            match parser.parse_token(&tables, token) {
                Ok(lalr_sdd::parser::results::ParseToken::Shifted) => break,
                Ok(lalr_sdd::parser::results::ParseToken::Reduced { leftover_token }) => {
                    token = leftover_token
                }
                Err(_) => panic!("unexpected parse error"),
            }
        }
    }
    loop {
        match parser.parse_eof(&tables) {
            Ok(lalr_sdd::parser::results::ParseEof::Accepted) => break,
            Ok(lalr_sdd::parser::results::ParseEof::Reduced) => {}
            Err(_) => panic!("unexpected parse error"),
        }
    }
    assert_eq!(parser.ctx, vec!["1 + 2".to_string(), "3 + 3".to_string()]);
    assert_eq!(parser.stacks.symbol_stack.len(), 1);
    assert_eq!(parser.stacks.state_stack.len(), 2);
    assert!(matches!(
        parser.stacks.symbol_stack[0],
        Symbol::NonTerminal(SumNonTerminal::E(6))
    ));
}

#[test]
fn addition_gives_the_sum() {
    let tables = sum_tables();
    let tokens = vec![
        SumToken::Number(1),
        SumToken::Plus,
        SumToken::Number(2),
        SumToken::Plus,
        SumToken::Number(3),
    ];
    match SumParser::parse_with_ctx(&tables, Vec::new(), tokens) {
        Ok(total) => assert_eq!(total.0, 6),
        Err(error) => panic!("parse failed: {:?}", error.parse_one_error),
    }
}

#[test]
fn leading_plus_is_unexpected() {
    let tables = sum_tables();
    let tokens = vec![SumToken::Plus, SumToken::Number(1)];
    match SumParser::parse_with_ctx(&tables, Vec::new(), tokens) {
        Ok(total) => panic!("parsed: {}", total.0),
        Err(error) => {
            assert_eq!(error.state(), Some(0));
            match &error.parse_one_error {
                ParseOneError::ParseTokenError(ParseTokenError::ActionNotFound { leftover_token }) => {
                    assert_eq!(*leftover_token, SumToken::Plus)
                }
                other => panic!("unexpected error: {:?}", other),
            }
            let expected = <LalrTables<SumProduction> as Tables<
                SumNonTerminal,
                SumToken,
                SumProduction,
            >>::tokens_in_state(&tables, 0);
            assert!(expected.contains(&"n".to_string()));
            assert!(!expected.contains(&"+".to_string()));
        }
    }
}

// -------------------------------------------------------------- arithmetic

#[derive(Debug, Clone, PartialEq)]
enum ExprToken {
    Number(u64),
    Plus,
    Times,
    Open,
    Close,
}

impl Indexed for ExprToken {
    fn index(&self) -> usize {
        self.id()
    }

    fn id(&self) -> usize {
        match self {
            ExprToken::Number(_) => 0,
            ExprToken::Plus => 1,
            ExprToken::Times => 2,
            ExprToken::Open => 3,
            ExprToken::Close => 4,
        }
    }
}

#[derive(Debug, PartialEq)]
enum ExprNonTerminal {
    E(u64),
    T(u64),
    F(u64),
}

impl ExprNonTerminal {
    fn value(&self) -> u64 {
        match self {
            ExprNonTerminal::E(v) | ExprNonTerminal::T(v) | ExprNonTerminal::F(v) => *v,
        }
    }
}

impl Indexed for ExprNonTerminal {
    fn index(&self) -> usize {
        self.id()
    }

    fn id(&self) -> usize {
        match self {
            ExprNonTerminal::E(_) => 0,
            ExprNonTerminal::T(_) => 1,
            ExprNonTerminal::F(_) => 2,
        }
    }
}

struct Value(u64);

impl From<ExprNonTerminal> for Value {
    fn from(value: ExprNonTerminal) -> Value {
        match value {
            ExprNonTerminal::E(v) => Value(v),
            other => panic!("not the start symbol: {:?}", other),
        }
    }
}

#[derive(Debug, Clone, Copy)]
enum ExprProduction {
    Add,
    Term,
    Multiply,
    Factor,
    Parenthesis,
    Number,
}

fn payload(symbol: Option<Symbol<ExprNonTerminal, ExprToken>>) -> u64 {
    match symbol {
        Some(Symbol::NonTerminal(non_terminal)) => non_terminal.value(),
        Some(Symbol::Token(ExprToken::Number(number))) => number,
        other => panic!("no payload in {:?}", other),
    }
}

impl Reduce<ExprNonTerminal, ExprToken, ()> for ExprProduction {
    fn body_len(&self) -> usize {
        self.arity()
    }

    fn reduced(
        &self,
        _ctx: (),
        _body: vstd::seq::Seq<Symbol<ExprNonTerminal, ExprToken>>,
    ) -> ((), ExprNonTerminal) {
        unreachable!()
    }

    fn arity(&self) -> usize {
        match self {
            ExprProduction::Add | ExprProduction::Multiply | ExprProduction::Parenthesis => 3,
            ExprProduction::Term | ExprProduction::Factor | ExprProduction::Number => 1,
        }
    }

    fn reduce(
        &self,
        _ctx: &mut (),
        body: Vec<Symbol<ExprNonTerminal, ExprToken>>,
    ) -> ExprNonTerminal {
        let mut body = body.into_iter();
        match self {
            ExprProduction::Add => {
                let left = payload(body.next());
                body.next();
                let right = payload(body.next());
                ExprNonTerminal::E(left + right)
            }
            ExprProduction::Term => ExprNonTerminal::E(payload(body.next())),
            ExprProduction::Multiply => {
                let left = payload(body.next());
                body.next();
                let right = payload(body.next());
                ExprNonTerminal::T(left * right)
            }
            ExprProduction::Factor => ExprNonTerminal::T(payload(body.next())),
            ExprProduction::Parenthesis => {
                body.next();
                ExprNonTerminal::F(payload(body.next()))
            }
            ExprProduction::Number => ExprNonTerminal::F(payload(body.next())),
        }
    }
}

type ExprParser =
    Parser<ExprNonTerminal, ExprToken, Value, ExprProduction, LalrTables<ExprProduction>, ()>;

fn expr_tables() -> LalrTables<ExprProduction> {
    let (actions, gotos, conflicts) = build(
        5,
        3,
        0,
        vec![
            (0, vec![n(0), t(1), n(1)]),
            (0, vec![n(1)]),
            (1, vec![n(1), t(2), n(2)]),
            (1, vec![n(2)]),
            (2, vec![t(3), n(0), t(4)]),
            (2, vec![t(0)]),
        ],
    );
    assert!(conflicts.is_empty());
    LalrTables::new(
        actions,
        gotos,
        vec![
            ExprProduction::Add,
            ExprProduction::Term,
            ExprProduction::Multiply,
            ExprProduction::Factor,
            ExprProduction::Parenthesis,
            ExprProduction::Number,
        ],
        names(&["n", "+", "*", "(", ")"]),
    )
}

#[test]
fn arithmetic_respects_both_precedences() {
    let tables = expr_tables();
    let tokens = vec![
        ExprToken::Number(5),
        ExprToken::Plus,
        ExprToken::Number(2),
        ExprToken::Times,
        ExprToken::Open,
        ExprToken::Number(3),
        ExprToken::Plus,
        ExprToken::Number(1),
        ExprToken::Close,
    ];
    match ExprParser::parse(&tables, tokens) {
        Ok(value) => assert_eq!(value.0, 13),
        Err(error) => panic!("parse failed: {:?}", error.parse_one_error),
    }
}

#[test]
fn arithmetic_multiplies_before_it_adds() {
    let tables = expr_tables();
    let tokens = vec![
        ExprToken::Number(2),
        ExprToken::Times,
        ExprToken::Number(3),
        ExprToken::Plus,
        ExprToken::Number(4),
        ExprToken::Times,
        ExprToken::Number(5),
    ];
    match ExprParser::parse(&tables, tokens) {
        Ok(value) => assert_eq!(value.0, 26),
        Err(error) => panic!("parse failed: {:?}", error.parse_one_error),
    }
}

#[test]
fn arithmetic_rejects_an_open_parenthesis() {
    let tables = expr_tables();
    let tokens = vec![ExprToken::Open, ExprToken::Number(3)];
    match ExprParser::parse(&tables, tokens) {
        Ok(value) => panic!("parsed: {}", value.0),
        Err(error) => assert!(matches!(
            error.parse_one_error,
            ParseOneError::ParseEofError(ParseEofError::ActionNotFound)
        )),
    }
}

// ------------------------------------------------------------ dangling else

#[test]
fn dangling_else_is_a_shift_reduce_conflict() {
    // tokens: if = 0, else = 1, skip = 2, b = 3; non-terminals: S = 0, B = 1
    let (actions, _gotos, conflicts) = build(
        4,
        2,
        0,
        vec![
            (0, vec![t(0), n(1), n(0)]),
            (0, vec![t(0), n(1), n(0), t(1), n(0)]),
            (0, vec![t(2)]),
            (1, vec![t(3)]),
        ],
    );
    assert_eq!(conflicts.len(), 1);
    let conflict = conflicts[0];
    assert_eq!(conflict.kind, ConflictKind::ShiftReduce);
    assert_eq!(conflict.symbol, t(1));
    assert_eq!(conflict.current, Action::Reduce(0));
    assert!(matches!(conflict.new, Action::Shift(_)));
    assert_eq!(actions.get(conflict.state, t(1)), Some(conflict.new));
}

// ---------------------------------------------------- epsilon propagation

#[test]
fn epsilon_item_reduces_under_what_follows() {
    // S -> A B, A -> epsilon, B -> b; token b = 0; non-terminals S = 0, A = 1, B = 2
    let (actions, gotos, conflicts) =
        build(1, 3, 0, vec![(0, vec![n(1), n(2)]), (1, vec![]), (2, vec![t(0)])]);
    assert!(conflicts.is_empty());
    assert_eq!(actions.get(0, t(0)), Some(Action::Reduce(1)));
    assert_eq!(actions.get(0, SymbolicSymbol::EOF), None);
    assert!(gotos.get(0, n(1)).is_some());
}
