use lalr_sdd::lalr::automaton::LalrAutomaton;
use lalr_sdd::parser::generated::{Indexed, LalrTables};
use lalr_sdd::parser::results::{
    LexParseError, ParseEof, ParseEofError, ParseError, ParseOneError, ParseToken,
    ParseTokenError,
};
use lalr_sdd::parser::traits::{Reduce, Tables};
use lalr_sdd::parser::{Parser, Stacks, Symbol};
use lalr_sdd::parsing::action::{Action, EofAction, TokenAction};
use lalr_sdd::symbolic_grammar::{SymbolicGrammar, SymbolicSymbol};

// A tree grammar: E -> E + T | T, T -> n | ( E )

#[derive(Debug, Clone, PartialEq)]
enum Lexeme {
    Number(u32),
    Plus,
    Open,
    Close,
}

impl Indexed for Lexeme {
    fn index(&self) -> usize {
        self.id()
    }

    fn id(&self) -> usize {
        match self {
            Lexeme::Number(_) => 0,
            Lexeme::Plus => 1,
            Lexeme::Open => 2,
            Lexeme::Close => 3,
        }
    }
}

#[derive(Debug, Clone, PartialEq)]
enum Tree {
    Leaf(u32),
    Sum(Box<Tree>, Box<Tree>),
    Group(Box<Tree>),
}

#[derive(Debug, PartialEq)]
enum Node {
    E(Tree),
    T(Tree),
}

impl Indexed for Node {
    fn index(&self) -> usize {
        self.id()
    }

    fn id(&self) -> usize {
        match self {
            Node::E(_) => 0,
            Node::T(_) => 1,
        }
    }
}

impl From<Node> for Tree {
    fn from(node: Node) -> Tree {
        match node {
            Node::E(tree) | Node::T(tree) => tree,
        }
    }
}

#[derive(Debug, Clone, Copy, PartialEq)]
enum Rule {
    Sum,
    Single,
    Leaf,
    Group,
}

fn tree_of(symbol: Option<Symbol<Node, Lexeme>>) -> Tree {
    match symbol {
        Some(Symbol::NonTerminal(Node::E(tree))) | Some(Symbol::NonTerminal(Node::T(tree))) => tree,
        Some(Symbol::Token(Lexeme::Number(number))) => Tree::Leaf(number),
        other => panic!("no tree in {:?}", other),
    }
}

impl Reduce<Node, Lexeme, usize> for Rule {
    fn body_len(&self) -> usize {
        self.arity()
    }

    fn reduced(
        &self,
        _ctx: usize,
        _body: vstd::seq::Seq<Symbol<Node, Lexeme>>,
    ) -> (usize, Node) {
        unreachable!()
    }

    fn arity(&self) -> usize {
        match self {
            Rule::Sum | Rule::Group => 3,
            Rule::Single | Rule::Leaf => 1,
        }
    }

    fn reduce(&self, ctx: &mut usize, body: Vec<Symbol<Node, Lexeme>>) -> Node {
        *ctx += 1;
        assert_eq!(body.len(), self.arity());
        let mut body = body.into_iter();
        match self {
            Rule::Sum => {
                let left = tree_of(body.next());
                assert!(matches!(body.next(), Some(Symbol::Token(Lexeme::Plus))));
                let right = tree_of(body.next());
                Node::E(Tree::Sum(Box::new(left), Box::new(right)))
            }
            Rule::Single => Node::E(tree_of(body.next())),
            Rule::Leaf => Node::T(tree_of(body.next())),
            Rule::Group => {
                assert!(matches!(body.next(), Some(Symbol::Token(Lexeme::Open))));
                let inner = tree_of(body.next());
                assert!(matches!(body.next(), Some(Symbol::Token(Lexeme::Close))));
                Node::T(Tree::Group(Box::new(inner)))
            }
        }
    }
}

type TreeParser = Parser<Node, Lexeme, Tree, Rule, LalrTables<Rule>, usize>;

fn tree_tables() -> LalrTables<Rule> {
    let t = SymbolicSymbol::Token;
    let n = SymbolicSymbol::NonTerminal;
    let grammar = match SymbolicGrammar::new(
        4,
        2,
        0,
        vec![
            (0, vec![n(0), t(1), n(1)]),
            (0, vec![n(1)]),
            (1, vec![t(0)]),
            (1, vec![t(2), n(0), t(3)]),
        ],
    ) {
        Ok(grammar) => grammar,
        Err(error) => panic!("grammar rejected: {:?}", error),
    };
    let automaton = LalrAutomaton::compute(grammar);
    let (tables, conflicts) = LalrTables::generate(
        &automaton,
        vec![Rule::Sum, Rule::Single, Rule::Leaf, Rule::Group],
        vec!["n".to_string(), "+".to_string(), "(".to_string(), ")".to_string()],
    );
    assert!(conflicts.is_empty());
    tables
}

fn emit(tree: &Tree, out: &mut Vec<Lexeme>) {
    match tree {
        Tree::Leaf(number) => out.push(Lexeme::Number(*number)),
        Tree::Sum(left, right) => {
            emit(left, out);
            out.push(Lexeme::Plus);
            emit(right, out);
        }
        Tree::Group(inner) => {
            out.push(Lexeme::Open);
            emit(inner, out);
            out.push(Lexeme::Close);
        }
    }
}

fn leaf(number: u32) -> Box<Tree> {
    Box::new(Tree::Leaf(number))
}

fn sample_trees() -> Vec<Tree> {
    vec![
        Tree::Leaf(7),
        Tree::Sum(leaf(1), leaf(2)),
        Tree::Sum(Box::new(Tree::Sum(leaf(1), leaf(2))), leaf(3)),
        Tree::Group(leaf(4)),
        Tree::Sum(
            Box::new(Tree::Group(Box::new(Tree::Sum(leaf(1), leaf(2))))),
            Box::new(Tree::Group(Box::new(Tree::Group(leaf(5))))),
        ),
    ]
}

#[test]
fn emitted_trees_parse_back() {
    let tables = tree_tables();
    for tree in sample_trees() {
        let mut tokens = Vec::new();
        emit(&tree, &mut tokens);
        match TreeParser::parse_with_ctx(&tables, 0, tokens) {
            Ok(parsed) => assert_eq!(parsed, tree),
            Err(error) => panic!("parse failed: {:?}", error.parse_one_error),
        }
    }
}

#[test]
fn repeated_parses_take_the_same_steps() {
    let tables = tree_tables();
    let mut tokens = Vec::new();
    emit(&sample_trees()[4], &mut tokens);
    let mut first = TreeParser::new(0);
    let mut second = TreeParser::new(0);
    for token in tokens {
        let mut left = token.clone();
        let mut right = token;
        loop {
            let one = first.parse_token(&tables, left);
            let other = second.parse_token(&tables, right);
            assert_eq!(first.stacks.state_stack, second.stacks.state_stack);
            assert_eq!(first.stacks.symbol_stack.len(), second.stacks.symbol_stack.len());
            assert_eq!(first.ctx, second.ctx);
            match (one, other) {
                (Ok(ParseToken::Shifted), Ok(ParseToken::Shifted)) => break,
                (
                    Ok(ParseToken::Reduced { leftover_token: a }),
                    Ok(ParseToken::Reduced { leftover_token: b }),
                ) => {
                    assert_eq!(a, b);
                    left = a;
                    right = b;
                }
                _ => panic!("the parses differ"),
            }
        }
    }
}

#[test]
fn a_reduction_pops_the_body_and_pushes_the_head() {
    let tables = tree_tables();
    let mut parser = TreeParser::new(0);
    for token in [Lexeme::Open, Lexeme::Number(1), Lexeme::Plus, Lexeme::Number(2)] {
        let mut token = token;
        loop {
            match parser.parse_token(&tables, token) {
                Ok(ParseToken::Shifted) => break,
                Ok(ParseToken::Reduced { leftover_token }) => token = leftover_token,
                Err(_) => panic!("unexpected parse error"),
            }
        }
    }
    // stack: ( E + n ; the closing parenthesis reduces n to T, then E + T to E
    assert_eq!(parser.stacks.symbol_stack.len(), 4);
    assert_eq!(parser.stacks.state_stack.len(), 5);
    let states = parser.stacks.state_stack.clone();
    match parser.parse_token(&tables, Lexeme::Close) {
        Ok(ParseToken::Reduced { leftover_token }) => assert_eq!(leftover_token, Lexeme::Close),
        _ => panic!("no reduction"),
    }
    assert_eq!(parser.stacks.symbol_stack.len(), 4);
    assert_eq!(parser.stacks.state_stack.len(), 5);
    assert_eq!(parser.stacks.state_stack[..4], states[..4]);
    assert!(matches!(parser.stacks.symbol_stack[3], Symbol::NonTerminal(Node::T(Tree::Leaf(2)))));
    let states = parser.stacks.state_stack.clone();
    match parser.parse_token(&tables, Lexeme::Close) {
        Ok(ParseToken::Reduced { leftover_token }) => assert_eq!(leftover_token, Lexeme::Close),
        _ => panic!("no reduction"),
    }
    assert_eq!(parser.stacks.symbol_stack.len(), 2);
    assert_eq!(parser.stacks.state_stack.len(), 3);
    assert_eq!(parser.stacks.state_stack[..2], states[..2]);
    assert!(matches!(parser.stacks.symbol_stack[1], Symbol::NonTerminal(Node::E(Tree::Sum(_, _)))));
    assert_eq!(parser.ctx, 4);
    assert!(matches!(parser.parse_token(&tables, Lexeme::Close), Ok(ParseToken::Shifted)));
    assert_eq!(parser.stacks.symbol_stack.len(), 3);
    assert_eq!(parser.stacks.state_stack.len(), 4);
}

#[test]
fn stacks_are_balanced_at_accept() {
    let tables = tree_tables();
    for tree in sample_trees() {
        let mut tokens = Vec::new();
        emit(&tree, &mut tokens);
        let mut parser = TreeParser::new(0);
        for token in tokens {
            let mut token = token;
            loop {
                match parser.parse_token(&tables, token) {
                    Ok(ParseToken::Shifted) => break,
                    Ok(ParseToken::Reduced { leftover_token }) => token = leftover_token,
                    Err(_) => panic!("unexpected parse error"),
                }
            }
        }
        loop {
            match parser.parse_eof(&tables) {
                Ok(ParseEof::Accepted) => break,
                Ok(ParseEof::Reduced) => {}
                Err(_) => panic!("unexpected parse error"),
            }
        }
        assert_eq!(parser.stacks.symbol_stack.len(), 1);
        assert_eq!(parser.stacks.state_stack.len(), 2);
        assert_eq!(parser.stacks.state_stack[0], 0);
        match &parser.stacks.symbol_stack[0] {
            Symbol::NonTerminal(Node::E(found)) => assert_eq!(*found, tree),
            other => panic!("not the start symbol: {:?}", other),
        }
        assert_eq!(
            Some(parser.stacks.state_stack[1]),
            tables.query_goto(0, 0)
        );
        assert_eq!(tables.query_eof(parser.stacks.state_stack[1]), Some(Action::Accept));
    }
}

#[test]
fn stacks_start_with_state_zero() {
    let mut stacks: Stacks<Node, Lexeme> = Stacks::new();
    assert_eq!(stacks.state_stack, vec![0]);
    assert!(stacks.symbol_stack.is_empty());
    assert_eq!(stacks.current_state(), 0);
    stacks.shift(4, Lexeme::Plus);
    assert_eq!(stacks.current_state(), 4);
    stacks.goto(9, Node::T(Tree::Leaf(1)));
    assert_eq!(stacks.current_state(), 9);
    assert_eq!(stacks.state_stack, vec![0, 4, 9]);
    assert!(matches!(stacks.symbol_stack[0], Symbol::Token(Lexeme::Plus)));
    assert!(matches!(stacks.symbol_stack[1], Symbol::NonTerminal(Node::T(Tree::Leaf(1)))));
}

#[test]
fn generated_tables_answer_by_id() {
    let tables = tree_tables();
    assert!(matches!(tables.query_token(0, 0), Some(Action::Shift(_))));
    assert!(matches!(tables.query_token(0, 2), Some(Action::Shift(_))));
    assert_eq!(tables.query_token(0, 1), None);
    assert_eq!(tables.query_token(0, 4), None);
    assert_eq!(tables.query_token(99, 0), None);
    assert_eq!(tables.query_eof(0), None);
    assert_eq!(tables.query_eof(99), None);
    assert!(tables.query_goto(0, 0).is_some());
    assert!(tables.query_goto(0, 1).is_some());
    assert_eq!(tables.query_goto(0, 2), None);
    assert_eq!(tables.query_goto(99, 0), None);
    assert_eq!(tables.expected_tokens(0), vec![0, 2]);
    assert_eq!(tables.names_in_state(0), vec!["n".to_string(), "(".to_string()]);
    assert_eq!(tables.names_in_state(99), Vec::<String>::new());
    let names =
        <LalrTables<Rule> as Tables<Node, Lexeme, Rule>>::tokens_in_state(&tables, 0);
    assert_eq!(names, vec!["n".to_string(), "(".to_string()]);
    let action =
        <LalrTables<Rule> as Tables<Node, Lexeme, Rule>>::query_token_table(&tables, 0, &Lexeme::Plus);
    assert!(action.is_none());
    let shifted = match tables.query_token(0, 0) {
        Some(Action::Shift(state)) => state,
        other => panic!("no shift: {:?}", other),
    };
    let action = <LalrTables<Rule> as Tables<Node, Lexeme, Rule>>::query_token_table(
        &tables,
        shifted,
        &Lexeme::Plus,
    );
    assert!(matches!(action, Some(TokenAction::Reduce(Rule::Leaf))));
    let action = <LalrTables<Rule> as Tables<Node, Lexeme, Rule>>::query_eof_table(&tables, shifted);
    assert!(matches!(action, Some(EofAction::Reduce(Rule::Leaf))));
}

#[test]
fn a_lexer_error_ends_the_parse() {
    let tables = tree_tables();
    let lexed: Vec<Result<Lexeme, String>> = vec![
        Ok(Lexeme::Number(1)),
        Ok(Lexeme::Plus),
        Err("bad character".to_string()),
        Ok(Lexeme::Number(2)),
    ];
    match TreeParser::lex_parse_with_ctx(&tables, 0, lexed) {
        Err(LexParseError::LexError(error)) => {
            assert_eq!(error.lexer_error, "bad character".to_string());
            assert_eq!(error.parser.stacks.symbol_stack.len(), 2);
            assert_eq!(error.parser.stacks.state_stack.len(), 3);
        }
        _ => panic!("no lexer error"),
    }
}

#[test]
fn a_parse_error_before_a_lexer_error_wins() {
    let tables = tree_tables();
    let lexed: Vec<Result<Lexeme, String>> =
        vec![Ok(Lexeme::Plus), Err("bad character".to_string())];
    match TreeParser::lex_parse_with_ctx(&tables, 0, lexed) {
        Err(LexParseError::ParseError(error)) => {
            assert_eq!(error.state(), Some(0));
            assert!(matches!(
                error.parse_one_error,
                ParseOneError::ParseTokenError(ParseTokenError::ActionNotFound {
                    leftover_token: Lexeme::Plus
                })
            ));
        }
        _ => panic!("no parse error"),
    }
}

#[test]
fn lexed_input_without_errors_is_parsed() {
    let tables = tree_tables();
    let lexed: Vec<Result<Lexeme, String>> =
        vec![Ok(Lexeme::Number(1)), Ok(Lexeme::Plus), Ok(Lexeme::Number(2))];
    match TreeParser::lex_parse_with_ctx(&tables, 0, lexed) {
        Ok(tree) => assert_eq!(tree, Tree::Sum(leaf(1), leaf(2))),
        _ => panic!("parse failed"),
    }
    let lexed: Vec<Result<Lexeme, String>> = vec![Ok(Lexeme::Number(1)), Ok(Lexeme::Plus)];
    match TreeParser::lex_parse_default_ctx(&tables, lexed) {
        Err(LexParseError::ParseError(error)) => assert!(matches!(
            error.parse_one_error,
            ParseOneError::ParseEofError(ParseEofError::ActionNotFound)
        )),
        _ => panic!("no parse error"),
    }
    match TreeParser::parse_default_ctx(&tables, vec![Lexeme::Number(3)]) {
        Ok(tree) => assert_eq!(tree, Tree::Leaf(3)),
        Err(_) => panic!("parse failed"),
    }
}

// Tables written by hand, to meet what generated tables never do.

struct Unit;

impl Indexed for Unit {
    fn index(&self) -> usize {
        0
    }

    fn id(&self) -> usize {
        0
    }
}

#[derive(Debug, PartialEq)]
struct Head(u8);

#[derive(Debug, Clone, Copy)]
struct Pop(usize);

impl Reduce<Head, u8, ()> for Pop {
    fn body_len(&self) -> usize {
        self.0
    }

    fn reduced(&self, _ctx: (), _body: vstd::seq::Seq<Symbol<Head, u8>>) -> ((), Head) {
        unreachable!()
    }

    fn arity(&self) -> usize {
        self.0
    }

    fn reduce(&self, _ctx: &mut (), body: Vec<Symbol<Head, u8>>) -> Head {
        Head(body.len() as u8)
    }
}

/// On token 0 reduce by an empty production, whose head has no goto; on
/// token 1 reduce by a production of two symbols; on token 2 shift; accept
/// at once at the end of input.
struct Broken;

impl Tables<Head, u8, Pop> for Broken {
    fn token_action(&self, state: usize, token: &u8) -> Option<TokenAction<Pop>> {
        self.query_token_table(state, token)
    }

    fn eof_action(&self, state: usize) -> Option<EofAction<Pop>> {
        self.query_eof_table(state)
    }

    fn goto_target(&self, state: usize, non_terminal: &Head) -> Option<usize> {
        self.query_goto_table(state, non_terminal)
    }

    fn names_in(&self, _state: usize) -> vstd::seq::Seq<vstd::seq::Seq<char>> {
        unreachable!()
    }

    fn query_token_table(&self, _state: usize, token: &u8) -> Option<TokenAction<Pop>> {
        match token {
            0 => Some(TokenAction::Reduce(Pop(0))),
            1 => Some(TokenAction::Reduce(Pop(2))),
            2 => Some(TokenAction::Shift(1)),
            3 => Some(TokenAction::Reduce(Pop(1))),
            _ => None,
        }
    }

    fn query_eof_table(&self, state: usize) -> Option<EofAction<Pop>> {
        match state {
            0 => Some(EofAction::Accept),
            1 => Some(EofAction::Reduce(Pop(3))),
            2 => Some(EofAction::Reduce(Pop(0))),
            _ => Some(EofAction::Accept),
        }
    }

    fn query_goto_table(&self, state: usize, non_terminal: &Head) -> Option<usize> {
        if state == 1 && non_terminal.0 == 1 {
            Some(2)
        } else if state == 0 && non_terminal.0 == 1 {
            Some(3)
        } else {
            None
        }
    }

    fn tokens_in_state(&self, _state: usize) -> Vec<String> {
        Vec::new()
    }
}

impl From<Head> for u8 {
    fn from(head: Head) -> u8 {
        head.0
    }
}

type BrokenParser = Parser<Head, u8, u8, Pop, Broken, ()>;

fn failure(result: Result<u8, ParseError<Head, u8, u8, Pop, Broken, ()>>) -> ParseOneError<Head, u8> {
    match result {
        Ok(_) => panic!("parsed"),
        Err(error) => error.parse_one_error,
    }
}

#[test]
fn a_missing_goto_is_reported_with_the_head() {
    let error = failure(BrokenParser::parse(&Broken, vec![0]));
    assert!(matches!(
        error,
        ParseOneError::ParseTokenError(ParseTokenError::GotoNotFound {
            leftover_non_terminal: Head(0)
        })
    ));
    let error = failure(BrokenParser::parse(&Broken, vec![2, 2, 2]));
    assert!(matches!(
        error,
        ParseOneError::ParseEofError(ParseEofError::GotoNotFound { leftover_non_terminal: Head(3) })
    ));
}

#[test]
fn a_body_longer_than_the_stack_is_reported() {
    let error = failure(BrokenParser::parse(&Broken, vec![2, 1]));
    assert!(matches!(
        error,
        ParseOneError::ParseTokenError(ParseTokenError::StackUnderflow { leftover_token: 1 })
    ));
    let error = failure(BrokenParser::parse(&Broken, vec![2]));
    assert!(matches!(error, ParseOneError::ParseEofError(ParseEofError::StackUnderflow)));
    let error = failure(BrokenParser::parse(&Broken, vec![]));
    assert!(matches!(error, ParseOneError::ParseEofError(ParseEofError::StackUnderflow)));
    let error = failure(BrokenParser::parse(&Broken, vec![9]));
    assert!(matches!(
        error,
        ParseOneError::ParseTokenError(ParseTokenError::ActionNotFound { leftover_token: 9 })
    ));
}

#[test]
fn hand_written_tables_can_accept() {
    // shift 2 into state 1, reduce one symbol on token 3 to a head with
    // goto from state 0 to state 3, shift again, and fail at the end
    let mut parser = BrokenParser::new(());
    assert!(matches!(parser.parse_token(&Broken, 2), Ok(ParseToken::Shifted)));
    assert!(matches!(
        parser.parse_token(&Broken, 3),
        Ok(ParseToken::Reduced { leftover_token: 3 })
    ));
    assert_eq!(parser.stacks.state_stack, vec![0, 3]);
    assert!(matches!(parser.parse_eof(&Broken), Ok(ParseEof::Accepted)));
    match BrokenParser::parse(&Broken, vec![2]) {
        Ok(_) => panic!("parsed"),
        Err(error) => assert_eq!(error.state(), Some(1)),
    }
    let _ = Unit.id();
    assert_eq!(7usize.id(), 7);
}
