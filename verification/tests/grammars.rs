use lalr_sdd::grammar::non_terminal::NonTerminal;
use lalr_sdd::grammar::production::Production;
use lalr_sdd::grammar::symbol::Symbol;
use lalr_sdd::grammar::token::Token;
use lalr_sdd::grammar::Grammar;
use lalr_sdd::symbolic_grammar::{
    GrammarError, SymbolicFirstSet, SymbolicGrammar, SymbolicProduction, SymbolicSymbol,
};
use lalr_sdd::token_set::TokenSet;

fn tk(id: usize) -> SymbolicSymbol {
    SymbolicSymbol::Token(id)
}

fn nt(id: usize) -> SymbolicSymbol {
    SymbolicSymbol::NonTerminal(id)
}

fn grammar_of(
    token_count: usize,
    non_terminal_count: usize,
    rules: Vec<(usize, Vec<SymbolicSymbol>)>,
) -> SymbolicGrammar {
    match SymbolicGrammar::new(token_count, non_terminal_count, 0, rules) {
        Ok(grammar) => grammar,
        Err(error) => panic!("grammar rejected: {:?}", error),
    }
}

fn first_of(grammar: &SymbolicGrammar, beta: &[SymbolicSymbol]) -> (Vec<usize>, bool) {
    let SymbolicFirstSet { tokens, nullable } = grammar.first_set(beta);
    (tokens.to_vec(), nullable)
}

fn named(name: &str) -> String {
    name.to_string()
}

fn sample_grammar() -> Grammar {
    Grammar::new(
        vec![NonTerminal::new(named("E")), NonTerminal::new(named("T"))],
        vec![Token::new(named("n")), Token::new(named("+"))],
        vec![
            Production::new(named("add"), named("E"), vec![named("E"), named("+"), named("T")]),
            Production::new(named("term"), named("E"), vec![named("T")]),
            Production::new(named("number"), named("T"), vec![named("n")]),
        ],
        named("E"),
    )
}

#[test]
fn token_set_starts_empty() {
    let set = TokenSet::new(4);
    assert!(set.is_empty());
    assert_eq!(set.size(), 4);
    assert!(!set.contains(0));
    assert_eq!(set.to_vec(), Vec::<usize>::new());
}

#[test]
fn token_set_holds_what_was_inserted() {
    let mut set = TokenSet::new(5);
    set.insert(3);
    set.insert(1);
    set.insert(3);
    assert!(set.contains(1));
    assert!(set.contains(3));
    assert!(!set.contains(2));
    assert!(!set.contains(7));
    assert!(!set.is_empty());
    assert_eq!(set.to_vec(), vec![1, 3]);
}

#[test]
fn token_set_extend_is_union() {
    let mut left = TokenSet::new(6);
    left.insert(0);
    left.insert(4);
    let mut right = TokenSet::new(6);
    right.insert(4);
    right.insert(5);
    left.extend(&right);
    assert_eq!(left.to_vec(), vec![0, 4, 5]);
    assert_eq!(right.to_vec(), vec![4, 5]);
    let copy = left.clone();
    assert_eq!(copy.to_vec(), vec![0, 4, 5]);
}

#[test]
fn special_production_derives_the_start_symbol() {
    let production = SymbolicProduction::special_production(2);
    assert_eq!(production.id(), usize::MAX);
    assert_eq!(*production.head(), usize::MAX);
    assert_eq!(production.body(), &vec![nt(2)]);
    assert_eq!(production.arity(), 1);
}

#[test]
fn productions_are_stored_under_their_ids() {
    let grammar = grammar_of(2, 1, vec![(0, vec![nt(0), tk(1), tk(0)]), (0, vec![tk(0)])]);
    assert_eq!(grammar.token_count(), 2);
    assert_eq!(grammar.non_terminal_count(), 1);
    let second = grammar.get_production(1).map(|production| production.id());
    assert_eq!(second, Some(1));
    let arity = grammar.get_production(0).map(|production| production.arity());
    assert_eq!(arity, Some(3));
    assert!(grammar.get_production(2).is_none());
    let special = grammar.get_production(usize::MAX).map(|production| production.body().clone());
    assert_eq!(special, Some(vec![nt(0)]));
}

#[test]
fn productions_with_head_come_in_order() {
    let grammar = grammar_of(
        2,
        2,
        vec![(0, vec![nt(1)]), (1, vec![tk(0)]), (0, vec![tk(1)]), (1, vec![])],
    );
    let of_first: Vec<usize> =
        grammar.get_productions_with_head(0).iter().map(|production| production.id()).collect();
    assert_eq!(of_first, vec![0, 2]);
    let of_second: Vec<usize> =
        grammar.get_productions_with_head(1).iter().map(|production| production.id()).collect();
    assert_eq!(of_second, vec![1, 3]);
    assert!(grammar.get_productions_with_head(5).is_empty());
}

#[test]
fn empty_grammar_is_rejected() {
    assert_eq!(
        SymbolicGrammar::new(0, 1, 0, vec![(0, vec![])]).err(),
        Some(GrammarError::EmptyGrammar)
    );
    assert_eq!(
        SymbolicGrammar::new(1, 0, 0, vec![(0, vec![])]).err(),
        Some(GrammarError::EmptyGrammar)
    );
    assert_eq!(SymbolicGrammar::new(1, 1, 0, vec![]).err(), Some(GrammarError::EmptyGrammar));
}

#[test]
fn undeclared_start_symbol_is_rejected() {
    assert_eq!(
        SymbolicGrammar::new(1, 1, 1, vec![(0, vec![tk(0)])]).err(),
        Some(GrammarError::UndeclaredStartSymbol)
    );
}

#[test]
fn undeclared_head_is_rejected() {
    assert_eq!(
        SymbolicGrammar::new(1, 1, 0, vec![(0, vec![tk(0)]), (3, vec![])]).err(),
        Some(GrammarError::UndeclaredHead { production: 1 })
    );
}

#[test]
fn end_of_input_in_a_body_is_rejected() {
    assert_eq!(
        SymbolicGrammar::new(1, 1, 0, vec![(0, vec![tk(0), SymbolicSymbol::EOF])]).err(),
        Some(GrammarError::EndOfInputInBody { production: 0, position: 1 })
    );
}

#[test]
fn symbol_out_of_range_is_rejected() {
    assert_eq!(
        SymbolicGrammar::new(1, 1, 0, vec![(0, vec![tk(0)]), (0, vec![nt(0), tk(1)])]).err(),
        Some(GrammarError::SymbolOutOfRange { production: 1, position: 1 })
    );
    assert_eq!(
        SymbolicGrammar::new(1, 1, 0, vec![(0, vec![nt(1)])]).err(),
        Some(GrammarError::SymbolOutOfRange { production: 0, position: 0 })
    );
}

#[test]
fn first_defect_wins() {
    assert_eq!(
        SymbolicGrammar::new(1, 1, 0, vec![(0, vec![tk(4)]), (9, vec![])]).err(),
        Some(GrammarError::SymbolOutOfRange { production: 0, position: 0 })
    );
}

#[test]
fn grammars_can_be_checked() {
    let mut grammar = grammar_of(2, 1, vec![(0, vec![nt(0), tk(1), tk(0)]), (0, vec![tk(0)])]);
    assert!(grammar.is_well_formed());
    assert!(grammar.has_symbols(&[tk(1), nt(0)]));
    assert!(grammar.has_symbols(&[]));
    assert!(!grammar.has_symbols(&[tk(2)]));
    assert!(!grammar.has_symbols(&[nt(0), nt(1)]));
    assert!(!grammar.has_symbols(&[SymbolicSymbol::EOF]));
    grammar.productions[1].production_id = 5;
    assert!(!grammar.is_well_formed());
    grammar.productions[1].production_id = 1;
    grammar.productions[1].body.push(tk(7));
    assert!(!grammar.is_well_formed());
    grammar.productions[1].body.pop();
    assert!(grammar.is_well_formed());
    grammar.start_symbol = 3;
    assert!(!grammar.is_well_formed());
    grammar.start_symbol = 0;
    grammar.special_production.body.push(tk(0));
    assert!(!grammar.is_well_formed());
}

#[test]
fn first_of_the_empty_sequence_is_nullable() {
    let grammar = grammar_of(1, 1, vec![(0, vec![tk(0)])]);
    assert_eq!(first_of(&grammar, &[]), (vec![], true));
}

#[test]
fn first_of_a_terminal_is_the_terminal() {
    let grammar = grammar_of(2, 1, vec![(0, vec![tk(0)])]);
    assert_eq!(first_of(&grammar, &[tk(1), nt(0)]), (vec![1], false));
}

#[test]
fn first_of_a_left_recursive_non_terminal() {
    // E -> E + n | n
    let grammar = grammar_of(2, 1, vec![(0, vec![nt(0), tk(1), tk(0)]), (0, vec![tk(0)])]);
    assert_eq!(first_of(&grammar, &[nt(0)]), (vec![0], false));
    assert_eq!(first_of(&grammar, &[nt(0), tk(1)]), (vec![0], false));
}

#[test]
fn first_unites_all_productions() {
    // F -> ( E ) | n, E -> F
    let grammar =
        grammar_of(3, 2, vec![(0, vec![nt(1)]), (1, vec![tk(1), nt(0), tk(2)]), (1, vec![tk(0)])]);
    assert_eq!(first_of(&grammar, &[nt(1)]), (vec![0, 1], false));
    assert_eq!(first_of(&grammar, &[nt(0)]), (vec![0, 1], false));
}

#[test]
fn first_goes_on_behind_a_nullable_non_terminal() {
    // S -> A B, A -> epsilon, B -> b
    let grammar = grammar_of(1, 3, vec![(0, vec![nt(1), nt(2)]), (1, vec![]), (2, vec![tk(0)])]);
    assert_eq!(first_of(&grammar, &[nt(1)]), (vec![], true));
    assert_eq!(first_of(&grammar, &[nt(1), nt(2)]), (vec![0], false));
    assert_eq!(first_of(&grammar, &[nt(0)]), (vec![0], false));
    assert_eq!(first_of(&grammar, &[nt(1), nt(1)]), (vec![], true));
}

#[test]
fn first_stops_behind_a_non_terminal_with_a_non_nullable_production() {
    // S -> a S b | epsilon
    let grammar = grammar_of(3, 1, vec![(0, vec![tk(0), nt(0), tk(1)]), (0, vec![])]);
    assert_eq!(first_of(&grammar, &[nt(0)]), (vec![0], false));
    assert_eq!(first_of(&grammar, &[nt(0), tk(2)]), (vec![0], false));
}

#[test]
fn first_of_mutually_recursive_non_terminals() {
    // N -> a | M y, M -> b | N z
    let grammar = grammar_of(
        4,
        2,
        vec![
            (0, vec![tk(0)]),
            (0, vec![nt(1), tk(2)]),
            (1, vec![tk(1)]),
            (1, vec![nt(0), tk(3)]),
        ],
    );
    assert_eq!(first_of(&grammar, &[nt(0)]), (vec![0, 1], false));
    assert_eq!(first_of(&grammar, &[nt(1)]), (vec![0, 1], false));
}

#[test]
fn first_of_a_production_visited_twice() {
    // S -> A A c, A -> B, B -> epsilon
    let grammar = grammar_of(
        1,
        3,
        vec![(0, vec![nt(1), nt(1), tk(0)]), (1, vec![nt(2)]), (2, vec![])],
    );
    assert_eq!(first_of(&grammar, &[nt(1), nt(1), tk(0)]), (vec![0], false));
    assert_eq!(first_of(&grammar, &[nt(1), nt(1)]), (vec![], true));
}

#[test]
fn first_of_a_non_terminal_that_needs_itself() {
    // A -> A | b A: nothing makes A nullable
    let grammar = grammar_of(2, 1, vec![(0, vec![nt(0)]), (0, vec![tk(1), nt(0)])]);
    assert_eq!(first_of(&grammar, &[nt(0), tk(0)]), (vec![1], false));
}

#[test]
fn symbols_are_found_by_name() {
    let grammar = sample_grammar();
    assert_eq!(grammar.get_symbol(&named("n")), Some(Symbol::Token(0)));
    assert_eq!(grammar.get_symbol(&named("+")), Some(Symbol::Token(1)));
    assert_eq!(grammar.get_symbol(&named("T")), Some(Symbol::NonTerminal(1)));
    assert_eq!(grammar.get_symbol(&named("x")), None);
}

#[test]
fn symbols_are_found_by_position() {
    let grammar = sample_grammar();
    assert_eq!(grammar.symbols_count(), 5);
    assert_eq!(grammar.get_symbol_from_id(1), Symbol::Token(1));
    assert_eq!(grammar.get_symbol_from_id(2), Symbol::NonTerminal(0));
    assert_eq!(grammar.get_symbol_from_id(4), Symbol::EOF);
    assert_eq!(grammar.get_symbol_from_id(17), Symbol::EOF);
    assert_eq!(grammar.get_symbol_name_from_id(0), "n");
    assert_eq!(grammar.get_symbol_name_from_id(3), "T");
    assert_eq!(grammar.get_symbol_name_from_id(4), "$");
    assert_eq!(Symbol::Token(1).index(&grammar), 1);
    assert_eq!(Symbol::NonTerminal(1).index(&grammar), 3);
    assert_eq!(Symbol::EOF.index(&grammar), 4);
}

#[test]
fn tokens_and_non_terminals_are_found_by_index() {
    let grammar = sample_grammar();
    assert_eq!(grammar.get_token(1).map(|token| token.name().clone()), Some(named("+")));
    assert!(grammar.get_token(2).is_none());
    assert_eq!(
        grammar.get_non_terminal(0).map(|non_terminal| non_terminal.name().clone()),
        Some(named("E"))
    );
    assert!(grammar.get_non_terminal(2).is_none());
}

#[test]
fn productions_are_found_by_name_and_id() {
    let grammar = sample_grammar();
    let by_name = grammar.get_production(&named("term"));
    assert_eq!(by_name.map(|production| production.head().clone()), Some(named("E")));
    assert_eq!(by_name.map(|production| production.arity()), Some(1));
    assert_eq!(by_name.map(|production| production.body().clone()), Some(vec![named("T")]));
    assert!(grammar.get_production(&named("nothing")).is_none());
    let by_id = grammar.get_production_from_id(2);
    assert_eq!(by_id.map(|production| production.name().clone()), Some(named("number")));
    assert!(grammar.get_production_from_id(3).is_none());
    let extra = grammar.get_production_from_id(usize::MAX);
    assert_eq!(extra.map(|production| production.body().clone()), Some(vec![named("E")]));
    assert_eq!(extra.map(|production| production.name().clone()), Some(String::new()));
    assert_eq!(grammar.get_production_with_head(&named("E")), vec![0, 1]);
    assert_eq!(grammar.get_production_with_head(&named("T")), vec![2]);
    assert_eq!(grammar.get_production_with_head(&named("n")), Vec::<usize>::new());
}

#[test]
fn later_symbol_of_a_name_wins() {
    let grammar = Grammar::new(
        vec![NonTerminal::new(named("x")), NonTerminal::new(named("y"))],
        vec![Token::new(named("y")), Token::new(named("z")), Token::new(named("z"))],
        vec![Production::new(named("p"), named("x"), vec![]), Production::new(named("p"), named("y"), vec![])],
        named("x"),
    );
    assert_eq!(grammar.get_symbol(&named("y")), Some(Symbol::NonTerminal(1)));
    assert_eq!(grammar.get_symbol(&named("z")), Some(Symbol::Token(2)));
    assert_eq!(
        grammar.get_production(&named("p")).map(|production| production.head().clone()),
        Some(named("y"))
    );
    assert_eq!(grammar.token_id(&named("z")), Some(1));
    assert_eq!(grammar.non_terminal_id(&named("y")), Some(1));
    assert_eq!(grammar.non_terminal_id(&named("z")), None);
}

#[test]
fn names_become_ids() {
    let grammar = sample_grammar();
    assert_eq!(SymbolicGrammar::find_symbol(&grammar, &named("+")), tk(1));
    assert_eq!(SymbolicGrammar::find_symbol(&grammar, &named("T")), nt(1));
    assert_eq!(SymbolicGrammar::find_symbol(&grammar, &named("?")), SymbolicSymbol::EOF);
    let rule = SymbolicGrammar::map_production(&grammar, &grammar.productions[0]);
    assert_eq!(rule, (0, vec![nt(0), tk(1), nt(1)]));
    let symbolic = match SymbolicGrammar::from_grammar(&grammar) {
        Ok(symbolic) => symbolic,
        Err(error) => panic!("grammar rejected: {:?}", error),
    };
    assert_eq!(symbolic.token_count(), 2);
    assert_eq!(symbolic.non_terminal_count(), 2);
    assert_eq!(symbolic.start_symbol, 0);
    assert_eq!(symbolic.productions.len(), 3);
    assert_eq!(symbolic.productions[2].head, 1);
    assert_eq!(symbolic.productions[2].body, vec![tk(0)]);
    assert_eq!(symbolic.productions[1].production_id, 1);
}

#[test]
fn names_with_defects_are_rejected() {
    let twice = Grammar::new(
        vec![NonTerminal::new(named("S"))],
        vec![Token::new(named("a")), Token::new(named("b")), Token::new(named("a"))],
        vec![Production::new(named("p"), named("S"), vec![named("a")])],
        named("S"),
    );
    assert_eq!(
        SymbolicGrammar::from_grammar(&twice).err(),
        Some(GrammarError::DuplicateToken { token: 2 })
    );
    let twice = Grammar::new(
        vec![NonTerminal::new(named("S")), NonTerminal::new(named("S"))],
        vec![Token::new(named("a"))],
        vec![Production::new(named("p"), named("S"), vec![named("a")])],
        named("S"),
    );
    assert_eq!(
        SymbolicGrammar::from_grammar(&twice).err(),
        Some(GrammarError::DuplicateNonTerminal { non_terminal: 1 })
    );
    let no_start = Grammar::new(
        vec![NonTerminal::new(named("S"))],
        vec![Token::new(named("a"))],
        vec![Production::new(named("p"), named("S"), vec![named("a")])],
        named("T"),
    );
    assert_eq!(
        SymbolicGrammar::from_grammar(&no_start).err(),
        Some(GrammarError::UndeclaredStartSymbol)
    );
    let no_head = Grammar::new(
        vec![NonTerminal::new(named("S"))],
        vec![Token::new(named("a"))],
        vec![Production::new(named("p"), named("T"), vec![named("a")])],
        named("S"),
    );
    assert_eq!(
        SymbolicGrammar::from_grammar(&no_head).err(),
        Some(GrammarError::UndeclaredHead { production: 0 })
    );
    let unknown = Grammar::new(
        vec![NonTerminal::new(named("S"))],
        vec![Token::new(named("a"))],
        vec![Production::new(named("p"), named("S"), vec![named("a"), named("b")])],
        named("S"),
    );
    assert_eq!(
        SymbolicGrammar::from_grammar(&unknown).err(),
        Some(GrammarError::EndOfInputInBody { production: 0, position: 1 })
    );
    let empty = Grammar::new(vec![NonTerminal::new(named("S"))], vec![], vec![], named("S"));
    assert_eq!(SymbolicGrammar::from_grammar(&empty).err(), Some(GrammarError::EmptyGrammar));
}
