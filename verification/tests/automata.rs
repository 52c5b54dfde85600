use lalr_sdd::lalr::automaton::LalrAutomaton;
use lalr_sdd::lalr::{same_kernel, LalrItem, LalrState};
use lalr_sdd::lookahead::{LookAhead, LookAheadGraph, LookAheadNodeRef};
use lalr_sdd::parsing::action::Action;
use lalr_sdd::parsing::tables::{ActionTable, ConflictKind, GoToTable, TransitionTables};
use lalr_sdd::slr::automaton::{SlrAutomaton, SlrState};
use lalr_sdd::slr::item::SlrItem;
use lalr_sdd::symbolic_grammar::{SymbolicGrammar, SymbolicSymbol};
use lalr_sdd::token_set::TokenSet;

fn tk(id: usize) -> SymbolicSymbol {
    SymbolicSymbol::Token(id)
}

fn nt(id: usize) -> SymbolicSymbol {
    SymbolicSymbol::NonTerminal(id)
}

fn grammar_of(
    token_count: usize,
    non_terminal_count: usize,
    rules: Vec<(usize, Vec<SymbolicSymbol>)>,
) -> SymbolicGrammar {
    match SymbolicGrammar::new(token_count, non_terminal_count, 0, rules) {
        Ok(grammar) => grammar,
        Err(error) => panic!("grammar rejected: {:?}", error),
    }
}

fn arithmetic() -> SymbolicGrammar {
    // tokens: n + * ( ); non-terminals: E T F
    grammar_of(
        5,
        3,
        vec![
            (0, vec![nt(0), tk(1), nt(1)]),
            (0, vec![nt(1)]),
            (1, vec![nt(1), tk(2), nt(2)]),
            (1, vec![nt(2)]),
            (2, vec![tk(3), nt(0), tk(4)]),
            (2, vec![tk(0)]),
        ],
    )
}

fn lookahead(tokens: &[usize], eof: bool, capacity: usize) -> LookAhead {
    let mut set = TokenSet::new(capacity);
    for token in tokens {
        set.insert(*token);
    }
    LookAhead { tokens: set, can_eof_follow: eof }
}

fn resolved(node: LookAheadNodeRef, graph: &LookAheadGraph) -> (Vec<usize>, bool) {
    let found = node.compute_lookahead(graph);
    (found.tokens.to_vec(), found.can_eof_follow)
}

fn cores(items: &[LalrItem]) -> Vec<(usize, usize)> {
    let mut cores: Vec<(usize, usize)> =
        items.iter().map(|item| (item.production_id, item.marker_position)).collect();
    cores.sort();
    cores
}

#[test]
fn initial_node_is_followed_by_the_end_of_input() {
    let mut graph = LookAheadGraph::new(3);
    let node = LookAheadNodeRef::initial_lookahead_node(&mut graph);
    assert_eq!(node, LookAheadNodeRef(0));
    assert_eq!(graph.node_count(), 1);
    assert_eq!(resolved(node, &graph), (vec![], true));
}

#[test]
fn node_ids_count_up() {
    let mut graph = LookAheadGraph::new(2);
    let first = LookAheadNodeRef::new(&mut graph, lookahead(&[0], false, 2), Vec::new());
    let second = LookAheadNodeRef::new(&mut graph, lookahead(&[1], false, 2), vec![first]);
    assert_eq!(first.0, 0);
    assert_eq!(second.0, 1);
    assert_eq!(graph.nodes[1].node_id, 1);
    assert_eq!(resolved(first, &graph), (vec![0], false));
    assert_eq!(resolved(second, &graph), (vec![0, 1], false));
}

#[test]
fn lookahead_is_resolved_through_cycles() {
    let mut graph = LookAheadGraph::new(4);
    let a = LookAheadNodeRef::new(&mut graph, lookahead(&[0], false, 4), Vec::new());
    let b = LookAheadNodeRef::new(&mut graph, lookahead(&[1], false, 4), vec![a]);
    let c = LookAheadNodeRef::new(&mut graph, lookahead(&[], true, 4), vec![b]);
    let d = LookAheadNodeRef::new(&mut graph, lookahead(&[3], false, 4), Vec::new());
    a.add_dependency(&mut graph, c);
    a.add_dependency(&mut graph, a);
    assert_eq!(resolved(a, &graph), (vec![0, 1], true));
    assert_eq!(resolved(b, &graph), (vec![0, 1], true));
    assert_eq!(resolved(c, &graph), (vec![0, 1], true));
    assert_eq!(resolved(d, &graph), (vec![3], false));
    assert_eq!(resolved(a, &graph), (vec![0, 1], true));
}

#[test]
fn a_dependency_never_shrinks_a_lookahead() {
    let mut graph = LookAheadGraph::new(3);
    let a = LookAheadNodeRef::new(&mut graph, lookahead(&[0], false, 3), Vec::new());
    let b = LookAheadNodeRef::new(&mut graph, lookahead(&[1], true, 3), Vec::new());
    let c = LookAheadNodeRef::new(&mut graph, lookahead(&[2], false, 3), vec![a]);
    let before = [resolved(a, &graph), resolved(b, &graph), resolved(c, &graph)];
    assert_eq!(before[2], (vec![0, 2], false));
    a.add_dependency(&mut graph, b);
    let after = [resolved(a, &graph), resolved(b, &graph), resolved(c, &graph)];
    assert_eq!(after[0], (vec![0, 1], true));
    assert_eq!(after[1], (vec![1], true));
    assert_eq!(after[2], (vec![0, 1, 2], true));
    for (earlier, later) in before.iter().zip(after.iter()) {
        assert!(earlier.0.iter().all(|token| later.0.contains(token)));
        assert!(!earlier.1 || later.1);
    }
}

#[test]
fn items_are_compared_without_their_nodes() {
    let mut item = LalrItem::new(3, LookAheadNodeRef(0));
    let other = LalrItem::new(3, LookAheadNodeRef(7));
    assert!(item == other);
    item.move_marker();
    assert!(item != other);
    assert_eq!(item.marker_position, 1);
    assert_eq!(item.lookahead_node, LookAheadNodeRef(0));
    let left = LalrState::new(vec![other, item]);
    let right = LalrState::new(vec![
        LalrItem { production_id: 3, marker_position: 1, lookahead_node: LookAheadNodeRef(2) },
        LalrItem::new(3, LookAheadNodeRef(1)),
    ]);
    assert!(left == right);
    assert!(same_kernel(&left.kernel, &right.kernel));
    assert!(!left.marked);
    assert!(left.epsilon_items.is_empty());
    let smaller = LalrState::new(vec![item]);
    assert!(left != smaller);
    assert!(smaller != left);
}

#[test]
fn items_point_at_symbols() {
    let grammar = arithmetic();
    let mut item = LalrItem::new(4, LookAheadNodeRef(0));
    assert_eq!(item.pointed_symbol(&grammar), Some(tk(3)));
    assert!(!item.is_reducing(&grammar));
    item.move_marker();
    assert_eq!(item.pointed_symbol(&grammar), Some(nt(0)));
    item.move_marker();
    item.move_marker();
    assert_eq!(item.pointed_symbol(&grammar), None);
    assert!(item.is_reducing(&grammar));
    let start = LalrItem::new(usize::MAX, LookAheadNodeRef(0));
    assert_eq!(start.pointed_symbol(&grammar), Some(nt(0)));

    let mut plain = SlrItem::new(5);
    assert_eq!(plain, SlrItem { production_id: 5, marker_position: 0 });
    assert_eq!(plain.pointed_symbol(&grammar), tk(0));
    assert!(!plain.is_final_item(&grammar));
    plain.move_marker();
    assert_eq!(plain.pointed_symbol(&grammar), SymbolicSymbol::EOF);
    assert!(plain.is_final_item(&grammar));
}

#[test]
fn closure_of_the_initial_kernel() {
    let grammar = arithmetic();
    let mut graph = LookAheadGraph::new(5);
    let node = LookAheadNodeRef::initial_lookahead_node(&mut graph);
    let state = LalrState::new(vec![LalrItem::new(usize::MAX, node)]);
    let closure = state.closure(&mut graph, &grammar);
    assert_eq!(closure[0].production_id, usize::MAX);
    assert_eq!(
        cores(&closure),
        vec![(0, 0), (1, 0), (2, 0), (3, 0), (4, 0), (5, 0), (usize::MAX, 0)]
    );
    for item in closure.iter() {
        let (tokens, eof) = resolved(item.lookahead_node, &graph);
        match item.production_id {
            0 | 1 => assert_eq!((tokens, eof), (vec![1], true)),
            2 | 3 | 4 | 5 => assert_eq!((tokens, eof), (vec![1, 2], true)),
            _ => assert_eq!((tokens, eof), (vec![], true)),
        }
    }

    let plain = SlrState::new(vec![SlrItem::new(usize::MAX)]);
    assert!(!plain.marked);
    let mut items = plain.closure(&grammar);
    assert_eq!(items[0], SlrItem::new(usize::MAX));
    items.sort_by_key(|item| (item.production_id, item.marker_position));
    assert_eq!(
        items,
        vec![
            SlrItem::new(0),
            SlrItem::new(1),
            SlrItem::new(2),
            SlrItem::new(3),
            SlrItem::new(4),
            SlrItem::new(5),
            SlrItem::new(usize::MAX),
        ]
    );
}

#[test]
fn arithmetic_has_twelve_states() {
    let automaton = LalrAutomaton::compute(arithmetic());
    assert_eq!(automaton.states_count(), 12);
    assert_eq!(automaton.transitions.token_table.len(), 12);
    assert_eq!(automaton.transitions.non_terminal_table.len(), 12);
    assert_eq!(cores(&automaton.states[0].kernel), vec![(usize::MAX, 0)]);
    assert!(automaton.states.iter().all(|state| state.marked));
    assert!(automaton.states.iter().all(|state| state.epsilon_items.is_empty()));
    // over n, +, *, (, ) from the initial state
    let row = &automaton.transitions.token_table[0];
    assert_eq!(row.len(), 5);
    assert!(row[0].is_some() && row[3].is_some());
    assert!(row[1].is_none() && row[2].is_none() && row[4].is_none());
    assert_eq!(automaton.transitions.token_transition(0, 0), row[0]);
    assert_eq!(automaton.transitions.token_transition(0, 9), None);
    assert_eq!(automaton.transitions.token_transition(40, 0), None);
    let after_number = match row[0] {
        Some(state) => state,
        None => panic!("no transition over n"),
    };
    assert_eq!(cores(&automaton.states[after_number].kernel), vec![(5, 1)]);
}

#[test]
fn no_two_states_share_a_kernel() {
    let automaton = LalrAutomaton::compute(arithmetic());
    for (a, left) in automaton.states.iter().enumerate() {
        for (b, right) in automaton.states.iter().enumerate() {
            assert_eq!(a == b, left == right);
        }
    }
}

#[test]
fn states_without_lookaheads_are_the_same() {
    let with_lookaheads = LalrAutomaton::compute(arithmetic());
    let plain = SlrAutomaton::compute(arithmetic());
    let stripped = SlrAutomaton::without_lookaheads(LalrAutomaton::compute(arithmetic()));
    assert_eq!(stripped.states.len(), 12);
    assert_eq!(stripped.transitions, plain.transitions);
    assert_eq!(plain.states.len(), 12);
    assert_eq!(plain.transitions.len(), 12);
    assert!(plain.states.iter().all(|state| state.marked));
    for state in 0..12 {
        let plain_state = &plain.states[state];
        let rows = &plain.transitions[state];
        let mut kernel: Vec<(usize, usize)> = plain_state
            .kernel
            .iter()
            .map(|item| (item.production_id, item.marker_position))
            .collect();
        kernel.sort();
        assert_eq!(kernel, cores(&with_lookaheads.states[state].kernel));
        assert_eq!(rows.0, with_lookaheads.transitions.token_table[state]);
        assert_eq!(rows.1, with_lookaheads.transitions.non_terminal_table[state]);
    }
}

#[test]
fn epsilon_items_are_recorded() {
    // S -> a S b | epsilon
    let automaton =
        LalrAutomaton::compute(grammar_of(2, 1, vec![(0, vec![tk(0), nt(0), tk(1)]), (0, vec![])]));
    assert_eq!(cores(&automaton.states[0].epsilon_items), vec![(1, 0)]);
    let (actions, gotos, conflicts) = automaton.generate_tables();
    assert!(conflicts.is_empty());
    assert_eq!(actions.dimensions(), (automaton.states_count(), 3));
    assert_eq!(gotos.dimensions(), (automaton.states_count(), 1));
    // in state 0: shift a, reduce the empty production at the end of input;
    // the node of the empty production is that of the kernel item behind a,
    // which is followed by b
    assert!(matches!(actions.get(0, tk(0)), Some(Action::Shift(_))));
    assert_eq!(actions.get(0, tk(1)), Some(Action::Reduce(1)));
    assert_eq!(actions.get(0, SymbolicSymbol::EOF), Some(Action::Reduce(1)));
    let accepting = match gotos.get(0, nt(0)) {
        Some(state) => state,
        None => panic!("no goto over the start symbol"),
    };
    assert_eq!(actions.get(accepting, SymbolicSymbol::EOF), Some(Action::Accept));
    assert_eq!(actions.get(accepting, tk(0)), None);
}

#[test]
fn reduce_reduce_conflict_is_reported() {
    // S -> A | B, A -> a, B -> a
    let automaton = LalrAutomaton::compute(grammar_of(
        1,
        3,
        vec![(0, vec![nt(1)]), (0, vec![nt(2)]), (1, vec![tk(0)]), (2, vec![tk(0)])],
    ));
    let (actions, _gotos, conflicts) = automaton.generate_tables();
    assert_eq!(conflicts.len(), 1);
    assert_eq!(conflicts[0].kind, ConflictKind::ReduceReduce);
    assert_eq!(conflicts[0].symbol, SymbolicSymbol::EOF);
    assert_eq!(conflicts[0].current, Action::Reduce(3));
    assert_eq!(conflicts[0].new, Action::Reduce(2));
    assert_eq!(actions.get(conflicts[0].state, SymbolicSymbol::EOF), Some(Action::Reduce(2)));
}

#[test]
fn action_table_reports_overwrites() {
    let mut table = ActionTable::new(2);
    assert_eq!(table.dimensions(), (0, 3));
    assert_eq!(table.add_state(), 0);
    assert_eq!(table.add_state(), 1);
    assert_eq!(table.dimensions(), (2, 3));
    assert_eq!(table.get(1, tk(0)), None);
    assert_eq!(table.write(1, tk(0), Action::Reduce(4)), None);
    assert_eq!(table.get(1, tk(0)), Some(Action::Reduce(4)));
    let conflict = match table.write(1, tk(0), Action::Shift(7)) {
        Some(conflict) => conflict,
        None => panic!("no conflict"),
    };
    assert_eq!(conflict.kind, ConflictKind::ShiftReduce);
    assert_eq!(conflict.state, 1);
    assert_eq!(conflict.symbol, tk(0));
    assert_eq!(conflict.current, Action::Reduce(4));
    assert_eq!(conflict.new, Action::Shift(7));
    assert_eq!(table.get(1, tk(0)), Some(Action::Shift(7)));
    let conflict = table.write(1, tk(0), Action::Reduce(2)).map(|conflict| conflict.kind);
    assert_eq!(conflict, Some(ConflictKind::ShiftReduce));
    assert_eq!(table.write(0, SymbolicSymbol::EOF, Action::Reduce(1)), None);
    let conflict = table.write(0, SymbolicSymbol::EOF, Action::Accept).map(|conflict| conflict.kind);
    assert_eq!(conflict, Some(ConflictKind::ReduceReduce));
    assert_eq!(table.get(0, SymbolicSymbol::EOF), Some(Action::Accept));
    table.set(0, SymbolicSymbol::EOF, None);
    assert_eq!(table.get(0, SymbolicSymbol::EOF), None);
    assert_eq!(table.get(0, tk(1)), None);
}

#[test]
fn goto_table_holds_targets() {
    let mut table = GoToTable::new(3);
    assert_eq!(table.dimensions(), (0, 3));
    assert_eq!(table.add_state(), 0);
    assert_eq!(table.dimensions(), (1, 3));
    assert_eq!(table.get(0, nt(2)), None);
    table.set(0, nt(2), Some(5));
    assert_eq!(table.get(0, nt(2)), Some(5));
    assert_eq!(table.get(0, nt(1)), None);
}

#[test]
fn transition_tables_grow_by_rows() {
    assert!(TransitionTables::default().iter().is_empty());
    let mut tables = TransitionTables::new();
    assert!(tables.iter().is_empty());
    tables.add_transitions(vec![None, Some(1)], vec![Some(2)]);
    tables.add_transitions(vec![Some(0), None], vec![None]);
    assert_eq!(tables.token_transition(0, 1), Some(1));
    assert_eq!(tables.token_transition(0, 0), None);
    assert_eq!(tables.token_transition(1, 0), Some(0));
    assert_eq!(tables.token_transition(1, 2), None);
    assert_eq!(tables.token_transition(2, 0), None);
    assert_eq!(tables.non_terminal_transition(0, 0), Some(2));
    assert_eq!(tables.non_terminal_transition(1, 0), None);
    assert_eq!(tables.non_terminal_transition(1, 1), None);
    let rows = tables.iter();
    assert_eq!(rows.len(), 2);
    assert_eq!(rows[0], (&vec![None, Some(1)], &vec![Some(2)]));
    assert_eq!(rows[1], (&vec![Some(0), None], &vec![None]));
}
