use langram::closure::{closure, goto};
use langram::first::get_first;
use langram::grammar::find_production;
use langram::items::{has_situation, same_state, LR1Situation};
use langram::lr::LR1Parser;
use langram::states::{find_state, get_states};
use langram::table::{add_transition, drive, lookup, LR1Action};
use langram::{CFGrammar, FitError, END_TERMINAL, START_RULE};
use multimap::MultiMap;
use std::collections::HashMap;
use std::collections::HashSet;

fn two_c() -> CFGrammar {
    let terminals = HashSet::from(['c', 'd']);
    let non_terminals = HashSet::from(['S', 'C']);
    let mut rules = MultiMap::new();
    rules.insert('S', "CC".to_string());
    rules.insert('C', "cC".to_string());
    rules.insert('C', "d".to_string());
    CFGrammar::new(&terminals, &non_terminals, &rules, 'S')
}

fn sorted(mut symbols: Vec<char>) -> Vec<char> {
    symbols.sort();
    symbols
}

#[test]
fn first_terminals_of_two_c() {
    let grammar = two_c();
    let rules = grammar.productions();
    assert_eq!(sorted(get_first(&grammar, &rules, &vec!['C', END_TERMINAL])), vec!['c', 'd']);
    assert_eq!(sorted(get_first(&grammar, &rules, &vec!['S'])), vec!['c', 'd']);
    assert_eq!(get_first(&grammar, &rules, &vec!['d', 'C']), vec!['d']);
    assert_eq!(get_first(&grammar, &rules, &vec![END_TERMINAL]), vec![END_TERMINAL]);
    assert_eq!(get_first(&grammar, &rules, &vec![]), Vec::<char>::new());
    assert_eq!(get_first(&grammar, &rules, &vec!['x']), Vec::<char>::new());
}

#[test]
fn first_terminals_walk_on_past_productions_seen_before() {
    let terminals = HashSet::from(['d', 'x', 'y']);
    let non_terminals = HashSet::from(['B', 'C']);
    let mut rules = MultiMap::new();
    rules.insert('B', "Cx".to_string());
    rules.insert('B', "Cy".to_string());
    rules.insert('C', "d".to_string());
    let grammar = CFGrammar::new(&terminals, &non_terminals, &rules, 'B');
    let list = grammar.productions();
    assert_eq!(sorted(get_first(&grammar, &list, &vec!['B'])), vec!['d', 'y']);
    assert_eq!(get_first(&grammar, &list, &vec!['C', 'x']), vec!['d']);
}

#[test]
fn the_initial_state_of_two_c_has_six_situations() {
    let grammar = two_c();
    let rules = grammar.productions();
    let start = find_production(&rules, START_RULE, &vec!['S']).unwrap();
    let seed = vec![LR1Situation::new(start, 0, END_TERMINAL)];
    let initial = closure(&grammar, &rules, &seed);
    assert_eq!(initial.len(), 6);
    assert_eq!(initial[0], LR1Situation { rule: start, pos: 0, lookahead: END_TERMINAL });
    let s_to_cc = find_production(&rules, 'S', &vec!['C', 'C']).unwrap();
    let c_to_cc = find_production(&rules, 'C', &vec!['c', 'C']).unwrap();
    let c_to_d = find_production(&rules, 'C', &vec!['d']).unwrap();
    assert!(has_situation(&initial, LR1Situation::new(s_to_cc, 0, END_TERMINAL)));
    for lookahead in ['c', 'd'] {
        assert!(has_situation(&initial, LR1Situation::new(c_to_cc, 0, lookahead)));
        assert!(has_situation(&initial, LR1Situation::new(c_to_d, 0, lookahead)));
    }
    assert!(!has_situation(&initial, LR1Situation::new(c_to_d, 0, END_TERMINAL)));
    assert!(!has_situation(&initial, LR1Situation::new(c_to_d, 1, 'c')));
}

#[test]
fn goto_moves_the_dot_and_closes() {
    let grammar = two_c();
    let rules = grammar.productions();
    let start = find_production(&rules, START_RULE, &vec!['S']).unwrap();
    let s_to_cc = find_production(&rules, 'S', &vec!['C', 'C']).unwrap();
    let c_to_cc = find_production(&rules, 'C', &vec!['c', 'C']).unwrap();
    let c_to_d = find_production(&rules, 'C', &vec!['d']).unwrap();
    let initial = closure(&grammar, &rules, &vec![LR1Situation::new(start, 0, END_TERMINAL)]);
    let on_s = goto(&grammar, &rules, &initial, 'S');
    assert_eq!(on_s, vec![LR1Situation::new(start, 1, END_TERMINAL)]);
    let on_big_c = goto(&grammar, &rules, &initial, 'C');
    let expected = vec![
        LR1Situation::new(s_to_cc, 1, END_TERMINAL),
        LR1Situation::new(c_to_cc, 0, END_TERMINAL),
        LR1Situation::new(c_to_d, 0, END_TERMINAL),
    ];
    assert!(same_state(&on_big_c, &expected));
    let on_d = goto(&grammar, &rules, &initial, 'd');
    assert!(same_state(
        &on_d,
        &vec![LR1Situation::new(c_to_d, 1, 'c'), LR1Situation::new(c_to_d, 1, 'd')]
    ));
    assert_eq!(goto(&grammar, &rules, &initial, 'x'), vec![]);
    assert_eq!(goto(&grammar, &rules, &on_s, 'S'), vec![]);
}

#[test]
fn two_c_has_ten_states() {
    let grammar = two_c();
    let rules = grammar.productions();
    let start = find_production(&rules, START_RULE, &vec!['S']).unwrap();
    let states = get_states(&grammar, &rules, start);
    assert_eq!(states.len(), 10);
    let initial = closure(&grammar, &rules, &vec![LR1Situation::new(start, 0, END_TERMINAL)]);
    assert_eq!(find_state(&states, &initial), Some(0));
    for (number, state) in states.iter().enumerate() {
        assert_eq!(find_state(&states, state), Some(number));
        assert!(!state.is_empty());
    }
    assert_eq!(find_state(&states, &vec![]), None);
}

#[test]
fn the_table_of_two_c_accepts_in_the_state_after_the_start_symbol() {
    let grammar = two_c();
    let rules = grammar.productions();
    let start = find_production(&rules, START_RULE, &vec!['S']).unwrap();
    let states = get_states(&grammar, &rules, start);
    let rows = LR1Parser::tabulate(&grammar, &rules, &states).unwrap();
    assert_eq!(rows.len(), 10);
    let after_s = match lookup(&rows, 0, 'S') {
        LR1Action::Shift(target) => target,
        other => panic!("{:?}", other),
    };
    assert_eq!(lookup(&rows, after_s, END_TERMINAL), LR1Action::Accept);
    assert_eq!(lookup(&rows, after_s, 'c'), LR1Action::NoAction);
    assert_eq!(lookup(&rows, 0, END_TERMINAL), LR1Action::NoAction);
    let after_d = match lookup(&rows, 0, 'd') {
        LR1Action::Shift(target) => target,
        other => panic!("{:?}", other),
    };
    assert_eq!(lookup(&rows, after_d, 'c'), LR1Action::Reduce(1, 'C'));
    assert_eq!(lookup(&rows, after_d, 'd'), LR1Action::Reduce(1, 'C'));
    assert_eq!(lookup(&rows, after_d, END_TERMINAL), LR1Action::NoAction);
    assert_eq!(lookup(&rows, 10, 'c'), LR1Action::NoAction);
    assert_eq!(drive(&rows, 0, &vec!['c', 'd', 'd']), true);
    assert_eq!(drive(&rows, 0, &vec!['d', 'd', 'd']), false);
    assert_eq!(drive(&rows, after_s, &vec![]), true);
}

#[test]
fn a_cell_takes_one_action() {
    let mut rows: Vec<HashMap<u32, LR1Action>> = vec![HashMap::new(), HashMap::new()];
    assert_eq!(lookup(&rows, 1, 'a'), LR1Action::NoAction);
    assert_eq!(add_transition(&mut rows, 1, 'a', &LR1Action::Shift(0)), Ok(()));
    assert_eq!(lookup(&rows, 1, 'a'), LR1Action::Shift(0));
    assert_eq!(lookup(&rows, 0, 'a'), LR1Action::NoAction);
    assert_eq!(lookup(&rows, 1, 'b'), LR1Action::NoAction);
    assert_eq!(add_transition(&mut rows, 1, 'a', &LR1Action::Shift(0)), Ok(()));
    assert_eq!(
        add_transition(&mut rows, 1, 'a', &LR1Action::Shift(1)),
        Err(FitError::NotLR1)
    );
    assert_eq!(
        add_transition(&mut rows, 1, 'a', &LR1Action::Reduce(1, 'S')),
        Err(FitError::NotLR1)
    );
    assert_eq!(add_transition(&mut rows, 1, 'a', &LR1Action::Accept), Err(FitError::NotLR1));
    assert_eq!(lookup(&rows, 1, 'a'), LR1Action::Shift(0));
    assert_eq!(add_transition(&mut rows, 1, 'a', &LR1Action::NoAction), Err(FitError::NotLR1));
    assert_eq!(add_transition(&mut rows, 0, 'b', &LR1Action::NoAction), Ok(()));
    assert_eq!(lookup(&rows, 0, 'b'), LR1Action::NoAction);
    assert_eq!(add_transition(&mut rows, 0, 'b', &LR1Action::Reduce(2, 'T')), Ok(()));
    assert_eq!(lookup(&rows, 0, 'b'), LR1Action::Reduce(2, 'T'));
    assert_eq!(LR1Action::default(), LR1Action::NoAction);
}

#[test]
fn the_driver_follows_the_table() {
    let mut rows: Vec<HashMap<u32, LR1Action>> = vec![HashMap::new(), HashMap::new(), HashMap::new()];
    rows[0].insert('a' as u32, LR1Action::Shift(1));
    rows[1].insert(END_TERMINAL as u32, LR1Action::Reduce(1, 'S'));
    rows[0].insert('S' as u32, LR1Action::Shift(2));
    rows[2].insert(END_TERMINAL as u32, LR1Action::Accept);
    assert_eq!(drive(&rows, 0, &vec!['a']), true);
    assert_eq!(drive(&rows, 0, &vec![]), false);
    assert_eq!(drive(&rows, 0, &vec!['a', 'a']), false);
    assert_eq!(drive(&rows, 0, &vec!['S']), true);
    assert_eq!(drive(&rows, 1, &vec![]), false);
    assert_eq!(drive(&rows, 7, &vec!['a']), false);
    rows[1].insert(END_TERMINAL as u32, LR1Action::Reduce(2, 'S'));
    assert_eq!(drive(&rows, 0, &vec!['a']), false);
    rows[1].insert(END_TERMINAL as u32, LR1Action::Shift(2));
    assert_eq!(drive(&rows, 0, &vec!['a']), false);
}
