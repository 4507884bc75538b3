use langram::{CFGrammar, LoadError, END_TERMINAL, EPS_TERMINAL, START_RULE};
use multimap::MultiMap;
use std::collections::HashSet;
use std::str::FromStr;

fn get_test_grammar() -> CFGrammar {
    let terminals = HashSet::from(['a', '+', '*', '(', ')']);
    let non_terminals = HashSet::from(['S', 'T', 'F', 'N']);
    let mut rules = MultiMap::new();
    rules.insert('S', "N".to_string());
    rules.insert('N', "T+N".to_string());
    rules.insert('N', "T".to_string());
    rules.insert('T', "F*T".to_string());
    rules.insert('T', "F".to_string());
    rules.insert('F', "(N)".to_string());
    rules.insert('F', "a".to_string());
    let start = 'S';
    CFGrammar::new(&terminals, &non_terminals, &rules, start)
}

#[test]
fn grammar_unit_test_1() {
    let test_grammar = get_test_grammar();
    let parsed_grammar =
        CFGrammar::from_str("STFN\na+*()\nS->N\nN->T+N\nN->T\nT->F*T\nT->F\nF->(N)\nF->a\nS")
            .unwrap();
    assert_eq!(test_grammar.non_terminals(), parsed_grammar.non_terminals());
    assert_eq!(test_grammar.terminals(), parsed_grammar.terminals());
    assert_eq!(test_grammar.rules(), parsed_grammar.rules());
    assert_eq!(test_grammar.start(), parsed_grammar.start());
}

#[test]
fn grammar_should_fail_1() {
    let grammar = CFGrammar::from_str("S\nab\nS->a\nb->a\nS");
    assert_eq!(grammar.is_err(), true);
}

#[test]
fn grammar_should_fail_2() {
    let grammar = CFGrammar::from_str("S\nab\nSS->a\nb->a\nS");
    assert_eq!(grammar.is_err(), true);
}

#[test]
fn grammar_should_fail_3() {
    let grammar = CFGrammar::from_str("S\nab\nS");
    assert_eq!(grammar.is_err(), true);
}

#[test]
fn grammar_should_fail_4() {
    let grammar = CFGrammar::from_str("S\nab\nS->a\nS->b\nSS");
    assert_eq!(grammar.is_err(), true);
}

#[test]
fn grammar_should_fail_5() {
    let grammar = CFGrammar::from_str("ST\nab\nS->T->a\nS");
    assert_eq!(grammar.is_err(), true);
}

#[test]
fn new_adds_the_reserved_symbols() {
    let grammar = get_test_grammar();
    assert!(grammar.is_terminal(END_TERMINAL));
    assert!(grammar.is_terminal(EPS_TERMINAL));
    assert!(grammar.is_non_terminal(START_RULE));
    assert!(grammar.is_terminal('a'));
    assert!(grammar.is_terminal(')'));
    assert!(!grammar.is_terminal('S'));
    assert!(grammar.is_non_terminal('F'));
    assert!(!grammar.is_non_terminal('a'));
    assert!(!grammar.is_non_terminal(END_TERMINAL));
    assert_eq!(grammar.terminals().len(), 7);
    assert_eq!(grammar.non_terminals().len(), 5);
    assert_eq!(grammar.start(), START_RULE);
}

#[test]
fn new_adds_the_start_production() {
    let grammar = get_test_grammar();
    assert_eq!(grammar.get_start_rule(), (START_RULE, "S".to_string()));
    assert_eq!(grammar.rules().get_vec(&START_RULE), Some(&vec!["S".to_string()]));
    assert_eq!(
        grammar.rules().get_vec(&'N'),
        Some(&vec!["T+N".to_string(), "T".to_string()])
    );
    assert_eq!(grammar.rules().len(), 5);
}

#[test]
fn new_leaves_its_arguments_alone() {
    let terminals = HashSet::from(['a']);
    let non_terminals = HashSet::from(['S']);
    let mut rules = MultiMap::new();
    rules.insert('S', "a".to_string());
    let grammar = CFGrammar::new(&terminals, &non_terminals, &rules, 'S');
    assert_eq!(terminals.len(), 1);
    assert_eq!(non_terminals.len(), 1);
    assert_eq!(rules.len(), 1);
    assert_eq!(grammar.rules().len(), 2);
}

#[test]
fn clone_keeps_the_grammar() {
    let grammar = get_test_grammar();
    let copy = grammar.clone();
    assert_eq!(grammar.terminals(), copy.terminals());
    assert_eq!(grammar.non_terminals(), copy.non_terminals());
    assert_eq!(grammar.rules(), copy.rules());
    assert_eq!(grammar.start(), copy.start());
}

#[test]
fn productions_lists_each_production_once() {
    let terminals = HashSet::from(['a', 'b']);
    let non_terminals = HashSet::from(['S', 'T']);
    let mut rules = MultiMap::new();
    rules.insert('S', "aT".to_string());
    rules.insert('S', "b".to_string());
    rules.insert('S', "aT".to_string());
    rules.insert('T', "".to_string());
    let grammar = CFGrammar::new(&terminals, &non_terminals, &rules, 'S');
    let list = grammar.productions();
    assert_eq!(list.len(), 4);
    let seen: Vec<(char, String)> = list
        .iter()
        .map(|p| (p.lhs, p.rhs.iter().collect::<String>()))
        .collect();
    assert_eq!(
        seen,
        vec![
            (START_RULE, "S".to_string()),
            ('S', "aT".to_string()),
            ('S', "b".to_string()),
            ('T', "".to_string()),
        ]
    );
    let of_s: Vec<String> = list
        .iter()
        .filter(|p| p.lhs == 'S')
        .map(|p| p.rhs.iter().collect::<String>())
        .collect();
    assert_eq!(of_s, vec!["aT".to_string(), "b".to_string()]);
    assert!(grammar.is_context_free(&list));
}

#[test]
fn productions_stand_in_the_order_of_their_left_sides() {
    let grammar = get_test_grammar();
    let seen: Vec<(char, String)> = grammar
        .productions()
        .iter()
        .map(|p| (p.lhs, p.rhs.iter().collect::<String>()))
        .collect();
    assert_eq!(
        seen,
        vec![
            (START_RULE, "S".to_string()),
            ('F', "(N)".to_string()),
            ('F', "a".to_string()),
            ('N', "T+N".to_string()),
            ('N', "T".to_string()),
            ('S', "N".to_string()),
            ('T', "F*T".to_string()),
            ('T', "F".to_string()),
        ]
    );
}

#[test]
fn a_terminal_on_the_left_is_not_context_free() {
    let terminals = HashSet::from(['a', 'b']);
    let non_terminals = HashSet::from(['S']);
    let mut rules = MultiMap::new();
    rules.insert('S', "a".to_string());
    rules.insert('b', "a".to_string());
    let grammar = CFGrammar::new(&terminals, &non_terminals, &rules, 'S');
    let list = grammar.productions();
    assert!(!grammar.is_context_free(&list));
}

#[test]
fn parse_trims_around_the_arrow() {
    let grammar = CFGrammar::from_str("S\nab\n  S \t->  a b \nS -> b\nS").unwrap();
    assert_eq!(
        grammar.rules().get_vec(&'S'),
        Some(&vec!["a b".to_string(), "b".to_string()])
    );
    assert_eq!(grammar.get_start_rule(), (START_RULE, "S".to_string()));
}

#[test]
fn parse_takes_both_line_endings() {
    let plain = CFGrammar::from_str("S\nab\nS->a\nS->b\nS").unwrap();
    let windows = CFGrammar::from_str("S\r\nab\r\nS->a\r\nS->b\r\nS\r\n").unwrap();
    let closed = CFGrammar::from_str("S\nab\nS->a\nS->b\nS\n").unwrap();
    assert_eq!(plain.rules(), windows.rules());
    assert_eq!(plain.terminals(), windows.terminals());
    assert_eq!(plain.non_terminals(), windows.non_terminals());
    assert_eq!(plain.rules(), closed.rules());
    assert_eq!(plain.get_start_rule(), windows.get_start_rule());
}

#[test]
fn parse_keeps_an_empty_right_side() {
    let grammar = CFGrammar::from_str("S\na\nS->Sa\nS->a\nS->\nS").unwrap();
    assert_eq!(
        grammar.rules().get_vec(&'S'),
        Some(&vec!["Sa".to_string(), "a".to_string(), "".to_string()])
    );
}

#[test]
fn parse_names_what_is_wrong() {
    assert_eq!(CFGrammar::parse("S\nab\nS").err(), Some(LoadError::TooFewLines));
    assert_eq!(CFGrammar::parse("").err(), Some(LoadError::TooFewLines));
    assert_eq!(
        CFGrammar::parse("ST\nab\nS->T->a\nS").err(),
        Some(LoadError::NotOneArrow)
    );
    assert_eq!(CFGrammar::parse("S\nab\nS a\nS->b\nS").err(), Some(LoadError::NotOneArrow));
    assert_eq!(
        CFGrammar::parse("S\nab\nSS->a\nb->a\nS").err(),
        Some(LoadError::KeyNotOneSymbol)
    );
    assert_eq!(CFGrammar::parse("S\nab\n->a\nS->a\nS").err(), Some(LoadError::KeyNotOneSymbol));
    assert_eq!(
        CFGrammar::parse("S\nab\nS->a\nb->a\nS").err(),
        Some(LoadError::KeyNotNonTerminal)
    );
    assert_eq!(
        CFGrammar::parse("S\u{1}\nab\nS->a\n\u{1}->a\nS").err(),
        Some(LoadError::KeyReserved)
    );
    assert_eq!(
        CFGrammar::parse("S\nab\nS->a\nS->b\nSS").err(),
        Some(LoadError::StartNotOneSymbol)
    );
    assert_eq!(
        CFGrammar::parse("S\nab\nS->a\nS->b\n").err(),
        Some(LoadError::StartNotOneSymbol)
    );
}

#[test]
fn parse_reports_the_first_error() {
    assert_eq!(
        CFGrammar::parse("S\nab\nb->a\nSS->a\nSS").err(),
        Some(LoadError::KeyNotNonTerminal)
    );
    assert_eq!(
        CFGrammar::parse("S\nab\nS->a\nSS->a\nSS").err(),
        Some(LoadError::KeyNotOneSymbol)
    );
}

#[test]
fn load_errors_have_messages() {
    assert_eq!(LoadError::TooFewLines.message(), "Invalid input string format.");
    assert_eq!(
        LoadError::NotOneArrow.message(),
        "There must be exactly one delimiter in the rule."
    );
    assert_eq!(LoadError::StartNotOneSymbol.message(), "There must be exactly one start rule.");
}
