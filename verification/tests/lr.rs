use langram::lr::LR1Parser;
use langram::{CFGrammar, Parser};
use multimap::MultiMap;
use std::collections::HashSet;
use std::str::FromStr;

fn two_c_grammar() -> CFGrammar {
    let terminals = HashSet::from(['c', 'd']);
    let non_terminals = HashSet::from(['S', 'C']);
    let mut rules = MultiMap::new();
    rules.insert('S', "CC".to_string());
    rules.insert('C', "cC".to_string());
    rules.insert('C', "d".to_string());
    let start = 'S';
    CFGrammar::new(&terminals, &non_terminals, &rules, start)
}

#[test]
fn lr1_unit_test_1() {
    let grammar = two_c_grammar();
    let mut parser = LR1Parser::new();
    parser.fit(&grammar).expect("Fit unsuccessful");
    assert_eq!(Parser::predict(&mut parser, "cdd"), true);
}

#[test]
fn lr1_unit_test_2() {
    let grammar = two_c_grammar();
    let mut parser = LR1Parser::new();
    parser.fit(&grammar).expect("Fit unsuccessful");
    assert_eq!(Parser::predict(&mut parser, "ddd"), false);
}

#[test]
fn lr1_should_fail_1() {
    let grammar =
        CFGrammar::from_str("S\na\nS->Sa\nS->a\nS->\nS").expect("Failed to parse the grammar.");
    let mut parser = LR1Parser::new();
    assert_eq!(parser.fit(&grammar).is_err(), true);
}
