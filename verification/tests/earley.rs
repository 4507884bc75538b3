use langram::earley::{holds, put, EarleyParser, EarleySituation};
use langram::grammar::find_production;
use langram::{CFGrammar, Parser, START_RULE};
use multimap::MultiMap;
use std::collections::HashSet;

fn arithmetic_grammar() -> CFGrammar {
    let terminals = HashSet::from(['a', '+', '*', '(', ')']);
    let non_terminals = HashSet::from(['S', 'T', 'F', 'N']);
    let mut rules = MultiMap::new();
    rules.insert('S', "N".to_string());
    rules.insert('N', "T+N".to_string());
    rules.insert('N', "T".to_string());
    rules.insert('T', "F*T".to_string());
    rules.insert('T', "F".to_string());
    rules.insert('F', "(N)".to_string());
    rules.insert('F', "a".to_string());
    let start = 'S';
    CFGrammar::new(&terminals, &non_terminals, &rules, start)
}

#[test]
fn earley_unit_test_1() {
    let grammar = arithmetic_grammar();
    let mut parser = EarleyParser::new();
    parser.fit(&grammar).expect("Fit unsuccessful");
    assert_eq!(Parser::predict(&mut parser, "(a+a)"), true);
}

#[test]
fn earley_unit_test_2() {
    let grammar = arithmetic_grammar();
    let mut parser = EarleyParser::new();
    parser.fit(&grammar).expect("Fit unsuccessful");
    assert_eq!(Parser::predict(&mut parser, "(a+a*a())"), false);
}

#[test]
fn the_chart_of_a_small_grammar() {
    let terminals = HashSet::from(['a', 'b']);
    let non_terminals = HashSet::from(['S', 'T']);
    let mut rules = MultiMap::new();
    rules.insert('S', "aT".to_string());
    rules.insert('T', "b".to_string());
    rules.insert('T', "".to_string());
    let grammar = CFGrammar::new(&terminals, &non_terminals, &rules, 'S');
    let list = grammar.productions();
    let start = find_production(&list, START_RULE, &vec!['S']).unwrap();
    let s_to_at = find_production(&list, 'S', &vec!['a', 'T']).unwrap();
    let t_to_b = find_production(&list, 'T', &vec!['b']).unwrap();
    let t_to_none = find_production(&list, 'T', &vec![]).unwrap();
    let mut parser = EarleyParser::new();
    parser.fit(&grammar).expect("Fit unsuccessful");
    assert_eq!(parser.predict("ab"), true);
    let chart = parser.situations();
    assert_eq!(chart.len(), 3);
    let layer = |k: usize| -> HashSet<EarleySituation> { chart[k].iter().copied().collect() };
    for k in 0..3 {
        assert_eq!(layer(k).len(), chart[k].len());
    }
    assert_eq!(
        layer(0),
        HashSet::from([EarleySituation::new(start, 0, 0), EarleySituation::new(s_to_at, 0, 0)])
    );
    assert_eq!(
        layer(1),
        HashSet::from([
            EarleySituation::new(s_to_at, 1, 0),
            EarleySituation::new(t_to_b, 0, 1),
            EarleySituation::new(t_to_none, 0, 1),
            EarleySituation::new(s_to_at, 2, 0),
            EarleySituation::new(start, 1, 0),
        ])
    );
    assert_eq!(
        layer(2),
        HashSet::from([
            EarleySituation::new(t_to_b, 1, 1),
            EarleySituation::new(s_to_at, 2, 0),
            EarleySituation::new(start, 1, 0),
        ])
    );
    assert_eq!(parser.predict("a"), true);
    assert_eq!(parser.situations().len(), 2);
    assert_eq!(parser.predict(""), false);
    assert_eq!(parser.situations().len(), 1);
}

#[test]
fn a_layer_takes_a_situation_once() {
    let mut layer = Vec::new();
    let first = EarleySituation::new(1, 0, 2);
    let second = EarleySituation { rule: 1, pos: 1, prev_cnt: 2 };
    assert!(!holds(&layer, first));
    put(&mut layer, first);
    put(&mut layer, second);
    put(&mut layer, first);
    assert_eq!(layer, vec![first, second]);
    assert!(holds(&layer, second));
    assert!(!holds(&layer, EarleySituation::new(1, 0, 3)));
}

#[test]
fn a_situation_knows_the_symbols_of_its_production() {
    let grammar = arithmetic_grammar();
    let list = grammar.productions();
    let rule = find_production(&list, 'N', &vec!['T', '+', 'N']).unwrap();
    let it = EarleySituation::new(rule, 1, 0);
    assert_eq!(it.nth(&list, 0), 'T');
    assert_eq!(it.nth(&list, 1), '+');
    assert_eq!(it.nth(&list, 2), 'N');
    assert_eq!(it.nth(&list, 3), '\0');
}
