use langram::earley::EarleyParser;
use langram::lr::LR1Parser;
use langram::{CFGrammar, FitError, Parser};
use multimap::MultiMap;
use std::collections::HashSet;

fn grammar(terminals: &str, non_terminals: &str, rules: &[(char, &str)], start: char) -> CFGrammar {
    let terminals: HashSet<char> = terminals.chars().collect();
    let non_terminals: HashSet<char> = non_terminals.chars().collect();
    let mut map = MultiMap::new();
    for (lhs, rhs) in rules {
        map.insert(*lhs, rhs.to_string());
    }
    CFGrammar::new(&terminals, &non_terminals, &map, start)
}

fn arithmetic() -> CFGrammar {
    grammar(
        "a+*()",
        "STFN",
        &[
            ('S', "N"),
            ('N', "T+N"),
            ('N', "T"),
            ('T', "F*T"),
            ('T', "F"),
            ('F', "(N)"),
            ('F', "a"),
        ],
        'S',
    )
}

fn two_c() -> CFGrammar {
    grammar("cd", "SC", &[('S', "CC"), ('C', "cC"), ('C', "d")], 'S')
}

fn earley(grammar: &CFGrammar) -> EarleyParser {
    let mut parser = EarleyParser::new();
    parser.fit(grammar).expect("Fit unsuccessful");
    parser
}

fn lr1(grammar: &CFGrammar) -> LR1Parser {
    let mut parser = LR1Parser::new();
    parser.fit(grammar).expect("Fit unsuccessful");
    parser
}

#[test]
fn earley_accepts_the_language_of_arithmetic() {
    let mut parser = earley(&arithmetic());
    for word in ["a", "a+a", "(a)", "a*a", "a+a+a", "(a+a)*a", "((a))", "a*(a+a)+a"] {
        assert_eq!(parser.predict(word), true, "{}", word);
    }
    for word in ["", "+", "a+", "(a", "a)", "aa", "a++a", "()", "(a+a*a())", "a*+a"] {
        assert_eq!(parser.predict(word), false, "{}", word);
    }
}

#[test]
fn earley_rejects_words_with_non_terminals() {
    let mut parser = earley(&arithmetic());
    assert_eq!(parser.predict("S"), false);
    assert_eq!(parser.predict("N"), false);
    assert_eq!(parser.predict("T+N"), false);
    assert_eq!(parser.predict("F*a+(N)"), false);
    assert_eq!(parser.predict("\u{1}"), false);
    assert_eq!(parser.predict("N+T"), false);
    assert_eq!(parser.predict("a+a"), true);
    let text = "STFN\na+*()\nS->N\nN->T+N\nN->T\nT->F*T\nT->F\nF->(N)\nF->a\nS";
    let mut loaded = earley(&CFGrammar::parse(text).unwrap());
    assert_eq!(loaded.predict("S"), false);
    assert_eq!(loaded.predict("(a+a)"), true);
}

#[test]
fn earley_handles_empty_and_recursive_productions() {
    let mut parser = earley(&grammar("a", "S", &[('S', "Sa"), ('S', "a"), ('S', "")], 'S'));
    assert_eq!(parser.predict(""), true);
    assert_eq!(parser.predict("a"), true);
    assert_eq!(parser.predict("aaaa"), true);
    assert_eq!(parser.predict("ab"), false);
    let mut nested = earley(&grammar("ab", "SA", &[('S', "AAb"), ('A', ""), ('A', "aA")], 'S'));
    assert_eq!(nested.predict("b"), true);
    assert_eq!(nested.predict("aab"), true);
    assert_eq!(nested.predict("aa"), false);
    let mut cyclic = earley(&grammar("a", "SA", &[('S', "A"), ('A', "S"), ('A', "a")], 'S'));
    assert_eq!(cyclic.predict("a"), true);
    assert_eq!(cyclic.predict("aa"), false);
}

#[test]
fn earley_reads_symbols_beyond_ascii() {
    let mut parser = earley(&grammar("éλ", "S", &[('S', "éSλ"), ('S', "é")], 'S'));
    assert_eq!(parser.predict("é"), true);
    assert_eq!(parser.predict("ééλ"), true);
    assert_eq!(parser.predict("éééλλ"), true);
    assert_eq!(parser.predict("éλ"), false);
}

#[test]
fn recognizers_without_a_grammar_accept_nothing() {
    let mut parser = EarleyParser::new();
    assert_eq!(parser.predict(""), false);
    assert_eq!(parser.predict("a"), false);
    let mut table = LR1Parser::new();
    assert_eq!(table.predict(""), false);
    assert_eq!(table.predict("cdd"), false);
}

#[test]
fn asking_twice_gives_one_answer() {
    let mut parser = earley(&arithmetic());
    for word in ["(a+a)", "(a+a*a())", "", "a"] {
        let first = parser.predict(word);
        let second = parser.predict(word);
        assert_eq!(first, second);
    }
    let mut table = lr1(&two_c());
    for word in ["cdd", "ddd", "", "dd"] {
        let first = table.predict(word);
        let second = table.predict(word);
        assert_eq!(first, second);
    }
}

#[test]
fn fitting_twice_is_fitting_once() {
    let grammar = arithmetic();
    let mut once = EarleyParser::new();
    assert_eq!(once.fit(&grammar), Ok(()));
    let mut twice = EarleyParser::new();
    assert_eq!(twice.fit(&grammar), Ok(()));
    assert_eq!(twice.fit(&grammar), Ok(()));
    let small = two_c();
    let mut table_once = LR1Parser::new();
    assert_eq!(table_once.fit(&small), Ok(()));
    let mut table_twice = LR1Parser::new();
    assert_eq!(table_twice.fit(&small), Ok(()));
    assert_eq!(table_twice.fit(&small), Ok(()));
    for word in ["", "d", "dd", "cdd", "ddd", "cdcd", "ccdccd", "cd"] {
        assert_eq!(table_once.predict(word), table_twice.predict(word));
    }
    for word in ["", "a", "a+a", "(a)", ")a("] {
        assert_eq!(once.predict(word), twice.predict(word));
    }
    let bad = grammar_with_terminal_on_the_left();
    assert_eq!(twice.fit(&bad), Err(FitError::NotContextFree));
    assert_eq!(twice.fit(&bad), Err(FitError::NotContextFree));
    assert_eq!(twice.predict("a+a"), true);
}

fn grammar_with_terminal_on_the_left() -> CFGrammar {
    grammar("ab", "S", &[('S', "a"), ('b', "a")], 'S')
}

#[test]
fn the_empty_word_is_rejected_without_empty_productions() {
    assert_eq!(earley(&arithmetic()).predict(""), false);
    assert_eq!(earley(&two_c()).predict(""), false);
    assert_eq!(lr1(&two_c()).predict(""), false);
    assert_eq!(lr1(&arithmetic()).predict(""), false);
}

#[test]
fn a_word_with_an_unknown_symbol_is_rejected() {
    let mut parser = earley(&arithmetic());
    assert_eq!(parser.predict("b"), false);
    assert_eq!(parser.predict("a+b"), false);
    assert_eq!(parser.predict("(a)x"), false);
    let mut table = lr1(&two_c());
    assert_eq!(table.predict("cxd"), false);
    assert_eq!(table.predict("cdde"), false);
    assert_eq!(table.predict("a"), false);
}

#[test]
fn a_terminal_on_the_left_is_refused() {
    let bad = grammar_with_terminal_on_the_left();
    let mut parser = EarleyParser::new();
    assert_eq!(parser.fit(&bad), Err(FitError::NotContextFree));
    assert_eq!(parser.predict("a"), false);
    let mut table = LR1Parser::new();
    assert_eq!(table.fit(&bad), Err(FitError::NotContextFree));
    assert_eq!(table.predict("a"), false);
}

#[test]
fn a_refused_grammar_leaves_the_earley_recognizer_as_it_was() {
    let mut parser = earley(&two_c());
    assert_eq!(parser.fit(&grammar_with_terminal_on_the_left()), Err(FitError::NotContextFree));
    assert_eq!(parser.predict("cdd"), true);
    assert_eq!(parser.predict("a"), false);
}

#[test]
fn a_conflict_is_refused() {
    let ambiguous = grammar("a", "S", &[('S', "SS"), ('S', "a")], 'S');
    let mut table = LR1Parser::new();
    assert_eq!(table.fit(&ambiguous), Err(FitError::NotLR1));
    assert_eq!(table.predict("a"), false);
    let two_reductions = grammar("a", "SAB", &[('S', "A"), ('S', "B"), ('A', "a"), ('B', "a")], 'S');
    assert_eq!(table.fit(&two_reductions), Err(FitError::NotLR1));
    let with_empty = grammar("a", "S", &[('S', "Sa"), ('S', "a"), ('S', "")], 'S');
    assert_eq!(table.fit(&with_empty), Err(FitError::NotLR1));
    let mut earley_parser = EarleyParser::new();
    assert_eq!(earley_parser.fit(&ambiguous), Ok(()));
    assert_eq!(earley_parser.predict("aaa"), true);
}

#[test]
fn a_refused_grammar_leaves_the_lr_recognizer_without_a_table() {
    let mut table = lr1(&two_c());
    assert_eq!(table.predict("cdd"), true);
    let ambiguous = grammar("a", "S", &[('S', "SS"), ('S', "a")], 'S');
    assert_eq!(table.fit(&ambiguous), Err(FitError::NotLR1));
    assert_eq!(table.predict("cdd"), false);
    assert_eq!(table.predict("a"), false);
}

#[test]
fn both_recognizers_agree_on_arithmetic() {
    let grammar = arithmetic();
    let mut chart = earley(&grammar);
    let mut table = lr1(&grammar);
    for word in ["a", "a+a", "(a)", "a*a", "a+a+a"] {
        assert_eq!(chart.predict(word), true, "{}", word);
        assert_eq!(table.predict(word), true, "{}", word);
    }
    for word in ["", "a+", "(a", "a)", "aa", "(a+a*a())", "+a", "a**a", "((a)"] {
        assert_eq!(chart.predict(word), false, "{}", word);
        assert_eq!(table.predict(word), false, "{}", word);
    }
}

#[test]
fn both_recognizers_agree_on_two_c() {
    let grammar = two_c();
    let mut chart = earley(&grammar);
    let mut table = lr1(&grammar);
    for word in ["dd", "cdd", "dcd", "cdcd", "ccdd", "cccdccd"] {
        assert_eq!(chart.predict(word), true, "{}", word);
        assert_eq!(table.predict(word), true, "{}", word);
    }
    for word in ["", "d", "c", "ddd", "cd", "ddc", "cdcdd"] {
        assert_eq!(chart.predict(word), false, "{}", word);
        assert_eq!(table.predict(word), false, "{}", word);
    }
}

#[test]
fn lr_reduces_through_unit_productions() {
    let chain = grammar("xy", "SAB", &[('S', "AB"), ('A', "B"), ('B', "x"), ('B', "yB")], 'S');
    let mut table = lr1(&chain);
    assert_eq!(table.predict("xx"), true);
    assert_eq!(table.predict("yxx"), true);
    assert_eq!(table.predict("xyyx"), true);
    assert_eq!(table.predict("x"), false);
    assert_eq!(table.predict("xxx"), false);
}

#[test]
fn fit_errors_have_messages() {
    assert_eq!(FitError::NotContextFree.message(), "The grammar is not context free.");
    assert_eq!(FitError::NotLR1.message(), "The given grammar is not LR(1).");
}

#[test]
fn both_recognizers_reject_words_with_non_terminals() {
    let grammar = two_c();
    let mut chart = earley(&grammar);
    let mut table = lr1(&grammar);
    for word in ["dC", "Cd", "CC", "S", "cCd", "\u{1}"] {
        assert_eq!(chart.predict(word), false, "{}", word);
        assert_eq!(table.predict(word), false, "{}", word);
    }
    let mut loaded = lr1(&CFGrammar::parse("SC\ncd\nS->CC\nC->cC\nC->d\nS").unwrap());
    assert_eq!(loaded.predict("S"), false);
    assert_eq!(loaded.predict("cdd"), true);
}

#[test]
fn both_recognizers_reject_words_with_the_end_marker() {
    let grammar = two_c();
    let mut chart = earley(&grammar);
    let mut table = lr1(&grammar);
    for word in ["cdd\u{2}", "cdd\u{2}x", "\u{2}", "\u{2}cdd", "c\u{2}dd"] {
        assert_eq!(chart.predict(word), false, "{}", word);
        assert_eq!(table.predict(word), false, "{}", word);
    }
    let single = grammar_of_one_word();
    let mut chart = earley(&single);
    let mut table = lr1(&single);
    assert_eq!(chart.predict("c"), true);
    assert_eq!(table.predict("c"), true);
    assert_eq!(chart.predict("c\u{2}"), false);
    assert_eq!(table.predict("c\u{2}"), false);
}

fn grammar_of_one_word() -> CFGrammar {
    grammar("c", "S", &[('S', "c")], 'S')
}

#[test]
fn the_recognizers_part_on_grammars_with_empty_productions() {
    let grammar = grammar(
        "abc",
        "SAB",
        &[('S', "ABc"), ('A', "a"), ('B', ""), ('B', "b")],
        'S',
    );
    let mut chart = earley(&grammar);
    assert_eq!(chart.predict("ac"), true);
    assert_eq!(chart.predict("abc"), true);
    let mut table = lr1(&grammar);
    assert_eq!(table.predict("abc"), true);
    assert_eq!(table.predict("ac"), false);
}

fn words_up_to(alphabet: &[char], length: usize) -> Vec<String> {
    let mut words = vec![String::new()];
    let mut last = vec![String::new()];
    for _ in 0..length {
        let mut next = Vec::new();
        for word in &last {
            for symbol in alphabet {
                let mut longer = word.clone();
                longer.push(*symbol);
                next.push(longer);
            }
        }
        words.extend(next.iter().cloned());
        last = next;
    }
    words
}

fn is_two_c_word(word: &str) -> bool {
    let parts: Vec<&str> = word.split('d').collect();
    parts.len() == 3 && parts[2].is_empty() && parts.iter().all(|part| part.chars().all(|c| c == 'c'))
}

#[test]
fn both_recognizers_know_every_short_word_of_two_c() {
    let grammar = two_c();
    let mut chart = earley(&grammar);
    let mut table = lr1(&grammar);
    let words = words_up_to(&['c', 'd'], 8);
    assert_eq!(words.len(), 511);
    let mut accepted = 0;
    for word in &words {
        let expected = is_two_c_word(word);
        assert_eq!(chart.predict(word), expected, "{}", word);
        assert_eq!(table.predict(word), expected, "{}", word);
        if expected {
            accepted += 1;
        }
    }
    assert_eq!(accepted, 28);
}

#[test]
fn both_recognizers_agree_on_every_short_word_of_arithmetic() {
    let grammar = arithmetic();
    let mut chart = earley(&grammar);
    let mut table = lr1(&grammar);
    let mut accepted = 0;
    for word in words_up_to(&['a', '+', '*', '(', ')'], 5) {
        let answer = chart.predict(&word);
        assert_eq!(table.predict(&word), answer, "{}", word);
        if answer {
            accepted += 1;
        }
    }
    assert_eq!(accepted, 15);
}

#[test]
fn a_copy_of_a_recognizer_answers_alike() {
    let grammar = arithmetic();
    let mut chart = earley(&grammar);
    assert_eq!(chart.predict("a+a"), true);
    let mut chart_copy = chart.clone();
    assert_eq!(chart_copy.situations(), chart.situations());
    let mut table = lr1(&grammar);
    let mut table_copy = table.clone();
    for word in ["", "a", "a+a", "(a)", "a+", "S", "a\u{2}"] {
        assert_eq!(chart_copy.predict(word), chart.predict(word), "{}", word);
        assert_eq!(table_copy.predict(word), table.predict(word), "{}", word);
    }
    let mut empty = LR1Parser::new().clone();
    assert_eq!(empty.predict("a"), false);
    let mut unfitted = EarleyParser::new().clone();
    assert_eq!(unfitted.predict("a"), false);
}

#[test]
fn recognizers_can_be_shown() {
    let grammar = two_c();
    let table = lr1(&grammar);
    let shown = format!("{:?}", table);
    assert!(shown.contains("LR1Parser"));
    assert!(shown.contains("Accept"));
    let chart = earley(&grammar);
    assert!(format!("{:?}", chart).contains("EarleyParser"));
}

#[test]
fn a_new_or_fitted_earley_recognizer_has_no_chart() {
    let mut parser = EarleyParser::new();
    assert_eq!(parser.situations().len(), 0);
    parser.fit(&two_c()).expect("Fit unsuccessful");
    assert_eq!(parser.situations().len(), 0);
    assert_eq!(parser.predict("cdd"), true);
    assert_eq!(parser.situations().len(), 4);
    parser.fit(&two_c()).expect("Fit unsuccessful");
    assert_eq!(parser.situations().len(), 0);
    assert_eq!(
        parser.fit(&grammar_with_terminal_on_the_left()),
        Err(FitError::NotContextFree)
    );
    assert_eq!(parser.situations().len(), 0);
}

#[test]
fn fitting_twice_gives_the_same_table() {
    let expressions = arithmetic();
    let mut once = LR1Parser::new();
    assert_eq!(once.fit(&expressions), Ok(()));
    let mut twice = lr1(&two_c());
    assert_eq!(twice.fit(&expressions), Ok(()));
    assert_eq!(twice.fit(&expressions), Ok(()));
    assert_eq!(once.transitions(), twice.transitions());
    assert_eq!(once.start(), twice.start());
    assert_eq!(once.transitions().len(), 23);
    let mut refused = lr1(&two_c());
    let ambiguous = grammar("a", "S", &[('S', "SS"), ('S', "a")], 'S');
    assert_eq!(refused.fit(&ambiguous), Err(FitError::NotLR1));
    assert_eq!(refused.transitions().len(), 0);
    assert_eq!(refused.start(), 0);
}
