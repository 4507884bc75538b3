use langram::grammar::{chars_of, find_production, same_symbols, sorted_symbols, Production};
use langram::loader::{
    check_key, check_lines, check_parts, check_space, check_start, split_lines, split_rule,
    symbols_of,
};
use langram::LoadError;
use std::collections::HashSet;

#[test]
fn lines_end_at_line_feeds() {
    assert_eq!(split_lines("a\nb\nc"), vec!["a", "b", "c"]);
    assert_eq!(split_lines("a\nb\n"), vec!["a", "b"]);
    assert_eq!(split_lines("a\n\nb"), vec!["a", "", "b"]);
    assert_eq!(split_lines("\n"), vec![""]);
    assert_eq!(split_lines(""), Vec::<&str>::new());
    assert_eq!(split_lines("one"), vec!["one"]);
}

#[test]
fn lines_lose_a_carriage_return_before_the_line_feed() {
    assert_eq!(split_lines("a\r\nb\r\n"), vec!["a", "b"]);
    assert_eq!(split_lines("a\rb\nc\r"), vec!["a\rb", "c\r"]);
    assert_eq!(split_lines("\r\n"), vec![""]);
    assert_eq!(split_lines("a\r\r\nb"), vec!["a\r", "b"]);
}

#[test]
fn rules_split_at_arrows() {
    assert_eq!(split_rule("S->ab"), vec!["S", "ab"]);
    assert_eq!(split_rule(" S  ->  a b "), vec!["S", "a b"]);
    assert_eq!(split_rule("S->T->a"), vec!["S", "T", "a"]);
    assert_eq!(split_rule("S->"), vec!["S", ""]);
    assert_eq!(split_rule("->"), vec!["", ""]);
    assert_eq!(split_rule("S-->a"), vec!["S-", "a"]);
    assert_eq!(split_rule("S->->a"), vec!["S", "", "a"]);
    assert_eq!(split_rule("S - > a"), vec!["S - > a"]);
    assert_eq!(split_rule(""), vec![""]);
    assert_eq!(split_rule("S-"), vec!["S-"]);
    assert_eq!(split_rule("\u{a0}é\u{3000}->\tλ\n"), vec!["é", "λ"]);
}

#[test]
fn white_space_is_what_unicode_says() {
    for code in 0u32..0x3100 {
        if let Some(c) = char::from_u32(code) {
            assert_eq!(check_space(c), c.is_whitespace(), "{:x}", code);
        }
    }
    assert_eq!(check_space('\u{feff}'), false);
    assert_eq!(check_space('\u{10ffff}'), false);
}

#[test]
fn checks_count_lines_and_parts() {
    assert_eq!(check_lines(&vec!["a", "b", "c"]), Err(LoadError::TooFewLines));
    assert_eq!(check_lines(&vec!["a", "b", "c", "d"]), Ok(()));
    assert_eq!(check_lines(&vec![]), Err(LoadError::TooFewLines));
    assert_eq!(check_parts(&vec!["a", "b"]), Ok(()));
    assert_eq!(check_parts(&vec!["a"]), Err(LoadError::NotOneArrow));
    assert_eq!(check_parts(&vec!["a", "b", "c"]), Err(LoadError::NotOneArrow));
}

#[test]
fn checks_take_single_symbols() {
    assert_eq!(check_key("S"), Ok('S'));
    assert_eq!(check_key("é"), Ok('é'));
    assert_eq!(check_key(""), Err(LoadError::KeyNotOneSymbol));
    assert_eq!(check_key("SS"), Err(LoadError::KeyNotOneSymbol));
    assert_eq!(check_start("S"), Ok('S'));
    assert_eq!(check_start(""), Err(LoadError::StartNotOneSymbol));
    assert_eq!(check_start("ST"), Err(LoadError::StartNotOneSymbol));
}

#[test]
fn symbols_of_a_line_form_a_set() {
    assert_eq!(symbols_of("abca"), HashSet::from(['a', 'b', 'c']));
    assert_eq!(symbols_of(""), HashSet::new());
}

#[test]
fn characters_are_taken_one_by_one() {
    assert_eq!(chars_of("aé+"), vec!['a', 'é', '+']);
    assert_eq!(chars_of(""), Vec::<char>::new());
    assert!(same_symbols(&vec!['a', 'b'], &vec!['a', 'b']));
    assert!(!same_symbols(&vec!['a', 'b'], &vec!['a', 'c']));
    assert!(!same_symbols(&vec!['a'], &vec!['a', 'a']));
    assert!(same_symbols(&vec![], &vec![]));
}

#[test]
fn symbols_are_sorted_by_code() {
    assert_eq!(sorted_symbols(&vec!['c', 'a', 'b']), vec!['a', 'b', 'c']);
    assert_eq!(sorted_symbols(&vec!['b', 'a', 'b', 'a']), vec!['a', 'b']);
    assert_eq!(sorted_symbols(&vec!['é', 'Z', '\u{1}', 'a']), vec!['\u{1}', 'Z', 'a', 'é']);
    assert_eq!(sorted_symbols(&vec![]), Vec::<char>::new());
}

#[test]
fn productions_are_found_by_value() {
    let list = vec![
        Production { lhs: 'S', rhs: vec!['a', 'S'] },
        Production { lhs: 'S', rhs: vec![] },
        Production { lhs: 'T', rhs: vec!['a', 'S'] },
    ];
    assert_eq!(find_production(&list, 'S', &vec!['a', 'S']), Some(0));
    assert_eq!(find_production(&list, 'S', &vec![]), Some(1));
    assert_eq!(find_production(&list, 'T', &vec!['a', 'S']), Some(2));
    assert_eq!(find_production(&list, 'T', &vec![]), None);
    assert_eq!(find_production(&list, 'S', &vec!['a']), None);
}
