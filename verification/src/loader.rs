//! Reading a grammar from text.
//!
//! The text has one line of non-terminals, one line of terminals, at least
//! one production per line in the form `A -> xyz`, and a last line with the
//! start symbol. Lines end with a line feed, or a carriage return and a line
//! feed; the end of the last line is optional.
use crate::grammar::{augment, CFGrammar, GrammarModel, chars_of, START_RULE};
use crate::items::lemma_push_to_set;
use crate::store::{add_rule, add_symbol, empty_rules, has_symbol, no_rules, rule_table, with_rule};
use std::collections::HashSet;
use std::str::FromStr;
use vstd::prelude::*;
use vstd::string::StrSliceExecFns;

verus! {

/// What is wrong with a grammar text.
#[derive(Clone, Copy, Debug, PartialEq, Eq, Structural)]
pub enum LoadError {
    /// The text has fewer than four lines.
    TooFewLines,
    /// A production line does not hold exactly one `->`.
    NotOneArrow,
    /// The left-hand side of a production is not a single symbol.
    KeyNotOneSymbol,
    /// The left-hand side of a production is not among the non-terminals.
    KeyNotNonTerminal,
    /// The left-hand side of a production is the reserved start symbol.
    KeyReserved,
    /// The last line is not a single symbol.
    StartNotOneSymbol,
}

impl LoadError {
    /// The error in words.
    pub fn message(&self) -> (text: &'static str)
        ensures
            text@ == match *self {
                LoadError::TooFewLines => "Invalid input string format."@,
                LoadError::NotOneArrow => "There must be exactly one delimiter in the rule."@,
                LoadError::KeyNotOneSymbol =>
                    "There must be exactly one non-terminal in the left part of the CF grammar."@,
                LoadError::KeyNotNonTerminal =>
                    "Only non-terminals can be present in the left part of the CF grammar."@,
                LoadError::KeyReserved =>
                    "The reserved start symbol cannot be the left part of a rule."@,
                LoadError::StartNotOneSymbol => "There must be exactly one start rule."@,
            },
    {
        match self {
            LoadError::TooFewLines => "Invalid input string format.",
            LoadError::NotOneArrow => "There must be exactly one delimiter in the rule.",
            LoadError::KeyNotOneSymbol => {
                "There must be exactly one non-terminal in the left part of the CF grammar."
            },
            LoadError::KeyNotNonTerminal => {
                "Only non-terminals can be present in the left part of the CF grammar."
            },
            LoadError::KeyReserved => {
                "The reserved start symbol cannot be the left part of a rule."
            },
            LoadError::StartNotOneSymbol => "There must be exactly one start rule.",
        }
    }
}

/// The character sequences of a list of string slices.
pub open spec fn slices(v: Seq<&str>) -> Seq<Seq<char>> {
    v.map_values(|s: &str| s@)
}

/// Where the line that holds place `from` ends: at the next line feed, or at
/// the end of the text.
pub open spec fn line_end(text: Seq<char>, from: int) -> int
    decreases text.len() - from,
{
    if from < 0 || from >= text.len() {
        text.len() as int
    } else if text[from] == '\n' {
        from
    } else {
        line_end(text, from + 1)
    }
}

/// A line ends no earlier than it starts, and within the text.
pub proof fn lemma_line_end(text: Seq<char>, from: int)
    requires
        0 <= from <= text.len(),
    ensures
        from <= line_end(text, from) <= text.len(),
        line_end(text, from) < text.len() ==> text[line_end(text, from)] == '\n',
        forall|i: int| from <= i < line_end(text, from) ==> text[i] != '\n',
    decreases text.len() - from,
{
    if from < text.len() && text[from] != '\n' {
        lemma_line_end(text, from + 1);
    }
}

/// The line that starts at `from`, without its line ending.
pub open spec fn line_at(text: Seq<char>, from: int) -> Seq<char> {
    let end = line_end(text, from);
    if end < text.len() && from < end && text[end - 1] == '\r' {
        text.subrange(from, end - 1)
    } else {
        text.subrange(from, end)
    }
}

/// The lines of the text from place `from` on.
pub open spec fn lines_from(text: Seq<char>, from: int) -> Seq<Seq<char>>
    decreases text.len() - from,
{
    if from < 0 || from >= text.len() {
        Seq::empty()
    } else {
        proof {
            lemma_line_end(text, from);
        }
        let end = line_end(text, from);
        if end >= text.len() {
            seq![line_at(text, from)]
        } else {
            seq![line_at(text, from)] + lines_from(text, end + 1)
        }
    }
}

/// The lines of a text.
pub fn split_lines<'a>(text: &'a str) -> (lines: Vec<&'a str>)
    ensures
        slices(lines@) == lines_from(text@, 0),
{
    let letters = chars_of(text);
    let n = letters.len();
    let mut lines: Vec<&'a str> = Vec::new();
    let mut from: usize = 0;
    while from < n
        invariant
            from <= n,
            n == text@.len(),
            letters@ == text@,
            slices(lines@) + lines_from(text@, from as int) == lines_from(text@, 0),
        decreases n - from,
    {
        let mut end: usize = from;
        while end < n && letters[end] != '\n'
            invariant
                from <= end <= n,
                n == text@.len(),
                letters@ == text@,
                line_end(text@, end as int) == line_end(text@, from as int),
            decreases n - end,
        {
            end += 1;
        }
        let stop = if end < n && from < end && letters[end - 1] == '\r' {
            end - 1
        } else {
            end
        };
        let line = text.substring_char(from, stop);
        let ghost before = slices(lines@);
        lines.push(line);
        proof {
            assert(line@ == line_at(text@, from as int));
            assert(slices(lines@) =~= before.push(line@));
            if end == n {
                assert(before.push(line@) + lines_from(text@, n as int) =~= before + seq![line@]);
            } else {
                assert(before.push(line@) + lines_from(text@, end + 1) =~= before + (seq![line@]
                    + lines_from(text@, end + 1)));
            }
        }
        if end == n {
            from = n;
        } else {
            from = end + 1;
        }
    }
    assert(slices(lines@) + Seq::<Seq<char>>::empty() =~= slices(lines@));
    lines
}

/// White space, as Unicode defines it.
pub open spec fn is_space(c: char) -> bool {
    let code = c as u32;
    ||| 0x09 <= code <= 0x0D
    ||| code == 0x20
    ||| code == 0x85
    ||| code == 0xA0
    ||| code == 0x1680
    ||| 0x2000 <= code <= 0x200A
    ||| code == 0x2028
    ||| code == 0x2029
    ||| code == 0x202F
    ||| code == 0x205F
    ||| code == 0x3000
}

/// Whether the character is white space.
pub fn check_space(c: char) -> (space: bool)
    ensures
        space == is_space(c),
{
    let code = c as u32;
    (0x09 <= code && code <= 0x0D) || code == 0x20 || code == 0x85 || code == 0xA0 || code
        == 0x1680 || (0x2000 <= code && code <= 0x200A) || code == 0x2028 || code == 0x2029
        || code == 0x202F || code == 0x205F || code == 0x3000
}

/// The first place at or after `from`, before `to`, that holds no white
/// space; `to` when there is none.
pub open spec fn skip_spaces(s: Seq<char>, from: int, to: int) -> int
    decreases to - from,
{
    if 0 <= from < to <= s.len() && is_space(s[from]) {
        skip_spaces(s, from + 1, to)
    } else {
        from
    }
}

/// The place behind the last character before `to`, not before `from`, that
/// is no white space; `from` when there is none.
pub open spec fn drop_spaces(s: Seq<char>, from: int, to: int) -> int
    decreases to - from,
{
    if 0 <= from < to <= s.len() && is_space(s[to - 1]) {
        drop_spaces(s, from, to - 1)
    } else {
        to
    }
}

/// The stretch of `s` between `from` and `to` without the white space at its
/// two ends.
pub open spec fn trimmed(s: Seq<char>, from: int, to: int) -> Seq<char> {
    let start = skip_spaces(s, from, to);
    s.subrange(start, drop_spaces(s, start, to))
}

/// Where the next `->` at or after `from` starts; the length of the line when
/// there is none.
pub open spec fn arrow_from(line: Seq<char>, from: int) -> int
    decreases line.len() - from,
{
    if from < 0 || from + 1 >= line.len() {
        line.len() as int
    } else if line[from] == '-' && line[from + 1] == '>' {
        from
    } else {
        arrow_from(line, from + 1)
    }
}

/// An arrow starts no earlier than the search for it, and within the line.
pub proof fn lemma_arrow_from(line: Seq<char>, from: int)
    requires
        0 <= from <= line.len(),
    ensures
        from <= arrow_from(line, from) <= line.len(),
        arrow_from(line, from) < line.len() ==> arrow_from(line, from) + 2 <= line.len(),
    decreases line.len() - from,
{
    if from + 1 < line.len() && !(line[from] == '-' && line[from + 1] == '>') {
        lemma_arrow_from(line, from + 1);
    }
}

/// The parts of the line from place `from` on that its arrows separate, each
/// without white space at its ends.
pub open spec fn parts_from(line: Seq<char>, from: int) -> Seq<Seq<char>>
    decreases line.len() - from,
{
    if from < 0 || from > line.len() {
        Seq::empty()
    } else {
        proof {
            lemma_arrow_from(line, from);
        }
        let arrow = arrow_from(line, from);
        if arrow >= line.len() {
            seq![trimmed(line, from, line.len() as int)]
        } else {
            seq![trimmed(line, from, arrow)] + parts_from(line, arrow + 2)
        }
    }
}

/// The parts of a production line.
pub fn split_rule<'a>(line: &'a str) -> (parts: Vec<&'a str>)
    ensures
        slices(parts@) == parts_from(line@, 0),
{
    let letters = chars_of(line);
    let n = letters.len();
    let mut parts: Vec<&'a str> = Vec::new();
    let mut from: usize = 0;
    loop
        invariant_except_break
            from <= n,
            slices(parts@) + parts_from(line@, from as int) == parts_from(line@, 0),
        invariant
            n == line@.len(),
            letters@ == line@,
        ensures
            slices(parts@) == parts_from(line@, 0),
        decreases n - from,
    {
        let mut arrow: usize = from;
        while arrow < n && !(arrow + 1 < n && letters[arrow] == '-' && letters[arrow + 1] == '>')
            invariant
                from <= arrow <= n,
                n == line@.len(),
                letters@ == line@,
                arrow_from(line@, arrow as int) == arrow_from(line@, from as int),
            decreases n - arrow,
        {
            arrow += 1;
        }
        proof {
            lemma_arrow_from(line@, from as int);
            assert(arrow_from(line@, from as int) == arrow);
        }
        let mut start: usize = from;
        while start < arrow && check_space(letters[start])
            invariant
                from <= start <= arrow <= n,
                n == line@.len(),
                letters@ == line@,
                skip_spaces(line@, start as int, arrow as int) == skip_spaces(
                    line@,
                    from as int,
                    arrow as int,
                ),
            decreases arrow - start,
        {
            start += 1;
        }
        let mut stop: usize = arrow;
        while start < stop && check_space(letters[stop - 1])
            invariant
                start <= stop <= arrow <= n,
                n == line@.len(),
                letters@ == line@,
                drop_spaces(line@, start as int, stop as int) == drop_spaces(
                    line@,
                    start as int,
                    arrow as int,
                ),
            decreases stop - start,
        {
            stop -= 1;
        }
        let part = line.substring_char(start, stop);
        let ghost before = slices(parts@);
        parts.push(part);
        proof {
            assert(part@ == trimmed(line@, from as int, arrow as int));
            assert(slices(parts@) =~= before.push(part@));
        }
        if arrow >= n {
            proof {
                assert(parts_from(line@, from as int) =~= seq![part@]);
                assert(before.push(part@) =~= before + seq![part@]);
            }
            break ;
        }
        proof {
            assert(before.push(part@) + parts_from(line@, arrow + 2) =~= before + (seq![part@]
                + parts_from(line@, arrow + 2)));
        }
        from = arrow + 2;
    }
    parts
}

/// A grammar text has at least four lines.
pub fn check_lines(lines: &Vec<&str>) -> (outcome: Result<(), LoadError>)
    ensures
        outcome is Ok <==> lines.len() >= 4,
        outcome is Err ==> outcome == Err::<(), LoadError>(LoadError::TooFewLines),
{
    if lines.len() < 4 {
        Err(LoadError::TooFewLines)
    } else {
        Ok(())
    }
}

/// A production line has exactly two parts.
pub fn check_parts(parts: &Vec<&str>) -> (outcome: Result<(), LoadError>)
    ensures
        outcome is Ok <==> parts.len() == 2,
        outcome is Err ==> outcome == Err::<(), LoadError>(LoadError::NotOneArrow),
{
    if parts.len() != 2 {
        Err(LoadError::NotOneArrow)
    } else {
        Ok(())
    }
}

/// The left-hand side of a production is a single symbol.
pub fn check_key(key: &str) -> (outcome: Result<char, LoadError>)
    ensures
        outcome is Ok <==> key@.len() == 1,
        outcome matches Ok(symbol) ==> symbol == key@[0],
        outcome is Err ==> outcome == Err::<char, LoadError>(LoadError::KeyNotOneSymbol),
{
    if key.unicode_len() != 1 {
        Err(LoadError::KeyNotOneSymbol)
    } else {
        Ok(key.get_char(0))
    }
}

/// The start line is a single symbol.
pub fn check_start(start: &str) -> (outcome: Result<char, LoadError>)
    ensures
        outcome is Ok <==> start@.len() == 1,
        outcome matches Ok(symbol) ==> symbol == start@[0],
        outcome is Err ==> outcome == Err::<char, LoadError>(LoadError::StartNotOneSymbol),
{
    if start.unicode_len() != 1 {
        Err(LoadError::StartNotOneSymbol)
    } else {
        Ok(start.get_char(0))
    }
}

/// What a production line gives: the left-hand side and the right-hand side,
/// or the first thing wrong with the line.
pub open spec fn rule_line(line: Seq<char>, non_terminals: Set<char>) -> Result<
    (char, Seq<char>),
    LoadError,
> {
    let parts = parts_from(line, 0);
    if parts.len() != 2 {
        Err(LoadError::NotOneArrow)
    } else if parts[0].len() != 1 {
        Err(LoadError::KeyNotOneSymbol)
    } else if !non_terminals.contains(parts[0][0]) {
        Err(LoadError::KeyNotNonTerminal)
    } else if parts[0][0] == START_RULE {
        Err(LoadError::KeyReserved)
    } else {
        Ok((parts[0][0], parts[1]))
    }
}

/// The productions of the lines from the third up to, not including, line
/// `upto`, or the first thing wrong with one of them.
pub open spec fn rules_upto(lines: Seq<Seq<char>>, non_terminals: Set<char>, upto: int) -> Result<
    Map<char, Seq<Seq<char>>>,
    LoadError,
>
    decreases upto,
{
    if upto <= 2 {
        Ok(no_rules())
    } else {
        match rules_upto(lines, non_terminals, upto - 1) {
            Err(e) => Err(e),
            Ok(rules) => match rule_line(lines[upto - 1], non_terminals) {
                Err(e) => Err(e),
                Ok((key, rhs)) => Ok(with_rule(rules, key, rhs)),
            },
        }
    }
}

/// Once a line is wrong, reading further lines does not mend it.
pub proof fn lemma_rules_error_stays(
    lines: Seq<Seq<char>>,
    non_terminals: Set<char>,
    at: int,
    upto: int,
)
    requires
        at <= upto,
        rules_upto(lines, non_terminals, at) is Err,
    ensures
        rules_upto(lines, non_terminals, upto) == rules_upto(lines, non_terminals, at),
    decreases upto - at,
{
    if at < upto {
        lemma_rules_error_stays(lines, non_terminals, at, upto - 1);
    }
}

/// The grammar that a text describes, or the first thing wrong with it.
pub open spec fn loaded(text: Seq<char>) -> Result<GrammarModel, LoadError> {
    let lines = lines_from(text, 0);
    if lines.len() < 4 {
        Err(LoadError::TooFewLines)
    } else {
        match rules_upto(lines, lines[0].to_set(), lines.len() - 1) {
            Err(e) => Err(e),
            Ok(rules) => if lines.last().len() != 1 {
                Err(LoadError::StartNotOneSymbol)
            } else {
                Ok(augment(lines[1].to_set(), lines[0].to_set(), rules, lines.last()[0]))
            },
        }
    }
}

/// The productions read so far rewrite non-terminals of the first line, and
/// never the reserved start symbol.
pub proof fn lemma_rules_keys(lines: Seq<Seq<char>>, non_terminals: Set<char>, upto: int)
    requires
        rules_upto(lines, non_terminals, upto) is Ok,
    ensures
        forall|key: char| #[trigger]
            rules_upto(lines, non_terminals, upto)->Ok_0.dom().contains(key)
                ==> non_terminals.contains(key) && key != START_RULE,
    decreases upto,
{
    if upto > 2 {
        lemma_rules_keys(lines, non_terminals, upto - 1);
    }
}

/// A grammar that was read from a text is augmented and context-free.
pub proof fn law_loaded_grammar(text: Seq<char>)
    requires
        loaded(text) is Ok,
    ensures
        loaded(text)->Ok_0.augmented(),
        loaded(text)->Ok_0.context_free(),
{
    let lines = lines_from(text, 0);
    let non_terminals = lines[0].to_set();
    let g = loaded(text)->Ok_0;
    lemma_rules_keys(lines, non_terminals, lines.len() - 1);
    assert forall|r: crate::grammar::Rule| #[trigger] g.has_rule(r) implies g.non_terminals.contains(
        r.lhs,
    ) by {
        if r.lhs != START_RULE {
            assert(rules_upto(lines, non_terminals, lines.len() - 1)->Ok_0.dom().contains(r.lhs));
        }
    }
}

/// The set of the characters of a line.
pub fn symbols_of(line: &str) -> (set: HashSet<char>)
    ensures
        set@ == line@.to_set(),
{
    let letters = chars_of(line);
    let mut set: HashSet<char> = HashSet::new();
    assert(letters@.take(0).to_set() =~= Set::<char>::empty());
    let mut i: usize = 0;
    while i < letters.len()
        invariant
            i <= letters.len(),
            set@ == letters@.take(i as int).to_set(),
        decreases letters.len() - i,
    {
        add_symbol(&mut set, letters[i]);
        proof {
            lemma_push_to_set(letters@.take(i as int), letters@[i as int]);
            assert(letters@.take(i + 1) =~= letters@.take(i as int).push(letters@[i as int]));
        }
        i += 1;
    }
    assert(letters@.take(letters.len() as int) =~= letters@);
    set
}

impl CFGrammar {
    /// Reads a grammar from its text.
    pub fn parse(text: &str) -> (outcome: Result<CFGrammar, LoadError>)
        ensures
            outcome matches Ok(grammar) ==> loaded(text@) == Ok::<GrammarModel, LoadError>(
                grammar@,
            ),
            outcome matches Err(e) ==> loaded(text@) == Err::<GrammarModel, LoadError>(e),
    {
        let lines = split_lines(text);
        let ghost all = slices(lines@);
        match check_lines(&lines) {
            Err(e) => {
                return Err(e);
            },
            Ok(()) => {},
        }
        let non_terminals = symbols_of(lines[0]);
        let terminals = symbols_of(lines[1]);
        assert(all[0] == lines@[0]@);
        assert(all[1] == lines@[1]@);
        let mut rules = empty_rules();
        let mut i: usize = 2;
        while i < lines.len() - 1
            invariant
                2 <= i <= lines.len() - 1,
                lines.len() >= 4,
                all == slices(lines@),
                all == lines_from(text@, 0),
                non_terminals@ == all[0].to_set(),
                !rule_table(rules).dom().contains(START_RULE),
                rules_upto(all, non_terminals@, i as int) == Ok::<
                    Map<char, Seq<Seq<char>>>,
                    LoadError,
                >(rule_table(rules)),
            decreases lines.len() - i,
        {
            let parts = split_rule(lines[i]);
            assert(all[i as int] == lines@[i as int]@);
            assert(slices(parts@).len() == parts@.len());
            proof {
                if rule_line(all[i as int], non_terminals@) is Err {
                    lemma_rules_error_stays(all, non_terminals@, i + 1, lines.len() - 1);
                }
            }
            match check_parts(&parts) {
                Err(e) => {
                    return Err(e);
                },
                Ok(()) => {},
            }
            assert(slices(parts@)[0] == parts@[0]@);
            assert(slices(parts@)[1] == parts@[1]@);
            let key = match check_key(parts[0]) {
                Err(e) => {
                    return Err(e);
                },
                Ok(key) => key,
            };
            if !has_symbol(&non_terminals, key) {
                return Err(LoadError::KeyNotNonTerminal);
            }
            if key == START_RULE {
                return Err(LoadError::KeyReserved);
            }
            let value = parts[1].to_owned();
            add_rule(&mut rules, key, value);
            i += 1;
        }
        assert(all[lines.len() - 1] == lines@[lines.len() - 1]@);
        let start = match check_start(lines[lines.len() - 1]) {
            Err(e) => {
                return Err(e);
            },
            Ok(start) => start,
        };
        Ok(CFGrammar::new(&terminals, &non_terminals, &rules, start))
    }
}

impl FromStr for CFGrammar {
    type Err = LoadError;

    /// Reads a grammar from its text: the grammar that the text describes,
    /// or the first thing wrong with the text.
    fn from_str(s: &str) -> (outcome: Result<Self, LoadError>)
        ensures
            outcome matches Ok(grammar) ==> loaded(s@) == Ok::<GrammarModel, LoadError>(grammar@),
            outcome matches Err(e) ==> loaded(s@) == Err::<GrammarModel, LoadError>(e),
    {
        CFGrammar::parse(s)
    }
}

} // verus!
