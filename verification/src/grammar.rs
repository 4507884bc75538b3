//! Context-free grammars over single-character symbols.
use crate::store::{
    add_rule, add_symbol, copy_rules, copy_symbols, has_symbol, rule_keys, rule_table,
    rules_under, text_of, texts, with_rule,
};
use multimap::MultiMap;
use std::collections::HashSet;
use vstd::prelude::*;
use vstd::string::StrSliceExecFns;

verus! {

/// The start symbol of every augmented grammar.
pub const START_RULE: char = '\u{1}';

/// The terminal that stands for the end of the input.
pub const END_TERMINAL: char = '\u{2}';

/// The terminal set aside for the empty word.
pub const EPS_TERMINAL: char = '\u{3}';

/// A production as it is handed out: left-hand side and right-hand side.
pub type CFRule = (char, String);

/// A production: `lhs` may be rewritten to `rhs`.
#[verifier::ext_equal]
pub struct Rule {
    pub lhs: char,
    pub rhs: Seq<char>,
}

/// What a grammar is: two classes of symbols, the productions of each
/// left-hand side in the order they were given, and the start symbol.
pub struct GrammarModel {
    pub terminals: Set<char>,
    pub non_terminals: Set<char>,
    pub rules: Map<char, Seq<Seq<char>>>,
    pub start: char,
}

/// Whether `code` is the code of a character.
pub open spec fn is_code(code: int) -> bool {
    0 <= code <= 0xD7FF || 0xE000 <= code <= 0x10FFFF
}

/// The right-hand sides of `rights` in the order of their first appearance,
/// each once.
pub open spec fn distinct(rights: Seq<Seq<char>>) -> Seq<Seq<char>>
    decreases rights.len(),
{
    if rights.len() == 0 {
        Seq::empty()
    } else {
        let before = distinct(rights.drop_last());
        if before.contains(rights.last()) {
            before
        } else {
            before.push(rights.last())
        }
    }
}

/// The productions of `lhs` with the right-hand sides `rights`, each once.
pub open spec fn rules_of(lhs: char, rights: Seq<Seq<char>>) -> Seq<Rule> {
    distinct(rights).map_values(|rhs: Seq<char>| Rule { lhs, rhs })
}

/// The productions of the left-hand sides with a code below `code`: by
/// rising code of the left-hand side, those of one left-hand side in the
/// order they were given, each once.
pub open spec fn rules_below(rules: Map<char, Seq<Seq<char>>>, code: int) -> Seq<Rule>
    decreases code,
{
    if code <= 0 {
        Seq::empty()
    } else {
        let lhs = (code - 1) as char;
        let below = rules_below(rules, code - 1);
        if is_code(code - 1) && rules.dom().contains(lhs) {
            below + rules_of(lhs, rules[lhs])
        } else {
            below
        }
    }
}

/// The productions listed so far rewrite symbols with a code below `code`.
pub proof fn lemma_rules_below_codes(rules: Map<char, Seq<Seq<char>>>, code: int, q: int)
    requires
        0 <= q < rules_below(rules, code).len(),
    ensures
        (rules_below(rules, code)[q].lhs as int) < code,
    decreases code,
{
    if code > 0 {
        let lhs = (code - 1) as char;
        let below = rules_below(rules, code - 1);
        if q < below.len() {
            lemma_rules_below_codes(rules, code - 1, q);
        }
    }
}

/// Codes that are no left-hand sides add nothing to the list.
pub proof fn lemma_rules_below_skip(rules: Map<char, Seq<Seq<char>>>, from: int, to: int)
    requires
        from <= to,
        forall|c: char| #[trigger] rules.dom().contains(c) ==> (c as int) < from || to <= (c as int),
    ensures
        rules_below(rules, to) == rules_below(rules, from),
    decreases to - from,
{
    if from < to {
        lemma_rules_below_skip(rules, from, to - 1);
        if to > 0 && is_code(to - 1) {
            let lhs = (to - 1) as char;
            assert(lhs as int == to - 1);
        }
    }
}

/// A production of `key` stands among the productions listed below the code
/// of `key` and those of `key` itself exactly when its right-hand side is
/// among those given for `key`.
pub proof fn lemma_listed_in_part(
    base: Seq<Rule>,
    key: char,
    given: Seq<Seq<char>>,
    code: int,
    rule: Rule,
    rules: Map<char, Seq<Seq<char>>>,
)
    requires
        base == rules_below(rules, code),
        code == key as int,
        rule.lhs == key,
    ensures
        (base + rules_of(key, given)).contains(rule) <==> distinct(given).contains(rule.rhs),
{
    let part = rules_of(key, given);
    let all = base + part;
    if all.contains(rule) {
        let i = choose|i: int| 0 <= i < all.len() && all[i] == rule;
        if i < base.len() {
            lemma_rules_below_codes(rules, code, i);
        } else {
            assert(part[i - base.len()] == rule);
            assert(distinct(given)[i - base.len()] == rule.rhs);
        }
    }
    if distinct(given).contains(rule.rhs) {
        let i = choose|i: int| 0 <= i < distinct(given).len() && distinct(given)[i] == rule.rhs;
        assert(part[i] == rule);
        assert(all[base.len() + i] == rule);
    }
}

/// A character is its code.
pub proof fn lemma_code(c: char)
    ensures
        is_code(c as int),
        c as u32 as int == c as int,
        (c as int) as char == c,
{
}

/// The symbols stand in the order of their codes.
pub open spec fn ascending(s: Seq<char>) -> bool {
    forall|i: int, j: int| 0 <= i < j < s.len() ==> (s[i] as int) < (s[j] as int)
}

/// The symbols of `v` in the order of their codes, each once.
pub fn sorted_symbols(v: &Vec<char>) -> (sorted: Vec<char>)
    ensures
        ascending(sorted@),
        sorted@.to_set() == v@.to_set(),
{
    let mut sorted: Vec<char> = Vec::new();
    let mut i: usize = 0;
    assert(sorted@.to_set() =~= v@.take(0).to_set());
    while i < v.len()
        invariant
            i <= v.len(),
            ascending(sorted@),
            sorted@.to_set() == v@.take(i as int).to_set(),
        decreases v.len() - i,
    {
        let c = v[i];
        let mut at: usize = 0;
        while at < sorted.len() && (sorted[at] as u32) < (c as u32)
            invariant
                at <= sorted.len(),
                forall|j: int| 0 <= j < at ==> (sorted@[j] as int) < (c as int),
            decreases sorted.len() - at,
        {
            proof {
                lemma_code(sorted@[at as int]);
                lemma_code(c);
            }
            at += 1;
        }
        let ghost before = sorted@;
        let ghost seen = v@.take(i as int);
        proof {
            assert(v@.take(i + 1) =~= seen.push(c));
            crate::items::lemma_push_to_set(seen, c);
        }
        proof {
            lemma_code(c);
            if at < sorted.len() {
                lemma_code(sorted@[at as int]);
            }
        }
        if at < sorted.len() && sorted[at] == c {
            assert(before.contains(c));
            assert(sorted@.to_set().contains(c));
            assert(sorted@.to_set() =~= seen.to_set().insert(c));
        } else {
            sorted.insert(at, c);
            proof {
                assert forall|x: char| sorted@.contains(x) <==> x == c || before.contains(x) by {
                    if before.contains(x) {
                        let j = choose|j: int| 0 <= j < before.len() && before[j] == x;
                        if j < at {
                            assert(sorted@[j] == x);
                        } else {
                            assert(sorted@[j + 1] == x);
                        }
                    }
                    if x == c {
                        assert(sorted@[at as int] == c);
                    }
                    if sorted@.contains(x) {
                        let j = choose|j: int| 0 <= j < sorted@.len() && sorted@[j] == x;
                        if j < at {
                            assert(before[j] == x);
                        } else if j > at {
                            assert(before[j - 1] == x);
                        }
                    }
                }
                assert(before.to_set() == seen.to_set());
                assert forall|x: char|
                    sorted@.to_set().contains(x) <==> seen.to_set().insert(c).contains(x) by {
                    assert(before.to_set().contains(x) <==> before.contains(x));
                    assert(sorted@.to_set().contains(x) <==> sorted@.contains(x));
                }
                assert(sorted@.to_set() =~= seen.to_set().insert(c));
                assert forall|a: int, b: int| 0 <= a < b < sorted@.len() implies (sorted@[a] as int)
                    < (sorted@[b] as int) by {
                    if b < at {
                        assert(sorted@[a] == before[a] && sorted@[b] == before[b]);
                    } else if b == at {
                        assert(sorted@[a] == before[a]);
                    } else if a < at {
                        assert(sorted@[a] == before[a] && sorted@[b] == before[b - 1]);
                        if at < before.len() {
                            assert((before[at as int] as int) >= (c as int));
                        }
                    } else if a == at {
                        assert(sorted@[b] == before[b - 1]);
                        assert((before[at as int] as int) >= (c as int));
                        assert(before[at as int] != c);
                    } else {
                        assert(sorted@[a] == before[a - 1] && sorted@[b] == before[b - 1]);
                    }
                }
            }
        }
        i += 1;
    }
    assert(v@.take(v.len() as int) =~= v@);
    sorted
}

impl GrammarModel {
    /// The productions in their standing order: by rising code of the
    /// left-hand side, those of one left-hand side in the order they were
    /// given, each once.
    pub open spec fn listing(self) -> Seq<Rule> {
        rules_below(self.rules, 0x110000)
    }

    /// `r` is one of the productions.
    pub open spec fn has_rule(self, r: Rule) -> bool {
        self.rules.dom().contains(r.lhs) && self.rules[r.lhs].contains(r.rhs)
    }

    /// The grammar is augmented: it starts at the reserved start symbol,
    /// which has exactly one production, and it knows the reserved symbols.
    pub open spec fn augmented(self) -> bool {
        &&& self.start == START_RULE
        &&& self.rules.dom().contains(START_RULE)
        &&& self.rules[START_RULE].len() == 1
        &&& self.terminals.contains(END_TERMINAL)
        &&& self.terminals.contains(EPS_TERMINAL)
        &&& self.non_terminals.contains(START_RULE)
    }

    /// The right-hand side of the start production.
    pub open spec fn start_rhs(self) -> Seq<char> {
        self.rules[START_RULE][0]
    }

    /// `list` names every production exactly once.
    pub open spec fn listed_by(self, list: Seq<Rule>) -> bool {
        &&& list.no_duplicates()
        &&& forall|r: Rule| list.contains(r) <==> #[trigger] self.has_rule(r)
    }

    /// Every production rewrites a non-terminal.
    pub open spec fn context_free(self) -> bool {
        forall|r: Rule| #[trigger] self.has_rule(r) ==> self.non_terminals.contains(r.lhs)
    }

    /// No symbol is both terminal and non-terminal.
    pub open spec fn classes_disjoint(self) -> bool {
        self.terminals.disjoint(self.non_terminals)
    }

    /// Every symbol of `w` is a terminal.
    pub open spec fn all_terminals(self, w: Seq<char>) -> bool {
        forall|i: int| 0 <= i < w.len() ==> self.terminals.contains(#[trigger] w[i])
    }
}

/// The grammar that `CFGrammar::new` builds from a user's symbols,
/// productions and start symbol.
pub open spec fn augment(
    terminals: Set<char>,
    non_terminals: Set<char>,
    rules: Map<char, Seq<Seq<char>>>,
    start: char,
) -> GrammarModel {
    GrammarModel {
        terminals: terminals.insert(END_TERMINAL).insert(EPS_TERMINAL),
        non_terminals: non_terminals.insert(START_RULE),
        rules: with_rule(rules, START_RULE, seq![start]),
        start: START_RULE,
    }
}

/// A production held by value.
#[derive(Clone, Debug)]
pub struct Production {
    pub lhs: char,
    pub rhs: Vec<char>,
}

impl View for Production {
    type V = Rule;

    open spec fn view(&self) -> Rule {
        Rule { lhs: self.lhs, rhs: self.rhs@ }
    }
}

/// The productions that a list holds, in its order.
pub open spec fn rule_views(list: Seq<Production>) -> Seq<Rule> {
    list.map_values(|p: Production| p@)
}

/// A list of the grammar's productions names each production at some place.
pub proof fn lemma_listed_place(g: GrammarModel, list: Seq<Rule>, r: Rule) -> (q: int)
    requires
        g.listed_by(list),
        g.has_rule(r),
    ensures
        0 <= q < list.len(),
        list[q] == r,
{
    assert(list.contains(r));
    choose|q: int| 0 <= q < list.len() && list[q] == r
}

/// The list and its right-hand sides are short enough to be indexed.
pub open spec fn indexable(rules: Seq<Rule>) -> bool {
    &&& rules.len() <= usize::MAX
    &&& forall|q: int| 0 <= q < rules.len() ==> (#[trigger] rules[q]).rhs.len() <= usize::MAX
}

/// The length of the longest right-hand side.
pub open spec fn longest(rules: Seq<Rule>) -> nat
    decreases rules.len(),
{
    if rules.len() == 0 {
        0
    } else {
        let before = longest(rules.drop_last());
        if rules.last().rhs.len() > before {
            rules.last().rhs.len()
        } else {
            before
        }
    }
}

/// No right-hand side is longer than the longest.
pub proof fn lemma_longest(rules: Seq<Rule>, q: int)
    requires
        0 <= q < rules.len(),
    ensures
        rules[q].rhs.len() <= longest(rules),
    decreases rules.len(),
{
    if q < rules.len() - 1 {
        lemma_longest(rules.drop_last(), q);
    }
}

/// Productions held in memory can be indexed.
pub proof fn lemma_views_indexable(list: &Vec<Production>)
    ensures
        indexable(rule_views(list@)),
{
    assert forall|q: int| 0 <= q < rule_views(list@).len() implies (#[trigger] rule_views(
        list@,
    )[q]).rhs.len() <= usize::MAX by {
        assert(rule_views(list@)[q].rhs == list@[q].rhs@);
        assert(list@[q].rhs.len() == list@[q].rhs@.len());
    }
    assert(list.len() == list@.len());
}

/// The characters of a string, one by one.
pub fn chars_of(s: &str) -> (v: Vec<char>)
    ensures
        v@ == s@,
{
    let n = s.unicode_len();
    let mut v: Vec<char> = Vec::new();
    let mut i: usize = 0;
    while i < n
        invariant
            i <= n,
            n == s@.len(),
            v@ == s@.take(i as int),
        decreases n - i,
    {
        v.push(s.get_char(i));
        i += 1;
        assert(v@ =~= s@.take(i as int));
    }
    assert(s@.take(n as int) =~= s@);
    v
}

/// Whether two symbol strings are the same.
pub fn same_symbols(a: &Vec<char>, b: &Vec<char>) -> (same: bool)
    ensures
        same == (a@ == b@),
{
    if a.len() != b.len() {
        return false;
    }
    let mut i: usize = 0;
    while i < a.len()
        invariant
            i <= a.len(),
            a.len() == b.len(),
            forall|j: int| 0 <= j < i ==> a@[j] == b@[j],
        decreases a.len() - i,
    {
        if a[i] != b[i] {
            return false;
        }
        i += 1;
    }
    assert(a@ =~= b@);
    true
}

/// Whether `word` holds `symbol`.
pub fn holds_symbol(word: &Vec<char>, symbol: char) -> (found: bool)
    ensures
        found == word@.contains(symbol),
{
    let mut i: usize = 0;
    while i < word.len()
        invariant
            i <= word.len(),
            forall|j: int| 0 <= j < i ==> word@[j] != symbol,
        decreases word.len() - i,
    {
        if word[i] == symbol {
            return true;
        }
        i += 1;
    }
    false
}

/// Where in `list` the production `lhs -> rhs` stands, if it does.
pub fn find_production(list: &Vec<Production>, lhs: char, rhs: &Vec<char>) -> (at: Option<usize>)
    ensures
        at matches Some(i) ==> i < list.len() && list@[i as int]@ == (Rule { lhs, rhs: rhs@ }),
        at is None ==> !rule_views(list@).contains(Rule { lhs, rhs: rhs@ }),
{
    let mut i: usize = 0;
    while i < list.len()
        invariant
            i <= list.len(),
            forall|j: int| 0 <= j < i ==> list@[j]@ != (Rule { lhs, rhs: rhs@ }),
        decreases list.len() - i,
    {
        if list[i].lhs == lhs && same_symbols(&list[i].rhs, rhs) {
            return Some(i);
        }
        i += 1;
    }
    None
}

/// A context-free grammar, augmented with the reserved start production.
#[derive(Debug)]
pub struct CFGrammar {
    /// Terminal symbols.
    terminals: HashSet<char>,
    /// Non-terminal symbols.
    non_terminals: HashSet<char>,
    /// The productions of each left-hand side.
    rules: MultiMap<char, String>,
    /// Start non-terminal.
    start: char,
}

impl View for CFGrammar {
    type V = GrammarModel;

    closed spec fn view(&self) -> GrammarModel {
        GrammarModel {
            terminals: self.terminals@,
            non_terminals: self.non_terminals@,
            rules: rule_table(self.rules),
            start: self.start,
        }
    }
}

impl Clone for CFGrammar {
    fn clone(&self) -> (copy: Self)
        ensures
            copy@ == self@,
    {
        proof {
            use_type_invariant(self);
        }
        Self {
            terminals: copy_symbols(&self.terminals),
            non_terminals: copy_symbols(&self.non_terminals),
            rules: copy_rules(&self.rules),
            start: self.start,
        }
    }
}

impl CFGrammar {
    #[verifier::type_invariant]
    spec fn is_augmented(self) -> bool {
        self@.augmented()
    }

    /// Builds the augmented grammar: the reserved terminals and the reserved
    /// start symbol join the user's symbols, and the start production
    /// `START_RULE -> start` joins the user's productions.
    ///
    /// The user's productions must leave the reserved start symbol alone.
    pub fn new(
        terminals: &HashSet<char>,
        non_terminals: &HashSet<char>,
        rules: &MultiMap<char, String>,
        start: char,
    ) -> (grammar: Self)
        requires
            !rule_table(*rules).dom().contains(START_RULE),
        ensures
            grammar@ == augment(terminals@, non_terminals@, rule_table(*rules), start),
            grammar@.augmented(),
    {
        let mut all_terminals = copy_symbols(terminals);
        add_symbol(&mut all_terminals, END_TERMINAL);
        add_symbol(&mut all_terminals, EPS_TERMINAL);
        let mut all_non_terminals = copy_symbols(non_terminals);
        add_symbol(&mut all_non_terminals, START_RULE);
        let mut all_rules = copy_rules(rules);
        let mut start_rhs: Vec<char> = Vec::new();
        start_rhs.push(start);
        add_rule(&mut all_rules, START_RULE, text_of(&start_rhs));
        assert(start_rhs@ =~= seq![start]);
        Self {
            terminals: all_terminals,
            non_terminals: all_non_terminals,
            rules: all_rules,
            start: START_RULE,
        }
    }

    /// The terminals, the reserved ones among them.
    pub fn terminals(&self) -> (set: &HashSet<char>)
        ensures
            set@ == self@.terminals,
    {
        &self.terminals
    }

    /// The non-terminals, the reserved start symbol among them.
    pub fn non_terminals(&self) -> (set: &HashSet<char>)
        ensures
            set@ == self@.non_terminals,
    {
        &self.non_terminals
    }

    /// The productions, the start production among them.
    pub fn rules(&self) -> (map: &MultiMap<char, String>)
        ensures
            rule_table(*map) == self@.rules,
    {
        &self.rules
    }

    /// The start symbol: the reserved one.
    pub fn start(&self) -> (symbol: char)
        ensures
            symbol == self@.start,
            symbol == START_RULE,
    {
        proof {
            use_type_invariant(self);
        }
        self.start
    }

    /// Whether `symbol` is a terminal.
    pub fn is_terminal(&self, symbol: char) -> (b: bool)
        ensures
            b == self@.terminals.contains(symbol),
    {
        has_symbol(&self.terminals, symbol)
    }

    /// Whether every symbol of `word` is a terminal.
    pub fn all_terminal(&self, word: &Vec<char>) -> (yes: bool)
        ensures
            yes == self@.all_terminals(word@),
    {
        let mut i: usize = 0;
        while i < word.len()
            invariant
                i <= word.len(),
                forall|j: int| 0 <= j < i ==> self@.terminals.contains(#[trigger] word@[j]),
            decreases word.len() - i,
        {
            if !self.is_terminal(word[i]) {
                return false;
            }
            i += 1;
        }
        true
    }

    /// Whether `symbol` is a non-terminal.
    pub fn is_non_terminal(&self, symbol: char) -> (b: bool)
        ensures
            b == self@.non_terminals.contains(symbol),
    {
        has_symbol(&self.non_terminals, symbol)
    }

    /// Every production of the grammar, each listed once, in the standing
    /// order.
    #[verifier::rlimit(50)]
    pub fn productions(&self) -> (list: Vec<Production>)
        ensures
            self@.listed_by(rule_views(list@)),
            rule_views(list@) == self@.listing(),
    {
        let found_keys = rule_keys(&self.rules);
        let keys = sorted_symbols(&found_keys);
        let ghost table = rule_table(self.rules);
        let ghost g = self@;
        let ghost mut done: int = 0;
        let mut out: Vec<Production> = Vec::new();
        let mut ki: usize = 0;
        assert(rule_views(out@) =~= rules_below(table, 0));
        proof {
            assert forall|a: int| 0 <= a < keys@.len() implies 0 <= (keys@[a] as int) by {
                lemma_code(keys@[a]);
            }
        }
        while ki < keys.len()
            invariant
                ki <= keys.len(),
                table == rule_table(self.rules),
                g == self@,
                keys@.to_set() == table.dom(),
                ascending(keys@),
                0 <= done <= 0x110000,
                forall|a: int| 0 <= a < ki ==> (keys@[a] as int) < done,
                forall|a: int| ki <= a < keys@.len() ==> done <= (keys@[a] as int),
                rule_views(out@) == rules_below(table, done),
                rule_views(out@).no_duplicates(),
                forall|r: Rule| #[trigger]
                    rule_views(out@).contains(r) ==> g.has_rule(r) && exists|a: int|
                        0 <= a < ki && keys@[a] == r.lhs,
                forall|a: int, j: int|
                    0 <= a < ki && 0 <= j < table[keys@[a]].len() ==> rule_views(out@).contains(
                        Rule { lhs: keys@[a], rhs: #[trigger] table[keys@[a]][j] },
                    ),
            decreases keys.len() - ki,
        {
            let key = keys[ki];
            assert(keys@.to_set().contains(key));
            let ghost code = key as int;
            let ghost base = rule_views(out@);
            proof {
                assert forall|c: char| #[trigger] table.dom().contains(c) implies (c as int) < done
                    || code <= (c as int) by {
                    assert(keys@.to_set().contains(c));
                    let a = choose|a: int| 0 <= a < keys@.len() && keys@[a] == c;
                    if a >= ki && a != ki {
                        assert((keys@[ki as int] as int) < (keys@[a] as int));
                    }
                }
                lemma_rules_below_skip(table, done, code);
                lemma_code(key);
                assert(is_code(code));
                assert((code as char) == key);
                assert(distinct(table[key].take(0)) =~= Seq::<Seq<char>>::empty());
                assert(base + rules_of(key, table[key].take(0)) =~= base);
            }
            let found = rules_under(&self.rules, key);
            if let Some(list) = found {
                let mut j: usize = 0;
                while j < list.len()
                    invariant
                        j <= list.len(),
                        ki < keys.len(),
                        key == keys@[ki as int],
                        code == key as int,
                        table.dom().contains(key),
                        keys@.to_set() == table.dom(),
                        table == g.rules,
                        texts(list@) == table[key],
                        base == rules_below(table, code),
                        rule_views(out@) == base + rules_of(key, table[key].take(j as int)),
                        rule_views(out@).no_duplicates(),
                        forall|r: Rule| #[trigger]
                            rule_views(out@).contains(r) ==> g.has_rule(r) && exists|a: int|
                                0 <= a < ki + 1 && keys@[a] == r.lhs,
                        forall|a: int, j: int|
                            0 <= a < ki && 0 <= j < table[keys@[a]].len() ==> rule_views(
                                out@,
                            ).contains(Rule { lhs: keys@[a], rhs: #[trigger] table[keys@[a]][j] }),
                        forall|b: int|
                            0 <= b < j ==> rule_views(out@).contains(
                                Rule { lhs: key, rhs: #[trigger] table[key][b] },
                            ),
                    decreases list.len() - j,
                {
                    let rhs = chars_of(list[j].as_str());
                    assert(texts(list@)[j as int] == list@[j as int]@);
                    let ghost rule = Rule { lhs: key, rhs: rhs@ };
                    let ghost given = table[key].take(j as int);
                    let ghost more = table[key].take(j + 1);
                    assert(g.has_rule(rule)) by {
                        assert(table[key][j as int] == rhs@);
                    }
                    proof {
                        assert(more.drop_last() =~= given);
                        assert(more.last() == rhs@);
                    }
                    let found = find_production(&out, key, &rhs);
                    let ghost before = rule_views(out@);
                    proof {
                        lemma_listed_in_part(base, key, given, code, rule, table);
                    }
                    if let Some(i) = found {
                        assert(rule_views(out@)[i as int] == rule);
                        assert(distinct(more) == distinct(given));
                    } else {
                        out.push(Production { lhs: key, rhs });
                        assert(rule_views(out@) =~= before.push(rule));
                        proof {
                            assert(distinct(more) == distinct(given).push(rhs@));
                            assert(rules_of(key, more) =~= rules_of(key, given).push(rule));
                            assert(before.push(rule) =~= base + rules_of(key, more));
                        }
                        assert forall|r: Rule| #[trigger]
                            rule_views(out@).contains(r) implies g.has_rule(r) && exists|a: int|
                            0 <= a < ki + 1 && keys@[a] == r.lhs by {
                            if r != rule {
                                assert(before.contains(r));
                            } else {
                                assert(keys@[ki as int] == r.lhs);
                            }
                        }
                        assert forall|r: Rule| before.contains(r) implies rule_views(
                            out@,
                        ).contains(r) by {
                            let i = choose|i: int| 0 <= i < before.len() && before[i] == r;
                            assert(rule_views(out@)[i] == r);
                        }
                        assert(rule_views(out@)[before.len() as int] == rule);
                    }
                    assert(rule_views(out@).contains(rule));
                    j += 1;
                }
                proof {
                    assert(table[key].take(list.len() as int) =~= table[key]);
                }
            }
            proof {
                assert(rule_views(out@) == rules_below(table, code + 1));
                done = code + 1;
            }
            ki += 1;
        }
        proof {
            assert forall|r: Rule| #[trigger] g.has_rule(r) implies rule_views(out@).contains(r) by {
                assert(keys@.to_set().contains(r.lhs));
                let a = choose|a: int| 0 <= a < keys@.len() && keys@[a] == r.lhs;
                let j = choose|j: int| 0 <= j < table[r.lhs].len() && table[r.lhs][j] == r.rhs;
                assert(rule_views(out@).contains(Rule { lhs: keys@[a], rhs: table[keys@[a]][j] }));
            }
            assert forall|c: char| #[trigger] table.dom().contains(c) implies (c as int) < done
                || 0x110000 <= (c as int) by {
                assert(keys@.to_set().contains(c));
                let a = choose|a: int| 0 <= a < keys@.len() && keys@[a] == c;
            }
            lemma_rules_below_skip(table, done, 0x110000);
        }
        out
    }

    /// Whether every production in `list` rewrites a non-terminal.
    pub fn is_context_free(&self, list: &Vec<Production>) -> (yes: bool)
        requires
            self@.listed_by(rule_views(list@)),
        ensures
            yes == self@.context_free(),
    {
        let mut i: usize = 0;
        while i < list.len()
            invariant
                i <= list.len(),
                self@.listed_by(rule_views(list@)),
                forall|j: int| 0 <= j < i ==> self@.non_terminals.contains(#[trigger] list@[j].lhs),
            decreases list.len() - i,
        {
            if !self.is_non_terminal(list[i].lhs) {
                proof {
                    let r = list@[i as int]@;
                    assert(rule_views(list@)[i as int] == r);
                    assert(self@.has_rule(r));
                }
                return false;
            }
            i += 1;
        }
        proof {
            assert forall|r: Rule| #[trigger] self@.has_rule(r) implies self@.non_terminals.contains(
                r.lhs,
            ) by {
                let views = rule_views(list@);
                assert(views.contains(r));
                let j = choose|j: int| 0 <= j < views.len() && views[j] == r;
                assert(list@[j].lhs == r.lhs);
            }
        }
        true
    }

    /// The start production.
    pub fn get_start_rule(&self) -> (rule: CFRule)
        ensures
            self@.augmented(),
            rule.0 == START_RULE,
            rule.1@ == self@.start_rhs(),
    {
        proof {
            use_type_invariant(self);
        }
        let rules = rules_under(&self.rules, self.start);
        match rules {
            Some(list) => {
                assert(texts(list@)[0] == list@[0]@);
                (self.start, list[0].clone())
            },
            None => {
                proof {
                    assert(false);
                }
                (self.start, String::new())
            },
        }
    }
}

} // verus!
