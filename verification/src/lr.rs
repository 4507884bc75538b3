//! LR(1) recognition: the action table is built once from the states of the
//! automaton, then a driver reads it for every word.
use crate::closure::{goto, goto_of};
use crate::grammar::{
    chars_of, find_production, holds_symbol, indexable, lemma_views_indexable, rule_views,
    CFGrammar, GrammarModel, Production, Rule, END_TERMINAL, START_RULE,
};
use crate::items::{in_range, listing_of, waits_for, LR1Situation, Listing};
use crate::lr_laws::{lemma_numbering_unique, lemma_same_place};
use crate::recognizer::{FitError, Parser};
use crate::states::{
    find_state, get_states, is_symbol, lemma_goto_inhabited, numbers_states, state_sets,
    states_ok,
};
use crate::table::{
    add_transition, cell, drive, drives, initial_symbols, table_of, LR1Action, TableModel,
    STEP_LIMIT,
};
use std::collections::HashMap;
use vstd::prelude::*;

verus! {

broadcast use vstd::std_specs::hash::group_hash_axioms;

/// The number under which `target` stands among `states`.
pub open spec fn number_of(states: Seq<Set<LR1Situation>>, target: Set<LR1Situation>) -> int {
    choose|k: int| 0 <= k < states.len() && states[k] == target
}

/// What the situation `it` of state number `s` enters into the table, and
/// under which symbol: a shift for the symbol behind the dot when it is a
/// symbol of the grammar; at the end of the start production with the end
/// marker as lookahead, acceptance; at the end of any other production, or
/// with another lookahead, a reduction under the lookahead.
pub open spec fn emission(
    l: Listing,
    states: Seq<Set<LR1Situation>>,
    s: int,
    it: LR1Situation,
) -> Option<(char, LR1Action)> {
    let rule = l.rules[it.rule as int];
    if it.pos < rule.rhs.len() {
        let symbol = rule.rhs[it.pos as int];
        if is_symbol(l, symbol) {
            Some(
                (symbol, LR1Action::Shift(number_of(states, goto_of(l, states[s], symbol)) as usize)),
            )
        } else {
            None
        }
    } else if rule.lhs == START_RULE && it.lookahead == END_TERMINAL {
        Some((END_TERMINAL, LR1Action::Accept))
    } else {
        Some((it.lookahead, LR1Action::Reduce(rule.rhs.len() as usize, rule.lhs)))
    }
}

/// The situation `it` of state number `s` enters `action` under `symbol`.
pub open spec fn enters(
    l: Listing,
    states: Seq<Set<LR1Situation>>,
    s: int,
    it: LR1Situation,
    symbol: char,
    action: LR1Action,
) -> bool {
    states[s].contains(it) && emission(l, states, s, it) == Some((symbol, action))
}

/// Two situations of one state enter different actions under one symbol.
pub open spec fn conflicting(l: Listing, states: Seq<Set<LR1Situation>>) -> bool {
    exists|s: int, one: LR1Situation, other: LR1Situation, symbol: char, a: LR1Action, b: LR1Action|
        0 <= s < states.len() && #[trigger] enters(l, states, s, one, symbol, a) && #[trigger] enters(
            l,
            states,
            s,
            other,
            symbol,
            b,
        ) && a != b
}

/// `table` holds what the situations of `states` enter, and nothing else.
pub open spec fn tabulates(l: Listing, states: Seq<Set<LR1Situation>>, table: TableModel) -> bool {
    &&& forall|s: int, it: LR1Situation, symbol: char, action: LR1Action|
        0 <= s < states.len() && #[trigger] enters(l, states, s, it, symbol, action) ==> cell(
            table,
            s,
            symbol,
        ) == action
    &&& forall|s: int, symbol: char| #[trigger]
        table.contains_key((s, symbol)) ==> 0 <= s < states.len() && exists|it: LR1Situation|
            enters(l, states, s, it, symbol, table[(s, symbol)])
}

/// `l` lists the productions of `g` in their standing order, the start
/// production at place `start_rule`, and `states` numbers the states of its
/// automaton.
pub open spec fn built_for(
    g: GrammarModel,
    l: Listing,
    start_rule: int,
    states: Seq<Set<LR1Situation>>,
) -> bool {
    &&& g.listed_by(l.rules)
    &&& l.rules == g.listing()
    &&& indexable(l.rules)
    &&& l == listing_of(g, l.rules)
    &&& 0 <= start_rule < l.rules.len()
    &&& l.rules[start_rule] == (Rule { lhs: START_RULE, rhs: g.start_rhs() })
    &&& numbers_states(l, start_rule, states)
}

/// The productions of `g` in their standing order, with its classes of
/// symbols: what the automaton of `g` is built from.
pub open spec fn automaton_listing(g: GrammarModel) -> Listing {
    listing_of(g, g.listing())
}

/// The place of the start production in the standing order.
pub open spec fn start_place(g: GrammarModel) -> int {
    choose|q: int|
        0 <= q < g.listing().len() && g.listing()[q] == (Rule {
            lhs: START_RULE,
            rhs: g.start_rhs(),
        })
}

/// The action table of `g` has a conflict: in some state of its automaton
/// two situations enter different actions under one symbol.
pub open spec fn lr1_conflict(g: GrammarModel) -> bool {
    exists|states: Seq<Set<LR1Situation>>| #[trigger]
        numbers_states(automaton_listing(g), start_place(g), states) && conflicting(
            automaton_listing(g),
            states,
        )
}

/// Recognizes the words of a grammar by its LR(1) action table.
#[derive(Debug)]
pub struct LR1Parser {
    transitions: Vec<HashMap<u32, LR1Action>>,
    start: usize,
    grammar: Option<CFGrammar>,
}

impl LR1Parser {
    /// The action table.
    pub closed spec fn table(&self) -> TableModel {
        table_of(self.transitions@)
    }

    /// The number of the state that the driver starts in.
    pub closed spec fn start_state(&self) -> usize {
        self.start
    }

    /// The list of productions that the table was built from.
    pub closed spec fn listing(&self) -> Listing {
        match self.grammar {
            Some(grammar) => automaton_listing(grammar@),
            None => arbitrary(),
        }
    }

    /// The place of the start production in that list.
    pub closed spec fn start_rule(&self) -> int {
        match self.grammar {
            Some(grammar) => start_place(grammar@),
            None => 0,
        }
    }

    /// The states that the table was built from, under their numbers.
    pub closed spec fn states(&self) -> Seq<Set<LR1Situation>> {
        choose|states: Seq<Set<LR1Situation>>| #[trigger]
            numbers_states(self.listing(), self.start_rule(), states) && tabulates(
                self.listing(),
                states,
                self.table(),
            )
    }

    /// The recognizer holds the action table of the grammar `g`: the table
    /// holds what the situations of the states of the automaton of `g`
    /// enter, and the driver starts in the initial state.
    pub open spec fn holds_table_of(&self, g: GrammarModel) -> bool {
        &&& self.fitted() == Some(g)
        &&& self.start_state() == 0
        &&& built_for(g, self.listing(), self.start_rule(), self.states())
        &&& tabulates(self.listing(), self.states(), self.table())
    }

    /// The rows of the action table, one for each state, each keyed by the
    /// code of the symbol.
    pub fn transitions(&self) -> (rows: &Vec<HashMap<u32, LR1Action>>)
        ensures
            table_of(rows@) == self.table(),
    {
        &self.transitions
    }

    /// The number of the state that the driver starts in.
    pub fn start(&self) -> (state: usize)
        ensures
            state == self.start_state(),
    {
        self.start
    }

    /// A recognizer without a table: it accepts nothing.
    pub fn new() -> (parser: Self)
        ensures
            parser.fitted() is None,
            parser.table() == Map::<(int, char), LR1Action>::empty(),
            parser.start_state() == 0,
    {
        let parser = Self { start: 0, transitions: Vec::new(), grammar: None };
        assert(parser.table() =~= Map::<(int, char), LR1Action>::empty());
        parser
    }

    /// The action table of `states`, or the conflict error when two
    /// situations of a state enter different actions under one symbol.
    #[verifier::rlimit(50)]
    pub fn tabulate(
        grammar: &CFGrammar,
        rules: &Vec<Production>,
        states: &Vec<Vec<LR1Situation>>,
    ) -> (outcome: Result<Vec<HashMap<u32, LR1Action>>, FitError>)
        requires
            exists|start_rule: int|
                states_ok(listing_of(grammar@, rule_views(rules@)), start_rule, states@)
                    && numbers_states(
                    listing_of(grammar@, rule_views(rules@)),
                    start_rule,
                    state_sets(states@),
                ),
        ensures
            outcome is Ok <==> !conflicting(
                listing_of(grammar@, rule_views(rules@)),
                state_sets(states@),
            ),
            outcome matches Ok(rows) ==> tabulates(
                listing_of(grammar@, rule_views(rules@)),
                state_sets(states@),
                table_of(rows@),
            ),
            outcome is Err ==> outcome == Err::<Vec<HashMap<u32, LR1Action>>, FitError>(
                FitError::NotLR1,
            ),
    {
        let ghost l = listing_of(grammar@, rule_views(rules@));
        let ghost sets = state_sets(states@);
        let ghost start_rule = choose|start_rule: int|
            states_ok(l, start_rule, states@) && numbers_states(l, start_rule, sets);
        let mut rows: Vec<HashMap<u32, LR1Action>> = Vec::new();
        let mut n: usize = 0;
        while n < states.len()
            invariant
                n <= states.len(),
                rows.len() == n,
                forall|v: int| 0 <= v < n ==> (#[trigger] rows@[v])@ == Map::<u32, LR1Action>::empty(),
            decreases states.len() - n,
        {
            rows.push(HashMap::new());
            n += 1;
        }
        assert(table_of(rows@) =~= Map::<(int, char), LR1Action>::empty());
        let mut s: usize = 0;
        while s < states.len()
            invariant
                s <= states.len(),
                rows.len() == states.len(),
                l == listing_of(grammar@, rule_views(rules@)),
                sets == state_sets(states@),
                states_ok(l, start_rule, states@),
                numbers_states(l, start_rule, sets),
                forall|v: int, it: LR1Situation, symbol: char, action: LR1Action|
                    0 <= v < s && #[trigger] enters(l, sets, v, it, symbol, action) ==> cell(
                        table_of(rows@),
                        v,
                        symbol,
                    ) == action,
                forall|v: int, symbol: char| #[trigger]
                    table_of(rows@).contains_key((v, symbol)) ==> 0 <= v < s && exists|
                        it: LR1Situation,
                    |
                        enters(l, sets, v, it, symbol, table_of(rows@)[(v, symbol)]),
            decreases states.len() - s,
        {
            let count = states[s].len();
            let ghost current = states@[s as int]@;
            assert(sets[s as int] == current.to_set());
            let mut j: usize = 0;
            while j < count
                invariant
                    j <= count,
                    s < states.len(),
                    count == current.len(),
                    current == states@[s as int]@,
                    rows.len() == states.len(),
                    l == listing_of(grammar@, rule_views(rules@)),
                    sets == state_sets(states@),
                    states_ok(l, start_rule, states@),
                    numbers_states(l, start_rule, sets),
                    forall|v: int, it: LR1Situation, symbol: char, action: LR1Action|
                        0 <= v < s && #[trigger] enters(l, sets, v, it, symbol, action) ==> cell(
                            table_of(rows@),
                            v,
                            symbol,
                        ) == action,
                    forall|w: int, symbol: char, action: LR1Action|
                        0 <= w < j && #[trigger] enters(
                            l,
                            sets,
                            s as int,
                            current[w],
                            symbol,
                            action,
                        ) ==> cell(table_of(rows@), s as int, symbol) == action,
                    forall|v: int, symbol: char| #[trigger]
                        table_of(rows@).contains_key((v, symbol)) ==> 0 <= v <= s && exists|
                            it: LR1Situation,
                        |
                            enters(l, sets, v, it, symbol, table_of(rows@)[(v, symbol)]),
                decreases count - j,
            {
                let it = states[s][j];
                assert(in_range(l, it));
                assert(current.contains(it));
                assert(sets[s as int].contains(it));
                let ghost before = table_of(rows@);
                let mut entry: Option<(char, LR1Action)> = None;
                if it.pos < rules[it.rule].rhs.len() {
                    let symbol = it.nth(rules, it.pos);
                    if grammar.is_terminal(symbol) || grammar.is_non_terminal(symbol) {
                        let target = goto(grammar, rules, &states[s], symbol);
                        proof {
                            assert(waits_for(l, it, symbol));
                            lemma_goto_inhabited(l, sets[s as int], symbol);
                            assert(sets.contains(goto_of(l, sets[s as int], symbol)));
                        }
                        match find_state(states, &target) {
                            Some(number) => {
                                entry = Some((symbol, LR1Action::Shift(number)));
                            },
                            None => {
                                proof {
                                    assert(false);
                                }
                            },
                        }
                    }
                } else if rules[it.rule].lhs == START_RULE && it.lookahead == END_TERMINAL {
                    entry = Some((END_TERMINAL, LR1Action::Accept));
                } else {
                    let count = rules[it.rule].rhs.len();
                    entry = Some((it.lookahead, LR1Action::Reduce(count, rules[it.rule].lhs)));
                }
                assert(entry == emission(l, sets, s as int, it));
                if let Some((symbol, action)) = entry {
                    assert(enters(l, sets, s as int, it, symbol, action));
                    match add_transition(&mut rows, s, symbol, &action) {
                        Ok(()) => {
                            proof {
                                let after = table_of(rows@);
                                assert(after == before.insert((s as int, symbol), action));
                                assert forall|v: int, sym: char| #[trigger]
                                    after.contains_key((v, sym)) implies 0 <= v <= s && exists|
                                    other: LR1Situation,
                                |
                                    enters(l, sets, v, other, sym, after[(v, sym)]) by {
                                    if v == s && sym == symbol {
                                        assert(enters(l, sets, v, it, sym, after[(v, sym)]));
                                    } else {
                                        assert(before.contains_key((v, sym)));
                                        let other = choose|other: LR1Situation|
                                            enters(l, sets, v, other, sym, before[(v, sym)]);
                                        assert(after[(v, sym)] == before[(v, sym)]);
                                        assert(enters(l, sets, v, other, sym, after[(v, sym)]));
                                    }
                                }
                            }
                        },
                        Err(e) => {
                            proof {
                                let held = cell(before, s as int, symbol);
                                assert(before.contains_key((s as int, symbol)));
                                let other = choose|other: LR1Situation|
                                    enters(l, sets, s as int, other, symbol, held);
                                assert(enters(l, sets, s as int, other, symbol, held));
                                assert(enters(l, sets, s as int, it, symbol, action));
                                assert(conflicting(l, sets));
                            }
                            return Err(e);
                        },
                    }
                }
                j += 1;
            }
            proof {
                assert forall|v: int, it: LR1Situation, symbol: char, action: LR1Action|
                    0 <= v < s + 1 && #[trigger] enters(
                        l,
                        sets,
                        v,
                        it,
                        symbol,
                        action,
                    ) implies cell(table_of(rows@), v, symbol) == action by {
                    if v == s {
                        let w = choose|w: int| 0 <= w < current.len() && current[w] == it;
                        assert(enters(l, sets, s as int, current[w], symbol, action));
                    }
                }
            }
            s += 1;
        }
        proof {
            if conflicting(l, sets) {
                let (v, one, other, symbol, a, b) = choose|
                    v: int,
                    one: LR1Situation,
                    other: LR1Situation,
                    symbol: char,
                    a: LR1Action,
                    b: LR1Action,
                |
                    0 <= v < sets.len() && #[trigger] enters(l, sets, v, one, symbol, a)
                        && #[trigger] enters(l, sets, v, other, symbol, b) && a != b;
                assert(cell(table_of(rows@), v, symbol) == a);
                assert(cell(table_of(rows@), v, symbol) == b);
            }
        }
        Ok(rows)
    }
}

/// What `fit` promises of an LR(1) recognizer: the driver starts in state 0;
/// a refused grammar leaves the recognizer without a grammar and without a
/// table; a context-free grammar is taken exactly when its action table has
/// no conflict, and a recognizer that took the grammar holds its action
/// table.
pub open spec fn lr_fitted_with(
    g: GrammarModel,
    outcome: Result<(), FitError>,
    after: LR1Parser,
) -> bool {
    &&& !g.context_free() <==> outcome == Err::<(), FitError>(FitError::NotContextFree)
    &&& outcome is Ok ==> after.fitted() == Some(g)
    &&& after.start_state() == 0
    &&& outcome is Err ==> after.fitted() is None && after.table() == Map::<
        (int, char),
        LR1Action,
    >::empty()
    &&& g.context_free() ==> (outcome is Ok <==> !lr1_conflict(g))
    &&& g.context_free() && outcome is Err ==> outcome == Err::<(), FitError>(FitError::NotLR1)
    &&& outcome is Ok ==> after.holds_table_of(g)
}

impl Clone for LR1Parser {
    /// The copy has the grammar, the table and the start state of the
    /// recognizer.
    fn clone(&self) -> (copy: Self)
        ensures
            copy.fitted() == self.fitted(),
            copy.table() == self.table(),
            copy.start_state() == self.start_state(),
    {
        let mut rows: Vec<HashMap<u32, LR1Action>> = Vec::new();
        let mut i: usize = 0;
        while i < self.transitions.len()
            invariant
                i <= self.transitions.len(),
                rows.len() == i,
                forall|k: int| 0 <= k < i ==> (#[trigger] rows@[k])@ == self.transitions@[k]@,
            decreases self.transitions.len() - i,
        {
            rows.push(self.transitions[i].clone());
            i += 1;
        }
        let grammar = match &self.grammar {
            Some(grammar) => Some(grammar.clone()),
            None => None,
        };
        let copy = Self { transitions: rows, start: self.start, grammar };
        assert(copy.table() =~= self.table());
        copy
    }
}

impl Default for LR1Parser {
    fn default() -> (parser: Self)
        ensures
            parser.fitted() is None,
            parser.table() == Map::<(int, char), LR1Action>::empty(),
    {
        Self::new()
    }
}

impl Parser for LR1Parser {
    closed spec fn fitted(&self) -> Option<GrammarModel> {
        match self.grammar {
            Some(grammar) => Some(grammar@),
            None => None,
        }
    }

    /// A fitted recognizer accepts the words of terminals, without the end
    /// marker, on which the driver, started in the start state, reaches
    /// acceptance within its step limit; one without a grammar accepts none.
    open spec fn accepts(&self, word: Seq<char>) -> bool {
        match self.fitted() {
            Some(g) => g.all_terminals(word) && !word.contains(END_TERMINAL) && drives(
                self.table(),
                seq![self.start_state()],
                initial_symbols(word),
                STEP_LIMIT as nat,
            ),
            None => false,
        }
    }

    /// Builds the action table of the grammar. A grammar that is not
    /// context-free is refused; so is one with two different actions in one
    /// cell of its table. A refused grammar leaves the recognizer without a
    /// table.
    fn fit(&mut self, grammar: &CFGrammar) -> (outcome: Result<(), FitError>)
        ensures
            lr_fitted_with(grammar@, outcome, *final(self)),
    {
        let rules = grammar.productions();
        if !grammar.is_context_free(&rules) {
            *self = Self::new();
            return Err(FitError::NotContextFree);
        }
        let start = grammar.get_start_rule();
        let start_rhs = chars_of(start.1.as_str());
        let ghost g = grammar@;
        let ghost l = listing_of(g, rule_views(rules@));
        proof {
            lemma_views_indexable(&rules);
            assert(g.rules[START_RULE].contains(g.start_rhs()));
            assert(g.has_rule(Rule { lhs: START_RULE, rhs: start_rhs@ }));
            assert(rule_views(rules@).contains(Rule { lhs: START_RULE, rhs: start_rhs@ }));
        }
        let start_rule = match find_production(&rules, START_RULE, &start_rhs) {
            Some(q) => q,
            None => {
                proof {
                    assert(false);
                }
                *self = Self::new();
                return Err(FitError::NotLR1);
            },
        };
        let states = get_states(grammar, &rules, start_rule);
        let ghost sets = state_sets(states@);
        proof {
            assert(l == automaton_listing(g));
            let rule = Rule { lhs: START_RULE, rhs: g.start_rhs() };
            assert(g.listing()[start_rule as int] == rule);
            let q = start_place(g);
            assert(0 <= q < g.listing().len() && g.listing()[q] == rule);
            lemma_same_place(l, rule, q, start_rule as int);
        }
        match Self::tabulate(grammar, &rules, &states) {
            Ok(rows) => {
                *self = LR1Parser { transitions: rows, start: 0, grammar: Some(grammar.clone()) };
                proof {
                    assert(self.listing() == l);
                    assert(self.start_rule() == start_rule as int);
                    assert(numbers_states(l, start_rule as int, sets) && tabulates(
                        l,
                        sets,
                        self.table(),
                    ));
                    if lr1_conflict(g) {
                        let other = choose|other: Seq<Set<LR1Situation>>| #[trigger]
                            numbers_states(l, start_rule as int, other) && conflicting(l, other);
                        lemma_numbering_unique(l, start_rule as int, other, sets);
                    }
                }
                Ok(())
            },
            Err(e) => {
                *self = LR1Parser { transitions: Vec::new(), start: 0, grammar: None };
                proof {
                    assert(self.table() =~= Map::<(int, char), LR1Action>::empty());
                    assert(numbers_states(l, start_rule as int, sets) && conflicting(l, sets));
                }
                Err(e)
            },
        }
    }

    /// Runs the driver on the word, unless the word holds a symbol that is
    /// no terminal, or the end marker: such a word is rejected. The
    /// recognizer stays as it is.
    fn predict(&mut self, word: &str) -> (accepted: bool)
        ensures
            *final(self) == *old(self),
    {
        let letters = chars_of(word);
        match &self.grammar {
            Some(grammar) => {
                if !grammar.all_terminal(&letters) || holds_symbol(&letters, END_TERMINAL) {
                    false
                } else {
                    drive(&self.transitions, self.start, &letters)
                }
            },
            None => false,
        }
    }
}

} // verus!
