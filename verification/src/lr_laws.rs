//! What holds of the LR(1) recognizer whatever the grammar and the word.
use crate::closure::goto_of;
use crate::derivation::{derives, language, spans};
use crate::earley::EarleyParser;
use crate::grammar::{lemma_code, GrammarModel, Rule, END_TERMINAL, START_RULE};
use crate::items::{LR1Situation, Listing};
use crate::laws::{
    lemma_spans_known_symbols, lemma_spans_some, lemma_start_derives, occurs,
    without_empty_rules,
};
use crate::lr::{enters, lr_fitted_with, tabulates, LR1Parser};
use crate::lr_complete::{law_lr_accepts_derived, steps_enough};
use crate::lr_sound::{law_lr_accepts_only_derived, proper};
use crate::recognizer::{FitError, Parser};
use crate::states::{found_in_turn, new_step, numbers_states, sooner};
use crate::table::{cell, initial_symbols, lemma_more_steps, TableModel, STEP_LIMIT};
use vstd::prelude::*;

verus! {

/// A word that holds the end marker is not derived by a grammar that has the
/// end marker in no right-hand side.
pub proof fn lemma_end_marker_not_derived(g: GrammarModel, w: Seq<char>)
    requires
        g.augmented(),
        !occurs(g, END_TERMINAL),
        w.contains(END_TERMINAL),
    ensures
        !derives(g, g.start_rhs(), w),
{
    if derives(g, g.start_rhs(), w) {
        let depth = choose|depth: nat| spans(g, w, g.start_rhs(), 0, w.len() as int, depth);
        let at = choose|at: int| 0 <= at < w.len() && w[at] == END_TERMINAL;
        assert(g.rules[START_RULE].contains(g.start_rhs()));
        assert(g.has_rule(Rule { lhs: START_RULE, rhs: g.start_rhs() }));
        lemma_spans_known_symbols(
            g,
            w,
            g.start_rhs(),
            0,
            w.len() as int,
            depth,
            END_TERMINAL,
            at,
        );
    }
}

/// The two recognizers, fitted with one proper grammar, agree on every word:
/// what the LR(1) recognizer accepts the Earley recognizer accepts; and when
/// no right-hand side is empty, the LR(1) recognizer accepts what the Earley
/// recognizer accepts, unless the step limit of the driver is too small for
/// every derivation of the word.
pub proof fn law_recognizers_agree(
    chart: EarleyParser,
    table: LR1Parser,
    g: GrammarModel,
    w: Seq<char>,
)
    requires
        proper(g),
        chart.fitted() == Some(g),
        table.holds_table_of(g),
    ensures
        table.accepts(w) ==> chart.accepts(w),
        without_empty_rules(g) && chart.accepts(w) && !table.accepts(w) ==> forall|
            depth: nat,
        | #[trigger]
            spans(g, w, g.start_rhs(), 0, w.len() as int, depth) ==> steps_enough(w.len(), depth)
                > STEP_LIMIT,
{
    if table.accepts(w) {
        law_lr_accepts_only_derived(
            g,
            table.listing(),
            table.start_rule(),
            table.states(),
            table.table(),
            w,
            STEP_LIMIT as nat,
        );
    }
    if without_empty_rules(g) && chart.accepts(w) {
        if w.contains(END_TERMINAL) {
            lemma_end_marker_not_derived(g, w);
        }
        assert forall|depth: nat| #[trigger]
            spans(g, w, g.start_rhs(), 0, w.len() as int, depth) && steps_enough(w.len(), depth)
                <= STEP_LIMIT implies table.accepts(w) by {
            law_lr_accepts_derived(
                g,
                table.listing(),
                table.start_rule(),
                table.states(),
                table.table(),
                w,
                depth,
            );
            lemma_more_steps(
                table.table(),
                seq![0usize],
                initial_symbols(w),
                steps_enough(w.len(), depth),
                STEP_LIMIT as nat,
            );
        }
    }
}

/// A fitted LR(1) recognizer accepts exactly the words of the language of a
/// proper grammar without empty right-hand sides, unless the step limit of
/// the driver is too small for every derivation of the word.
pub proof fn law_lr_recognizes_language(table: LR1Parser, g: GrammarModel, w: Seq<char>)
    requires
        proper(g),
        table.holds_table_of(g),
    ensures
        table.accepts(w) ==> language(g).contains(w),
        without_empty_rules(g) && language(g).contains(w) && !table.accepts(w) ==> forall|
            depth: nat,
        | #[trigger]
            spans(g, w, g.start_rhs(), 0, w.len() as int, depth) ==> steps_enough(w.len(), depth)
                > STEP_LIMIT,
{
    lemma_start_derives(g, w);
    if g.all_terminals(w) && w == seq![START_RULE] {
        assert(g.terminals.contains(w[0]));
        assert(g.non_terminals.contains(START_RULE));
    }
    if table.accepts(w) {
        law_lr_accepts_only_derived(
            g,
            table.listing(),
            table.start_rule(),
            table.states(),
            table.table(),
            w,
            STEP_LIMIT as nat,
        );
    }
    if without_empty_rules(g) && language(g).contains(w) {
        if w.contains(END_TERMINAL) {
            lemma_end_marker_not_derived(g, w);
        }
        assert forall|depth: nat| #[trigger]
            spans(g, w, g.start_rhs(), 0, w.len() as int, depth) && steps_enough(w.len(), depth)
                <= STEP_LIMIT implies table.accepts(w) by {
            law_lr_accepts_derived(
                g,
                table.listing(),
                table.start_rule(),
                table.states(),
                table.table(),
                w,
                depth,
            );
            lemma_more_steps(
                table.table(),
                seq![0usize],
                initial_symbols(w),
                steps_enough(w.len(), depth),
                STEP_LIMIT as nat,
            );
        }
    }
}

/// A fitted LR(1) recognizer of a proper grammar without empty right-hand
/// sides rejects the empty word.
pub proof fn law_lr_empty_word(table: LR1Parser, g: GrammarModel)
    requires
        proper(g),
        without_empty_rules(g),
        table.holds_table_of(g),
    ensures
        !table.accepts(Seq::empty()),
{
    let none = Seq::<char>::empty();
    if table.accepts(none) {
        law_lr_accepts_only_derived(
            g,
            table.listing(),
            table.start_rule(),
            table.states(),
            table.table(),
            none,
            STEP_LIMIT as nat,
        );
        let depth = choose|depth: nat| spans(g, none, g.start_rhs(), 0, 0, depth);
        assert(g.rules[START_RULE].contains(g.start_rhs()));
        assert(g.has_rule(Rule { lhs: START_RULE, rhs: g.start_rhs() }));
        lemma_spans_some(g, none, g.start_rhs(), 0, 0, depth);
    }
}

/// The LR(1) recognizer rejects a word that holds a symbol which is no
/// terminal, and a word that holds the end marker.
pub proof fn law_lr_unknown_symbol(table: LR1Parser, w: Seq<char>, c: char)
    requires
        w.contains(c),
        c == END_TERMINAL || (table.fitted() matches Some(g) && !g.terminals.contains(c)),
    ensures
        !table.accepts(w),
{
}

/// Two numberings of the states of one automaton begin alike.
pub proof fn lemma_same_prefix(
    l: Listing,
    start_rule: int,
    states: Seq<Set<LR1Situation>>,
    others: Seq<Set<LR1Situation>>,
    k: int,
)
    requires
        numbers_states(l, start_rule, states),
        numbers_states(l, start_rule, others),
        0 <= k <= states.len(),
        k <= others.len(),
    ensures
        states.take(k) == others.take(k),
    decreases k,
{
    if k == 0 {
        assert(states.take(k) =~= others.take(k));
    } else {
        let at = k - 1;
        lemma_same_prefix(l, start_rule, states, others, at);
        assert forall|v: int| 0 <= v < at implies states[v] == others[v] by {
            assert(states.take(at)[v] == others.take(at)[v]);
        }
        if at > 0 {
            assert(found_in_turn(l, states, at));
            assert(found_in_turn(l, others, at));
            let (i, c) = choose|i: int, c: char|
                {
                    &&& #[trigger] new_step(l, states, at, i, c)
                    &&& states[at] == goto_of(l, states[i], c)
                    &&& forall|j: int, d: char| #[trigger]
                        new_step(l, states, at, j, d) ==> !sooner(j, d, i, c)
                };
            let (j, d) = choose|j: int, d: char|
                {
                    &&& #[trigger] new_step(l, others, at, j, d)
                    &&& others[at] == goto_of(l, others[j], d)
                    &&& forall|i: int, c: char| #[trigger]
                        new_step(l, others, at, i, c) ==> !sooner(i, c, j, d)
                };
            assert(new_step(l, others, at, i, c));
            assert(new_step(l, states, at, j, d));
            assert(!sooner(i, c, j, d));
            assert(!sooner(j, d, i, c));
            lemma_code(c);
            lemma_code(d);
            assert(c == d);
        }
        assert(states[at] == others[at]);
        assert(states.take(k) =~= others.take(k));
    }
}

/// The states of an automaton can be numbered in one way only.
pub proof fn lemma_numbering_unique(
    l: Listing,
    start_rule: int,
    states: Seq<Set<LR1Situation>>,
    others: Seq<Set<LR1Situation>>,
)
    requires
        numbers_states(l, start_rule, states),
        numbers_states(l, start_rule, others),
    ensures
        states == others,
{
    lemma_numbering_longest(l, start_rule, states, others);
    lemma_numbering_longest(l, start_rule, others, states);
    let n = states.len() as int;
    lemma_same_prefix(l, start_rule, states, others, n);
    assert(states.take(n) =~= states);
    assert(others.take(n) =~= others);
}

/// No numbering of the states of an automaton is longer than another.
pub proof fn lemma_numbering_longest(
    l: Listing,
    start_rule: int,
    states: Seq<Set<LR1Situation>>,
    others: Seq<Set<LR1Situation>>,
)
    requires
        numbers_states(l, start_rule, states),
        numbers_states(l, start_rule, others),
    ensures
        others.len() <= states.len(),
{
    if states.len() < others.len() {
        let k = states.len() as int;
        lemma_same_prefix(l, start_rule, states, others, k);
        assert(states.take(k) =~= states);
        assert(found_in_turn(l, others, k));
        let (i, c) = choose|i: int, c: char|
            {
                &&& #[trigger] new_step(l, others, k, i, c)
                &&& others[k] == goto_of(l, others[i], c)
                &&& forall|j: int, d: char| #[trigger]
                    new_step(l, others, k, j, d) ==> !sooner(j, d, i, c)
            };
        assert(others.take(k)[i] == states[i]);
        assert(states.contains(goto_of(l, states[i], c)));
    }
}

/// One numbering of the states leaves room for one action table only.
pub proof fn lemma_table_unique(
    l: Listing,
    states: Seq<Set<LR1Situation>>,
    table: TableModel,
    other: TableModel,
)
    requires
        tabulates(l, states, table),
        tabulates(l, states, other),
    ensures
        table == other,
{
    assert forall|k: (int, char)| #[trigger] table.dom().contains(k) <==> other.dom().contains(k) by {
        if table.contains_key(k) {
            lemma_table_within(l, states, table, other, k);
        }
        if other.contains_key(k) {
            lemma_table_within(l, states, other, table, k);
        }
    }
    assert(table.dom() =~= other.dom());
    assert forall|k: (int, char)| #[trigger] table.dom().contains(k) implies table[k] == other[k] by {
        lemma_table_within(l, states, table, other, k);
    }
    assert(table =~= other);
}

/// What one action table of a numbering holds in a cell the other holds
/// there as well.
pub proof fn lemma_table_within(
    l: Listing,
    states: Seq<Set<LR1Situation>>,
    table: TableModel,
    other: TableModel,
    k: (int, char),
)
    requires
        tabulates(l, states, table),
        tabulates(l, states, other),
        table.contains_key(k),
    ensures
        other.contains_key(k),
        other[k] == table[k],
{
    assert(table.contains_key((k.0, k.1)));
    let it = choose|it: LR1Situation| enters(l, states, k.0, it, k.1, table[(k.0, k.1)]);
    assert(enters(l, states, k.0, it, k.1, table[k]));
    assert(cell(other, k.0, k.1) == table[k]);
}

/// Only one place of a list without repetitions holds a given production.
pub proof fn lemma_same_place(l: Listing, r: Rule, p: int, q: int)
    requires
        l.rules.no_duplicates(),
        0 <= p < l.rules.len(),
        0 <= q < l.rules.len(),
        l.rules[p] == r,
        l.rules[q] == r,
    ensures
        p == q,
{
}

/// Fitting two LR(1) recognizers with one grammar, or one recognizer twice,
/// ends the same way: with the same outcome, and with recognizers that have
/// the same grammar, the same action table and the same start state, and so
/// accept the same words.
pub proof fn law_lr_fit_twice(
    g: GrammarModel,
    first: Result<(), FitError>,
    once: LR1Parser,
    second: Result<(), FitError>,
    twice: LR1Parser,
)
    requires
        lr_fitted_with(g, first, once),
        lr_fitted_with(g, second, twice),
    ensures
        first is Ok <==> second is Ok,
        first is Err ==> first == second,
        once.fitted() == twice.fitted(),
        once.table() == twice.table(),
        once.start_state() == twice.start_state(),
        forall|w: Seq<char>| once.accepts(w) == twice.accepts(w),
{
    if first is Ok {
        let l = once.listing();
        assert(twice.listing() == l);
        lemma_same_place(
            l,
            Rule { lhs: START_RULE, rhs: g.start_rhs() },
            once.start_rule(),
            twice.start_rule(),
        );
        lemma_numbering_unique(l, once.start_rule(), once.states(), twice.states());
        lemma_table_unique(l, once.states(), once.table(), twice.table());
    }
}

} // verus!
