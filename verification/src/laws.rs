//! What holds of the recognizers whatever the grammar and the word.
use crate::derivation::{
    between, derives, language, lemma_spans_forward, lemma_spans_single, spans, symbol_spans,
};
use crate::earley::{earley_fitted_with, EarleyParser};
use crate::grammar::{GrammarModel, Rule, START_RULE};
use crate::recognizer::{answered, FitError, Parser};
use vstd::prelude::*;

verus! {

/// No production has an empty right-hand side.
pub open spec fn without_empty_rules(g: GrammarModel) -> bool {
    forall|r: Rule| #[trigger] g.has_rule(r) ==> r.rhs.len() > 0
}

/// The symbol `c` stands in the right-hand side of some production.
pub open spec fn occurs(g: GrammarModel, c: char) -> bool {
    exists|r: Rule| #[trigger] g.has_rule(r) && r.rhs.contains(c)
}

/// In an augmented grammar the start symbol derives a word exactly when the
/// word is the start symbol itself or the right-hand side of the start
/// production derives it.
pub proof fn lemma_start_derives(g: GrammarModel, w: Seq<char>)
    requires
        g.augmented(),
    ensures
        derives(g, seq![START_RULE], w) <==> w == seq![START_RULE] || derives(g, g.start_rhs(), w),
{
    let n = w.len() as int;
    if derives(g, seq![START_RULE], w) {
        let depth = choose|depth: nat| spans(g, w, seq![START_RULE], 0, n, depth);
        lemma_spans_single(g, w, START_RULE, 0, n, depth);
        if 0 < w.len() && n == 1 && w[0] == START_RULE {
            assert(w =~= seq![START_RULE]);
        } else {
            let rhs = choose|rhs: Seq<char>| #[trigger]
                g.has_rule(Rule { lhs: START_RULE, rhs }) && spans(
                    g,
                    w,
                    rhs,
                    0,
                    n,
                    (depth - 1) as nat,
                );
            let i = choose|i: int|
                0 <= i < g.rules[START_RULE].len() && g.rules[START_RULE][i] == rhs;
            assert(rhs == g.start_rhs());
        }
    }
    if w == seq![START_RULE] {
        assert(symbol_spans(g, w, START_RULE, 0, 1, 0));
        lemma_spans_single(g, w, START_RULE, 0, n, 0);
    }
    if derives(g, g.start_rhs(), w) {
        let depth = choose|depth: nat| spans(g, w, g.start_rhs(), 0, n, depth);
        assert(g.rules[START_RULE].contains(g.start_rhs()));
        assert(g.has_rule(Rule { lhs: START_RULE, rhs: g.start_rhs() }));
        lemma_spans_forward(g, w, g.start_rhs(), 0, n, depth);
        assert(symbol_spans(g, w, START_RULE, 0, n, depth + 1));
        lemma_spans_single(g, w, START_RULE, 0, n, depth + 1);
    }
}

/// A fitted Earley recognizer accepts exactly the words of the language of
/// its grammar.
pub proof fn law_earley_recognizes_language(parser: EarleyParser, g: GrammarModel, w: Seq<char>)
    requires
        parser.fitted() == Some(g),
        g.augmented(),
        g.classes_disjoint(),
    ensures
        parser.accepts(w) <==> language(g).contains(w),
{
    lemma_start_derives(g, w);
    if g.all_terminals(w) && w == seq![START_RULE] {
        assert(g.terminals.contains(w[0]));
        assert(g.non_terminals.contains(START_RULE));
    }
}

/// Asking twice gives one answer.
pub proof fn law_same_answer_twice<P: Parser>(
    before: P,
    word: Seq<char>,
    first: bool,
    between_calls: P,
    second: bool,
    after: P,
)
    requires
        answered(before, word, first, between_calls),
        answered(between_calls, word, second, after),
    ensures
        first == second,
{
}

/// Fitting an Earley recognizer twice with one grammar ends as fitting it
/// once: with the same outcome, and with the same grammar in the recognizer.
pub proof fn law_earley_fit_twice(
    before: EarleyParser,
    g: GrammarModel,
    first: Result<(), FitError>,
    between_calls: EarleyParser,
    second: Result<(), FitError>,
    after: EarleyParser,
)
    requires
        earley_fitted_with(before, g, first, between_calls),
        earley_fitted_with(between_calls, g, second, after),
    ensures
        first is Ok <==> second is Ok,
        first is Err ==> first == second,
        after.fitted() == between_calls.fitted(),
        forall|w: Seq<char>| after.accepts(w) == between_calls.accepts(w),
{
}

/// In a grammar without empty right-hand sides no production has one.
pub proof fn lemma_rule_not_empty(g: GrammarModel, r: Rule)
    requires
        without_empty_rules(g),
        g.has_rule(r),
    ensures
        r.rhs.len() > 0,
{
}

/// A symbol that occurs in no right-hand side is in none.
pub proof fn lemma_rule_lacks(g: GrammarModel, r: Rule, c: char)
    requires
        !occurs(g, c),
        g.has_rule(r),
    ensures
        !r.rhs.contains(c),
{
}

/// What spans a stretch of the word, in a grammar without empty right-hand
/// sides, is empty only if the stretch is.
pub proof fn lemma_spans_some(
    g: GrammarModel,
    x: Seq<char>,
    alpha: Seq<char>,
    i: int,
    k: int,
    depth: nat,
)
    requires
        without_empty_rules(g),
        spans(g, x, alpha, i, k, depth),
        0 <= i <= x.len(),
        alpha.len() > 0,
    ensures
        i < k,
    decreases depth, alpha.len() + 1,
{
    let m = choose|m: int| #[trigger]
        between(i, m, k) && symbol_spans(g, x, alpha[0], i, m, depth) && spans(
            g,
            x,
            alpha.drop_first(),
            m,
            k,
            depth,
        );
    if !(0 <= i < x.len() && m == i + 1 && x[i] == alpha[0]) {
        let rhs = choose|rhs: Seq<char>| #[trigger]
            g.has_rule(Rule { lhs: alpha[0], rhs }) && spans(g, x, rhs, i, m, (depth - 1) as nat);
        let rule = Rule { lhs: alpha[0], rhs };
        lemma_rule_not_empty(g, rule);
        lemma_spans_some(g, x, rhs, i, m, (depth - 1) as nat);
    }
}

/// The Earley recognizer accepts the empty word exactly when the language
/// holds it; it never does for a grammar without empty right-hand sides.
pub proof fn law_earley_empty_word(parser: EarleyParser, g: GrammarModel)
    requires
        parser.fitted() == Some(g),
        g.augmented(),
        g.classes_disjoint(),
    ensures
        parser.accepts(Seq::empty()) <==> language(g).contains(Seq::empty()),
        without_empty_rules(g) ==> !parser.accepts(Seq::empty()),
{
    let none = Seq::<char>::empty();
    law_earley_recognizes_language(parser, g, none);
    if without_empty_rules(g) && parser.accepts(none) {
        let depth = choose|depth: nat| spans(g, none, g.start_rhs(), 0, 0, depth);
        assert(g.rules[START_RULE].contains(g.start_rhs()));
        assert(g.has_rule(Rule { lhs: START_RULE, rhs: g.start_rhs() }));
        lemma_spans_some(g, none, g.start_rhs(), 0, 0, depth);
    }
}

/// A symbol that stands in no right-hand side and not in `alpha` stands
/// nowhere in what `alpha` spans.
pub proof fn lemma_spans_known_symbols(
    g: GrammarModel,
    x: Seq<char>,
    alpha: Seq<char>,
    i: int,
    k: int,
    depth: nat,
    c: char,
    at: int,
)
    requires
        !occurs(g, c),
        !alpha.contains(c),
        spans(g, x, alpha, i, k, depth),
        0 <= i <= at < k,
        at < x.len(),
    ensures
        x[at] != c,
    decreases depth, alpha.len() + 1,
{
    if alpha.len() > 0 {
        let m = choose|m: int| #[trigger]
            between(i, m, k) && symbol_spans(g, x, alpha[0], i, m, depth) && spans(
                g,
                x,
                alpha.drop_first(),
                m,
                k,
                depth,
            );
        if at < m {
            if 0 <= i < x.len() && m == i + 1 && x[i] == alpha[0] {
                assert(alpha.contains(alpha[0]));
            } else {
                let rhs = choose|rhs: Seq<char>| #[trigger]
                    g.has_rule(Rule { lhs: alpha[0], rhs }) && spans(
                        g,
                        x,
                        rhs,
                        i,
                        m,
                        (depth - 1) as nat,
                    );
                let rule = Rule { lhs: alpha[0], rhs };
                lemma_rule_lacks(g, rule, c);
                lemma_spans_known_symbols(g, x, rhs, i, m, (depth - 1) as nat, c, at);
            }
        } else {
            let rest = alpha.drop_first();
            assert forall|j: int| 0 <= j < rest.len() implies rest[j] != c by {
                assert(alpha[j + 1] == rest[j]);
                assert(alpha.contains(alpha[j + 1]));
            }
            lemma_spans_known_symbols(g, x, rest, m, k, depth, c, at);
        }
    }
}

/// The Earley recognizer rejects a word that holds a symbol which is no
/// terminal.
pub proof fn law_earley_unknown_symbol(parser: EarleyParser, g: GrammarModel, w: Seq<char>, c: char)
    requires
        parser.fitted() == Some(g),
        w.contains(c),
        !g.terminals.contains(c),
    ensures
        !parser.accepts(w),
{
}

} // verus!

