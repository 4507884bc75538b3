//! The chart of the Earley recognizer holds every situation that may stand
//! in it.
use crate::derivation::{
    between, derives, lemma_spans_forward, lemma_spans_single, lemma_symbol_spans_elsewhere,
    lemma_symbol_spans_forward, spans, symbol_spans,
};
use crate::earley::{
    advanced, charting, dot_before, fresh, justified, layer_saturated, lemma_dot_advances,
    saturated, EarleySituation,
};
use crate::grammar::{lemma_listed_place, GrammarModel, Rule, START_RULE};
use vstd::prelude::*;

verus! {

/// Only one place of a list of the productions holds a production of the
/// start symbol.
pub proof fn lemma_start_place(g: GrammarModel, rules: Seq<Rule>, start_rule: int, q: int)
    requires
        g.augmented(),
        g.listed_by(rules),
        0 <= start_rule < rules.len(),
        rules[start_rule] == (Rule { lhs: START_RULE, rhs: g.start_rhs() }),
        0 <= q < rules.len(),
        rules[q].lhs == START_RULE,
    ensures
        q == start_rule,
{
    let r = rules[q];
    assert(rules.contains(r));
    assert(g.has_rule(r));
    let i = choose|i: int| 0 <= i < g.rules[START_RULE].len() && g.rules[START_RULE][i] == r.rhs;
    assert(r.rhs == g.start_rhs());
    assert(r == rules[start_rule]);
}

/// When the rest of a situation of layer `m` spans, in a word that begins
/// as the word of the chart does up to place `j`, a stretch from `m` over
/// place `j`, then layer `j` holds a situation with its dot before the symbol
/// of that word at place `j`.
#[verifier::rlimit(50)]
pub proof fn lemma_context_waits(
    g: GrammarModel,
    rules: Seq<Rule>,
    x: Seq<char>,
    chart: Seq<Vec<EarleySituation>>,
    y: Seq<char>,
    j: int,
    it: EarleySituation,
    m: int,
    e: int,
    depth: nat,
) -> (waiting: EarleySituation)
    requires
        charting(g, rules, x, chart),
        saturated(rules, x, chart),
        0 <= j <= x.len(),
        j < y.len(),
        y.take(j) == x.take(j),
        0 <= m <= j < e,
        chart[m]@.contains(it),
        it.rule < rules.len(),
        it.pos <= rules[it.rule as int].rhs.len(),
        spans(g, y, rules[it.rule as int].rhs.skip(it.pos as int), m, e, depth),
    ensures
        chart[j]@.contains(waiting),
        dot_before(rules, waiting, y[j]),
    decreases depth, rules[it.rule as int].rhs.len() - it.pos,
{
    let rhs = rules[it.rule as int].rhs;
    let rest = rhs.skip(it.pos as int);
    let c = choose|c: int| #[trigger]
        between(m, c, e) && symbol_spans(g, y, rest[0], m, c, depth) && spans(
            g,
            y,
            rest.drop_first(),
            c,
            e,
            depth,
        );
    let symbol = rhs[it.pos as int];
    assert(rest[0] == symbol);
    assert(dot_before(rules, it, symbol));
    lemma_symbol_spans_forward(g, y, symbol, m, c, depth);
    if j < c {
        if 0 <= m < y.len() && c == m + 1 && y[m] == symbol {
            it
        } else {
            let inner = choose|inner: Seq<char>| #[trigger]
                g.has_rule(Rule { lhs: symbol, rhs: inner }) && spans(
                    g,
                    y,
                    inner,
                    m,
                    c,
                    (depth - 1) as nat,
                );
            let q = lemma_listed_place(g, rules, Rule { lhs: symbol, rhs: inner });
            assert(layer_saturated(rules, chart, m));
            assert(dot_before(rules, it, rules[q].lhs));
            let start = fresh(q, m);
            assert(chart[m]@.contains(start));
            assert(rules[q].rhs.skip(0) =~= inner);
            lemma_context_waits(g, rules, x, chart, y, j, start, m, c, (depth - 1) as nat)
        }
    } else {
        assert forall|p: int| m <= p < c && p < y.len() implies x[p] == #[trigger] y[p] by {
            assert(y.take(j)[p] == y[p]);
            assert(x.take(j)[p] == x[p]);
        }
        lemma_symbol_spans_elsewhere(g, y, x, symbol, m, c, 0, depth);
        lemma_spans_single(g, x, symbol, m, c, depth);
        assert(rhs.subrange(it.pos as int, it.pos + 1) =~= seq![symbol]);
        lemma_dot_advances(g, rules, x, chart, it, m, c, it.pos + 1, depth);
        let next = advanced(it);
        assert(rest.drop_first() =~= rhs.skip(next.pos as int));
        lemma_context_waits(g, rules, x, chart, y, j, next, c, e, depth)
    }
}

/// A saturated chart that holds the start production in its first layer
/// holds, in each layer, every situation that may stand there.
#[verifier::rlimit(50)]
pub proof fn lemma_justified_in_chart(
    g: GrammarModel,
    rules: Seq<Rule>,
    x: Seq<char>,
    chart: Seq<Vec<EarleySituation>>,
    start_rule: int,
    it: EarleySituation,
    k: int,
)
    requires
        g.augmented(),
        charting(g, rules, x, chart),
        saturated(rules, x, chart),
        0 <= start_rule < rules.len(),
        rules[start_rule] == (Rule { lhs: START_RULE, rhs: g.start_rhs() }),
        chart[0]@.contains(fresh(start_rule, 0)),
        0 <= k <= x.len(),
        justified(g, rules, x, it, k),
    ensures
        chart[k]@.contains(it),
{
    let rule = rules[it.rule as int];
    let j = it.prev_cnt as int;
    let rest = choose|rest: Seq<char>| #[trigger]
        derives(g, seq![START_RULE], x.take(j).push(rule.lhs) + rest);
    let y = x.take(j).push(rule.lhs) + rest;
    let n = y.len() as int;
    let outer = choose|outer: nat| spans(g, y, seq![START_RULE], 0, n, outer);
    lemma_spans_single(g, y, START_RULE, 0, n, outer);
    assert(y[j] == rule.lhs);
    assert(y.take(j) =~= x.take(j));
    let seed = fresh(start_rule, 0);
    let begun = fresh(it.rule as int, j);
    if 0 < y.len() && n == 1 && y[0] == START_RULE {
        lemma_start_place(g, rules, start_rule, it.rule as int);
        assert(begun == seed);
    } else {
        let rhs = choose|rhs: Seq<char>| #[trigger]
            g.has_rule(Rule { lhs: START_RULE, rhs }) && spans(
                g,
                y,
                rhs,
                0,
                n,
                (outer - 1) as nat,
            );
        let i = choose|i: int| 0 <= i < g.rules[START_RULE].len() && g.rules[START_RULE][i] == rhs;
        assert(rhs == g.start_rhs());
        assert(rules[seed.rule as int].rhs.skip(0) =~= rhs);
        let waiting = lemma_context_waits(
            g,
            rules,
            x,
            chart,
            y,
            j,
            seed,
            0,
            n,
            (outer - 1) as nat,
        );
        assert(layer_saturated(rules, chart, j));
        assert(dot_before(rules, waiting, rules[it.rule as int].lhs));
        assert(chart[j]@.contains(begun));
    }
    let depth = choose|depth: nat|
        spans(g, x, rule.rhs.take(it.pos as int), it.prev_cnt as int, k, depth);
    assert(rule.rhs.subrange(0, it.pos as int) =~= rule.rhs.take(it.pos as int));
    lemma_dot_advances(g, rules, x, chart, begun, j, k, it.pos as int, depth);
}

} // verus!
