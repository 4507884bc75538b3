//! Earley recognition: a chart of dotted productions, one layer per position
//! of the word.
use crate::derivation::{
    between, derives, lemma_spans_deeper, lemma_spans_elsewhere, lemma_spans_itself,
    lemma_spans_join, lemma_spans_push, lemma_spans_rewritten, lemma_symbol_spans_forward,
    replaced, spans, symbol_spans,
};
use crate::recognizer::{FitError, Parser};
use crate::counting::{cube, lemma_cube_finite, lemma_fits};
use crate::grammar::{
    chars_of, find_production, indexable, lemma_listed_place, lemma_longest,
    lemma_views_indexable, longest, rule_views, CFGrammar,
    GrammarModel, Production, Rule, START_RULE,
};
use vstd::prelude::*;

verus! {

/// A production with a dot in its right-hand side, and the layer in which the
/// production was predicted.
#[derive(Clone, Copy, Debug, PartialEq, Eq, Hash, Structural)]
pub struct EarleySituation {
    /// Which production, by its place in the parser's list.
    pub rule: usize,
    /// How many symbols of the right-hand side lie before the dot.
    pub pos: usize,
    /// The layer where the production was predicted.
    pub prev_cnt: usize,
}

impl EarleySituation {
    pub fn new(rule: usize, pos: usize, prev_cnt: usize) -> (s: Self)
        ensures
            s == (EarleySituation { rule, pos, prev_cnt }),
    {
        Self { rule, pos, prev_cnt }
    }

    /// The symbol at place `pos` of the production's right-hand side, or the
    /// null character when the right-hand side is shorter.
    pub fn nth(&self, rules: &Vec<Production>, pos: usize) -> (c: char)
        requires
            self.rule < rules.len(),
        ensures
            c == symbol_at(rules@[self.rule as int]@.rhs, pos as int),
    {
        if pos < rules[self.rule].rhs.len() {
            rules[self.rule].rhs[pos]
        } else {
            '\0'
        }
    }
}

/// The symbol at place `pos` of `rhs`, or the null character past its end.
pub open spec fn symbol_at(rhs: Seq<char>, pos: int) -> char {
    if 0 <= pos < rhs.len() {
        rhs[pos]
    } else {
        '\0'
    }
}

/// The dot of `it` stands right before the symbol `s`.
pub open spec fn dot_before(rules: Seq<Rule>, it: EarleySituation, s: char) -> bool {
    &&& it.rule < rules.len()
    &&& it.pos < rules[it.rule as int].rhs.len()
    &&& rules[it.rule as int].rhs[it.pos as int] == s
}

/// The dot of `it` stands at the end of its production.
pub open spec fn finished(rules: Seq<Rule>, it: EarleySituation) -> bool {
    it.rule < rules.len() && it.pos == rules[it.rule as int].rhs.len()
}

/// `it` with its dot moved over one symbol.
pub open spec fn advanced(it: EarleySituation) -> EarleySituation {
    EarleySituation { rule: it.rule, pos: (it.pos + 1) as usize, prev_cnt: it.prev_cnt }
}

/// The situation that predicts production `q` in layer `k`.
pub open spec fn fresh(q: int, k: int) -> EarleySituation {
    EarleySituation { rule: q as usize, pos: 0, prev_cnt: k as usize }
}

/// A production of `lhs` may come up at place `j` of the word: the start
/// symbol derives the word up to `j`, then `lhs`, then some more symbols.
pub open spec fn in_context(g: GrammarModel, x: Seq<char>, lhs: char, j: int) -> bool {
    exists|rest: Seq<char>| #[trigger] derives(g, seq![START_RULE], x.take(j).push(lhs) + rest)
}

/// `it` may stand in layer `k`: its production may come up at the layer of
/// its prediction, and what lies before its dot spans the word from that
/// layer to `k`.
pub open spec fn justified(
    g: GrammarModel,
    rules: Seq<Rule>,
    x: Seq<char>,
    it: EarleySituation,
    k: int,
) -> bool {
    &&& it.rule < rules.len()
    &&& it.pos <= rules[it.rule as int].rhs.len()
    &&& it.prev_cnt <= k
    &&& in_context(g, x, rules[it.rule as int].lhs, it.prev_cnt as int)
    &&& exists|depth: nat|
        spans(g, x, rules[it.rule as int].rhs.take(it.pos as int), it.prev_cnt as int, k, depth)
}

/// A layer holds no situation twice, and only justified ones.
pub open spec fn layer_ok(
    g: GrammarModel,
    rules: Seq<Rule>,
    x: Seq<char>,
    layer: Seq<EarleySituation>,
    k: int,
) -> bool {
    &&& layer.no_duplicates()
    &&& forall|it: EarleySituation| #[trigger] layer.contains(it) ==> justified(g, rules, x, it, k)
}

/// Every layer of the chart is in order.
pub open spec fn chart_ok(
    g: GrammarModel,
    rules: Seq<Rule>,
    x: Seq<char>,
    chart: Seq<Vec<EarleySituation>>,
) -> bool {
    &&& chart.len() <= x.len() + 1
    &&& forall|c: int| 0 <= c < chart.len() ==> layer_ok(g, rules, x, (#[trigger] chart[c])@, c)
}

/// `next` holds, for each situation of `layer` whose dot stands before a
/// symbol with productions, the prediction of each of them in layer `k`.
pub open spec fn predicted(
    rules: Seq<Rule>,
    layer: Seq<EarleySituation>,
    next: Seq<EarleySituation>,
    k: int,
) -> bool {
    forall|it: EarleySituation, q: int|
        layer.contains(it) && 0 <= q < rules.len() && #[trigger] dot_before(
            rules,
            it,
            rules[q].lhs,
        ) ==> next.contains(fresh(q, k))
}

/// `next` holds, for each situation of `layer` whose dot stands before the
/// symbol `letter`, the situation with the dot moved over it.
pub open spec fn scanned(
    rules: Seq<Rule>,
    letter: char,
    layer: Seq<EarleySituation>,
    next: Seq<EarleySituation>,
) -> bool {
    forall|it: EarleySituation|
        layer.contains(it) && #[trigger] dot_before(rules, it, letter) ==> next.contains(
            advanced(it),
        )
}

/// `next` holds, for each finished situation of `layer` and each situation
/// that waits for its left-hand side in the layer where it was predicted, the
/// waiting situation with the dot moved on. `older` is the chart below `layer`.
pub open spec fn completed(
    rules: Seq<Rule>,
    older: Seq<Vec<EarleySituation>>,
    layer: Seq<EarleySituation>,
    next: Seq<EarleySituation>,
) -> bool {
    forall|done: EarleySituation, waiting: EarleySituation|
        layer.contains(done) && finished(rules, done) && #[trigger] origin_layer(
            older,
            layer,
            done,
        ).contains(waiting) && #[trigger] dot_before(rules, waiting, rules[done.rule as int].lhs)
            ==> next.contains(advanced(waiting))
}

/// The layer in which `done` was predicted: one of `older`, or `layer` itself.
pub open spec fn origin_layer(
    older: Seq<Vec<EarleySituation>>,
    layer: Seq<EarleySituation>,
    done: EarleySituation,
) -> Seq<EarleySituation> {
    if done.prev_cnt < older.len() {
        older[done.prev_cnt as int]@
    } else {
        layer
    }
}

/// `longer` begins with all of `layer`.
pub open spec fn extends(longer: Seq<EarleySituation>, layer: Seq<EarleySituation>) -> bool {
    &&& layer.len() <= longer.len()
    &&& forall|i: int| 0 <= i < layer.len() ==> longer[i] == layer[i]
}

/// What the steps of the recognizer work with: a list of the productions of
/// `g` and a chart for the word `x` whose layers are in order.
pub open spec fn charting(
    g: GrammarModel,
    rules: Seq<Rule>,
    x: Seq<char>,
    chart: Seq<Vec<EarleySituation>>,
) -> bool {
    &&& indexable(rules)
    &&& g.listed_by(rules)
    &&& chart_ok(g, rules, x, chart)
}

/// Whether `layer` holds `it`.
pub fn holds(layer: &Vec<EarleySituation>, it: EarleySituation) -> (found: bool)
    ensures
        found == layer@.contains(it),
{
    let mut i: usize = 0;
    while i < layer.len()
        invariant
            i <= layer.len(),
            forall|j: int| 0 <= j < i ==> layer@[j] != it,
        decreases layer.len() - i,
    {
        if layer[i] == it {
            return true;
        }
        i += 1;
    }
    false
}

/// Puts `it` at the end of `layer` unless the layer holds it already.
pub fn put(layer: &mut Vec<EarleySituation>, it: EarleySituation)
    ensures
        final(layer)@ == if old(layer)@.contains(it) {
            old(layer)@
        } else {
            old(layer)@.push(it)
        },
        final(layer)@.contains(it),
        old(layer)@.no_duplicates() ==> final(layer)@.no_duplicates(),
        extends(final(layer)@, old(layer)@),
        forall|other: EarleySituation|
            final(layer)@.contains(other) <==> other == it || old(layer)@.contains(other),
{
    if !holds(layer, it) {
        layer.push(it);
        proof {
            let before = old(layer)@;
            assert(layer@[before.len() as int] == it);
            assert forall|other: EarleySituation| before.contains(other) implies layer@.contains(
                other,
            ) by {
                let i = choose|i: int| 0 <= i < before.len() && before[i] == other;
                assert(layer@[i] == other);
            }
        }
    }
}

/// `it` is the prediction, in layer `k`, of a production of the symbol that
/// stands behind the dot of some situation of `layer`.
pub open spec fn is_prediction(
    rules: Seq<Rule>,
    layer: Seq<EarleySituation>,
    it: EarleySituation,
    k: int,
) -> bool {
    exists|parent: EarleySituation, q: int|
        layer.contains(parent) && 0 <= q < rules.len() && #[trigger] dot_before(
            rules,
            parent,
            rules[q].lhs,
        ) && it == fresh(q, k)
}

/// `it` comes from a situation of `layer` by moving the dot over `letter`.
pub open spec fn is_scan(
    rules: Seq<Rule>,
    letter: char,
    layer: Seq<EarleySituation>,
    it: EarleySituation,
) -> bool {
    exists|parent: EarleySituation|
        layer.contains(parent) && #[trigger] dot_before(rules, parent, letter) && it == advanced(
            parent,
        )
}

/// `it` comes from a situation that waited, in the layer where a finished
/// situation of `layer` was predicted, for that situation's left-hand side.
pub open spec fn is_completion(
    rules: Seq<Rule>,
    older: Seq<Vec<EarleySituation>>,
    layer: Seq<EarleySituation>,
    it: EarleySituation,
) -> bool {
    exists|done: EarleySituation, waiting: EarleySituation|
        layer.contains(done) && finished(rules, done) && #[trigger] origin_layer(
            older,
            layer,
            done,
        ).contains(waiting) && #[trigger] dot_before(rules, waiting, rules[done.rule as int].lhs)
            && it == advanced(waiting)
}

/// The start production may stand, with its dot at the start, in the first
/// layer.
pub proof fn lemma_seed_justified(g: GrammarModel, rules: Seq<Rule>, x: Seq<char>, q: int)
    requires
        indexable(rules),
        0 <= q < rules.len(),
        rules[q].lhs == START_RULE,
    ensures
        justified(g, rules, x, fresh(q, 0), 0),
{
    let it = fresh(q, 0);
    assert(it.rule as int == q);
    assert(rules[q].rhs.take(0) =~= Seq::<char>::empty());
    assert(spans(g, x, rules[it.rule as int].rhs.take(it.pos as int), it.prev_cnt as int, 0, 0));
    let word = x.take(0).push(START_RULE) + Seq::<char>::empty();
    assert(word =~= seq![START_RULE]);
    assert(symbol_spans(g, word, START_RULE, 0, 1, 0));
    crate::derivation::lemma_spans_single(g, word, START_RULE, 0, 1, 0);
    assert(derives(g, seq![START_RULE], word));
}

/// A production of the symbol behind the dot of a situation of layer `k` may
/// stand, with its dot at the start, in layer `k`.
#[verifier::rlimit(50)]
pub proof fn lemma_prediction_justified(
    g: GrammarModel,
    rules: Seq<Rule>,
    x: Seq<char>,
    parent: EarleySituation,
    q: int,
    k: int,
)
    requires
        indexable(rules),
        g.listed_by(rules),
        justified(g, rules, x, parent, k),
        0 <= q < rules.len(),
        dot_before(rules, parent, rules[q].lhs),
        0 <= k <= x.len(),
        k <= usize::MAX,
    ensures
        justified(g, rules, x, fresh(q, k), k),
{
    let it = fresh(q, k);
    assert(it.rule as int == q);
    assert(it.prev_cnt as int == k);
    assert(rules[q].rhs.take(0) =~= Seq::<char>::empty());
    assert(spans(g, x, rules[it.rule as int].rhs.take(it.pos as int), it.prev_cnt as int, k, 0));
    let rule = rules[parent.rule as int];
    let j = parent.prev_cnt as int;
    let before = rule.rhs.take(parent.pos as int);
    let after = rule.rhs.skip(parent.pos + 1);
    let symbol = rules[q].lhs;
    let rest = choose|rest: Seq<char>| #[trigger]
        derives(g, seq![START_RULE], x.take(j).push(rule.lhs) + rest);
    let y = x.take(j).push(rule.lhs) + rest;
    let outer = choose|outer: nat| spans(g, y, seq![START_RULE], 0, y.len() as int, outer);
    let inner = choose|inner: nat| spans(g, x, before, j, k, inner);
    let r = x.subrange(j, k).push(symbol) + after;
    lemma_spans_elsewhere(g, x, r, before, j, k, -j, inner);
    lemma_spans_itself(g, r, k - j, r.len() as int);
    assert(r.subrange(k - j, r.len() as int) =~= seq![symbol] + after);
    lemma_spans_deeper(g, r, seq![symbol] + after, k - j, r.len() as int, 0, inner);
    lemma_spans_join(g, r, before, seq![symbol] + after, 0, k - j, r.len() as int, inner);
    assert(before + (seq![symbol] + after) =~= rule.rhs);
    assert(rules.contains(rule));
    assert(g.has_rule(rule));
    lemma_spans_rewritten(g, y, j, rule, r, inner, seq![START_RULE], 0, y.len() as int, outer);
    let z = replaced(y, j, r);
    assert(z =~= x.take(k).push(symbol) + (after + rest));
    assert(derives(g, seq![START_RULE], x.take(k).push(symbol) + (after + rest)));
}

/// Moving the dot over the next letter of the word leads to the next layer.
pub proof fn lemma_scan_justified(
    g: GrammarModel,
    rules: Seq<Rule>,
    x: Seq<char>,
    it: EarleySituation,
    k: int,
)
    requires
        indexable(rules),
        justified(g, rules, x, it, k),
        0 <= k < x.len(),
        dot_before(rules, it, x[k]),
    ensures
        justified(g, rules, x, advanced(it), k + 1),
{
    let rhs = rules[it.rule as int].rhs;
    let depth = choose|depth: nat|
        spans(g, x, rhs.take(it.pos as int), it.prev_cnt as int, k, depth);
    lemma_spans_push(g, x, rhs.take(it.pos as int), x[k], it.prev_cnt as int, k, k + 1, depth);
    assert(rhs.take(it.pos + 1) =~= rhs.take(it.pos as int).push(x[k]));
    let next = advanced(it);
    assert(next.pos as int == it.pos + 1);
    assert(spans(
        g,
        x,
        rules[next.rule as int].rhs.take(next.pos as int),
        next.prev_cnt as int,
        k + 1,
        depth,
    ));
}

/// Moving the dot of a waiting situation over the left-hand side of a
/// finished one leads to the layer of the finished one.
pub proof fn lemma_completion_justified(
    g: GrammarModel,
    rules: Seq<Rule>,
    x: Seq<char>,
    done: EarleySituation,
    waiting: EarleySituation,
    k: int,
)
    requires
        indexable(rules),
        g.listed_by(rules),
        justified(g, rules, x, done, k),
        finished(rules, done),
        justified(g, rules, x, waiting, done.prev_cnt as int),
        dot_before(rules, waiting, rules[done.rule as int].lhs),
    ensures
        justified(g, rules, x, advanced(waiting), k),
{
    let rule = rules[done.rule as int];
    let rhs = rules[waiting.rule as int].rhs;
    let mid = done.prev_cnt as int;
    let inner = choose|depth: nat| spans(g, x, rule.rhs.take(done.pos as int), mid, k, depth);
    let outer = choose|depth: nat|
        spans(g, x, rhs.take(waiting.pos as int), waiting.prev_cnt as int, mid, depth);
    assert(rule.rhs.take(done.pos as int) =~= rule.rhs);
    assert(rules.contains(rule));
    assert(g.has_rule(Rule { lhs: rule.lhs, rhs: rule.rhs }));
    let depth = if outer > inner + 1 {
        outer
    } else {
        inner + 1
    };
    lemma_spans_deeper(g, x, rule.rhs, mid, k, inner, (depth - 1) as nat);
    assert(symbol_spans(g, x, rule.lhs, mid, k, depth));
    lemma_spans_deeper(
        g,
        x,
        rhs.take(waiting.pos as int),
        waiting.prev_cnt as int,
        mid,
        outer,
        depth,
    );
    lemma_spans_push(
        g,
        x,
        rhs.take(waiting.pos as int),
        rule.lhs,
        waiting.prev_cnt as int,
        mid,
        k,
        depth,
    );
    assert(rhs.take(waiting.pos + 1) =~= rhs.take(waiting.pos as int).push(rule.lhs));
    let next = advanced(waiting);
    assert(next.pos as int == waiting.pos + 1);
    assert(spans(
        g,
        x,
        rules[next.rule as int].rhs.take(next.pos as int),
        next.prev_cnt as int,
        k,
        depth,
    ));
}

/// The chart of the word `x` is as it should be: it has a layer for each
/// place of the word and one behind it, and layer `k` holds, each once,
/// exactly the situations that may stand there, the productions taken in
/// their standing order.
pub open spec fn chart_of(g: GrammarModel, x: Seq<char>, chart: Seq<Seq<EarleySituation>>) -> bool {
    &&& chart.len() == x.len() + 1
    &&& forall|k: int| 0 <= k <= x.len() ==> (#[trigger] chart[k]).no_duplicates()
    &&& forall|k: int, it: EarleySituation|
        0 <= k <= x.len() ==> (#[trigger] chart[k].contains(it) <==> justified(
            g,
            g.listing(),
            x,
            it,
            k,
        ))
}

/// What `fit` promises of an Earley recognizer: the grammar is taken exactly
/// when it is context-free; a recognizer that took the grammar has an empty
/// chart, and a refused grammar leaves the recognizer with the grammar and
/// the chart it had.
pub open spec fn earley_fitted_with(
    before: EarleyParser,
    g: GrammarModel,
    outcome: Result<(), FitError>,
    after: EarleyParser,
) -> bool {
    &&& !g.context_free() <==> outcome == Err::<(), FitError>(FitError::NotContextFree)
    &&& outcome is Ok ==> after.fitted() == Some(g)
    &&& outcome is Ok <==> g.context_free()
    &&& outcome is Ok ==> after.chart() == Seq::<Seq<EarleySituation>>::empty()
    &&& outcome is Err ==> after.fitted() == before.fitted() && after.chart() == before.chart()
}

/// Recognizes the words of a grammar by Earley's algorithm.
#[derive(Debug)]
pub struct EarleyParser {
    grammar: Option<CFGrammar>,
    rules: Vec<Production>,
    situations: Vec<Vec<EarleySituation>>,
}

impl EarleyParser {
    #[verifier::type_invariant]
    spec fn lists_its_grammar(self) -> bool {
        match self.grammar {
            Some(grammar) => grammar@.listed_by(rule_views(self.rules@)) && rule_views(
                self.rules@,
            ) == grammar@.listing(),
            None => true,
        }
    }

    /// The chart of the last word that the recognizer was asked about, layer
    /// by layer.
    pub closed spec fn chart(&self) -> Seq<Seq<EarleySituation>> {
        self.situations@.map_values(|layer: Vec<EarleySituation>| layer@)
    }

    /// The chart of the last word that the recognizer was asked about.
    pub fn situations(&self) -> (layers: &Vec<Vec<EarleySituation>>)
        ensures
            layers@.map_values(|layer: Vec<EarleySituation>| layer@) == self.chart(),
    {
        &self.situations
    }

    /// A recognizer without a grammar: it accepts nothing.
    pub fn new() -> (parser: Self)
        ensures
            parser.fitted() is None,
            parser.chart() == Seq::<Seq<EarleySituation>>::empty(),
    {
        let parser = Self { grammar: None, rules: Vec::new(), situations: Vec::new() };
        assert(parser.chart() =~= Seq::<Seq<EarleySituation>>::empty());
        parser
    }

    /// Refuses a grammar that has a production whose left-hand side is not a
    /// non-terminal. `rules` lists the productions of `grammar`.
    pub fn check_grammar(grammar: &CFGrammar, rules: &Vec<Production>) -> (outcome: Result<
        (),
        FitError,
    >)
        requires
            grammar@.listed_by(rule_views(rules@)),
        ensures
            outcome is Ok <==> grammar@.context_free(),
            outcome is Err ==> outcome == Err::<(), FitError>(FitError::NotContextFree),
    {
        if grammar.is_context_free(rules) {
            Ok(())
        } else {
            Err(FitError::NotContextFree)
        }
    }

    /// Adds to the last layer the predictions that its situations call for.
    pub fn predict(
        rules: &Vec<Production>,
        chart: &mut Vec<Vec<EarleySituation>>,
        curr_cnt: usize,
        Ghost(g): Ghost<GrammarModel>,
        Ghost(x): Ghost<Seq<char>>,
    )
        requires
            charting(g, rule_views(rules@), x, old(chart)@),
            curr_cnt + 1 == old(chart).len(),
        ensures
            charting(g, rule_views(rules@), x, final(chart)@),
            final(chart)@.len() == old(chart)@.len(),
            forall|c: int| 0 <= c < curr_cnt ==> final(chart)@[c] == old(chart)@[c],
            extends(final(chart)@[curr_cnt as int]@, old(chart)@[curr_cnt as int]@),
            predicted(
                rule_views(rules@),
                old(chart)@[curr_cnt as int]@,
                final(chart)@[curr_cnt as int]@,
                curr_cnt as int,
            ),
            forall|it: EarleySituation| #[trigger]
                final(chart)@[curr_cnt as int]@.contains(it) ==> old(chart)@[curr_cnt as int]@.contains(
                    it,
                ) || is_prediction(
                    rule_views(rules@),
                    old(chart)@[curr_cnt as int]@,
                    it,
                    curr_cnt as int,
                ),
    {
        let ghost list = rule_views(rules@);
        let ghost before = chart@[curr_cnt as int]@;
        let ghost k = curr_cnt as int;
        let count = chart[curr_cnt].len();
        let mut j: usize = 0;
        while j < count
            invariant
                j <= count,
                count == before.len(),
                k == curr_cnt,
                curr_cnt + 1 == chart.len(),
                chart.len() == old(chart).len(),
                list == rule_views(rules@),
                before == old(chart)@[k]@,
                indexable(list),
                g.listed_by(list),
                chart.len() <= x.len() + 1,
                forall|c: int| 0 <= c < curr_cnt ==> chart@[c] == old(chart)@[c],
                layer_ok(g, list, x, chart@[k]@, k),
                extends(chart@[k]@, before),
                forall|i: int, q: int|
                    0 <= i < j && 0 <= q < list.len() && #[trigger] dot_before(
                        list,
                        before[i],
                        list[q].lhs,
                    ) ==> chart@[k]@.contains(fresh(q, k)),
                forall|it: EarleySituation| #[trigger]
                    chart@[k]@.contains(it) ==> before.contains(it) || is_prediction(
                        list,
                        before,
                        it,
                        k,
                    ),
            decreases count - j,
        {
            let parent = chart[curr_cnt][j];
            assert(parent == before[j as int]);
            assert(before.contains(parent));
            assert(chart@[k]@.contains(parent));
            if parent.pos < rules[parent.rule].rhs.len() {
                let symbol = parent.nth(rules, parent.pos);
                assert(symbol == list[parent.rule as int].rhs[parent.pos as int]);
                let mut q: usize = 0;
                while q < rules.len()
                    invariant
                        q <= rules.len(),
                        j < count,
                        count == before.len(),
                        k == curr_cnt,
                        curr_cnt + 1 == chart.len(),
                        chart.len() == old(chart).len(),
                        list == rule_views(rules@),
                        before == old(chart)@[k]@,
                        indexable(list),
                        g.listed_by(list),
                        chart.len() <= x.len() + 1,
                        parent == before[j as int],
                        before.contains(parent),
                        dot_before(list, parent, symbol),
                        forall|c: int| 0 <= c < curr_cnt ==> chart@[c] == old(chart)@[c],
                        layer_ok(g, list, x, chart@[k]@, k),
                        extends(chart@[k]@, before),
                        forall|i: int, q: int|
                            0 <= i < j && 0 <= q < list.len() && #[trigger] dot_before(
                                list,
                                before[i],
                                list[q].lhs,
                            ) ==> chart@[k]@.contains(fresh(q, k)),
                        forall|p: int|
                            0 <= p < q && #[trigger] list[p].lhs == symbol ==> chart@[k]@.contains(
                                fresh(p, k),
                            ),
                        forall|it: EarleySituation| #[trigger]
                            chart@[k]@.contains(it) ==> before.contains(it) || is_prediction(
                                list,
                                before,
                                it,
                                k,
                            ),
                    decreases rules.len() - q,
                {
                    if rules[q].lhs == symbol {
                        let it = EarleySituation::new(q, 0, curr_cnt);
                        proof {
                            assert(chart@[k]@.contains(parent));
                            lemma_prediction_justified(g, list, x, parent, q as int, k);
                            assert(it == fresh(q as int, k));
                            assert(dot_before(list, parent, list[q as int].lhs));
                            assert(is_prediction(list, before, it, k));
                        }
                        put(&mut chart[curr_cnt], it);
                    }
                    q += 1;
                }
            }
            j += 1;
        }
    }

    /// Opens the next layer with the situations of the last one whose dot
    /// moves over `letter`.
    pub fn scan(
        rules: &Vec<Production>,
        chart: &mut Vec<Vec<EarleySituation>>,
        letter: char,
        curr_cnt: usize,
        Ghost(g): Ghost<GrammarModel>,
        Ghost(x): Ghost<Seq<char>>,
    )
        requires
            charting(g, rule_views(rules@), x, old(chart)@),
            curr_cnt + 1 == old(chart).len(),
            curr_cnt < x.len(),
            letter == x[curr_cnt as int],
        ensures
            charting(g, rule_views(rules@), x, final(chart)@),
            final(chart)@.len() == old(chart)@.len() + 1,
            forall|c: int| 0 <= c <= curr_cnt ==> final(chart)@[c] == old(chart)@[c],
            scanned(
                rule_views(rules@),
                letter,
                old(chart)@[curr_cnt as int]@,
                final(chart)@[curr_cnt + 1]@,
            ),
            forall|it: EarleySituation| #[trigger]
                final(chart)@[curr_cnt + 1]@.contains(it) ==> is_scan(
                    rule_views(rules@),
                    letter,
                    old(chart)@[curr_cnt as int]@,
                    it,
                ),
    {
        let ghost list = rule_views(rules@);
        let ghost before = chart@[curr_cnt as int]@;
        let ghost k = curr_cnt as int;
        let mut next: Vec<EarleySituation> = Vec::new();
        let count = chart[curr_cnt].len();
        let mut j: usize = 0;
        while j < count
            invariant
                j <= count,
                count == before.len(),
                k == curr_cnt,
                0 <= k < x.len(),
                letter == x[k],
                chart@ == old(chart)@,
                curr_cnt + 1 == chart.len(),
                list == rule_views(rules@),
                before == chart@[k]@,
                indexable(list),
                g.listed_by(list),
                layer_ok(g, list, x, before, k),
                layer_ok(g, list, x, next@, k + 1),
                forall|i: int|
                    0 <= i < j && #[trigger] dot_before(list, before[i], letter) ==> next@.contains(
                        advanced(before[i]),
                    ),
                forall|it: EarleySituation| #[trigger]
                    next@.contains(it) ==> is_scan(list, letter, before, it),
            decreases count - j,
        {
            let parent = chart[curr_cnt][j];
            assert(before.contains(parent));
            if parent.pos < rules[parent.rule].rhs.len() && parent.nth(rules, parent.pos)
                == letter {
                let it = EarleySituation::new(parent.rule, parent.pos + 1, parent.prev_cnt);
                proof {
                    lemma_scan_justified(g, list, x, parent, k);
                    assert(it == advanced(parent));
                    assert(dot_before(list, parent, letter));
                    assert(is_scan(list, letter, before, it));
                }
                put(&mut next, it);
            }
            j += 1;
        }
        chart.push(next);
        proof {
            assert forall|c: int| 0 <= c < chart@.len() implies layer_ok(
                g,
                list,
                x,
                (#[trigger] chart@[c])@,
                c,
            ) by {
                if c <= k {
                    assert(chart@[c] == old(chart)@[c]);
                }
            }
            assert forall|it: EarleySituation|
                before.contains(it) && #[trigger] dot_before(
                    list,
                    it,
                    letter,
                ) implies chart@[k + 1]@.contains(advanced(it)) by {
                let i = choose|i: int| 0 <= i < before.len() && before[i] == it;
                assert(dot_before(list, before[i], letter));
            }
        }
    }

    /// Adds to the last layer, for each of its finished situations, the
    /// situations that waited for it with their dot moved on.
    pub fn complete(
        rules: &Vec<Production>,
        chart: &mut Vec<Vec<EarleySituation>>,
        curr_cnt: usize,
        Ghost(g): Ghost<GrammarModel>,
        Ghost(x): Ghost<Seq<char>>,
    )
        requires
            charting(g, rule_views(rules@), x, old(chart)@),
            curr_cnt + 1 == old(chart).len(),
        ensures
            charting(g, rule_views(rules@), x, final(chart)@),
            final(chart)@.len() == old(chart)@.len(),
            forall|c: int| 0 <= c < curr_cnt ==> final(chart)@[c] == old(chart)@[c],
            extends(final(chart)@[curr_cnt as int]@, old(chart)@[curr_cnt as int]@),
            completed(
                rule_views(rules@),
                old(chart)@.take(curr_cnt as int),
                old(chart)@[curr_cnt as int]@,
                final(chart)@[curr_cnt as int]@,
            ),
            forall|it: EarleySituation| #[trigger]
                final(chart)@[curr_cnt as int]@.contains(it) ==> old(chart)@[curr_cnt as int]@.contains(
                    it,
                ) || is_completion(
                    rule_views(rules@),
                    old(chart)@.take(curr_cnt as int),
                    final(chart)@[curr_cnt as int]@,
                    it,
                ),
    {
        let ghost list = rule_views(rules@);
        let ghost before = chart@[curr_cnt as int]@;
        let ghost k = curr_cnt as int;
        let ghost older = chart@.take(k);
        let count = chart[curr_cnt].len();
        let mut j: usize = 0;
        while j < count
            invariant
                j <= count,
                count == before.len(),
                k == curr_cnt,
                curr_cnt + 1 == chart.len(),
                chart.len() == old(chart).len(),
                list == rule_views(rules@),
                before == old(chart)@[k]@,
                older == old(chart)@.take(k),
                indexable(list),
                g.listed_by(list),
                chart_ok(g, list, x, old(chart)@),
                chart.len() <= x.len() + 1,
                forall|c: int| 0 <= c < curr_cnt ==> chart@[c] == old(chart)@[c],
                layer_ok(g, list, x, chart@[k]@, k),
                extends(chart@[k]@, before),
                forall|i: int, waiting: EarleySituation|
                    0 <= i < j && finished(list, before[i]) && #[trigger] origin_layer(
                        older,
                        before,
                        before[i],
                    ).contains(waiting) && #[trigger] dot_before(
                        list,
                        waiting,
                        list[before[i].rule as int].lhs,
                    ) ==> chart@[k]@.contains(advanced(waiting)),
                forall|it: EarleySituation| #[trigger]
                    chart@[k]@.contains(it) ==> before.contains(it) || is_completion(
                        list,
                        older,
                        chart@[k]@,
                        it,
                    ),
            decreases count - j,
        {
            let done = chart[curr_cnt][j];
            assert(done == before[j as int]);
            assert(chart@[k]@.contains(done));
            if done.pos == rules[done.rule].rhs.len() {
                let origin = done.prev_cnt;
                let lhs = rules[done.rule].lhs;
                let waiting_count = chart[origin].len();
                let ghost source = chart@[origin as int]@;
                assert(extends(source, origin_layer(older, before, done)));
                let mut w: usize = 0;
                while w < waiting_count
                    invariant
                        w <= waiting_count,
                        waiting_count == source.len(),
                        j < count,
                        count == before.len(),
                        k == curr_cnt,
                        origin <= curr_cnt,
                        origin == done.prev_cnt,
                        curr_cnt + 1 == chart.len(),
                        chart.len() == old(chart).len(),
                        list == rule_views(rules@),
                        before == old(chart)@[k]@,
                        older == old(chart)@.take(k),
                        indexable(list),
                        g.listed_by(list),
                        chart_ok(g, list, x, old(chart)@),
                        chart.len() <= x.len() + 1,
                        done == before[j as int],
                        finished(list, done),
                        lhs == list[done.rule as int].lhs,
                        extends(chart@[origin as int]@, source),
                        forall|c: int| 0 <= c < curr_cnt ==> chart@[c] == old(chart)@[c],
                        layer_ok(g, list, x, chart@[k]@, k),
                        extends(chart@[k]@, before),
                        forall|i: int, waiting: EarleySituation|
                            0 <= i < j && finished(list, before[i]) && #[trigger] origin_layer(
                                older,
                                before,
                                before[i],
                            ).contains(waiting) && #[trigger] dot_before(
                                list,
                                waiting,
                                list[before[i].rule as int].lhs,
                            ) ==> chart@[k]@.contains(advanced(waiting)),
                        forall|v: int|
                            0 <= v < w && #[trigger] dot_before(list, source[v], lhs)
                                ==> chart@[k]@.contains(advanced(source[v])),
                        forall|it: EarleySituation| #[trigger]
                            chart@[k]@.contains(it) ==> before.contains(it) || is_completion(
                                list,
                                older,
                                chart@[k]@,
                                it,
                            ),
                    decreases waiting_count - w,
                {
                    let waiting = chart[origin][w];
                    assert(waiting == source[w as int]);
                    assert(chart@[origin as int]@.contains(waiting));
                    if waiting.pos < rules[waiting.rule].rhs.len() && waiting.nth(
                        rules,
                        waiting.pos,
                    ) == lhs {
                        let it = EarleySituation::new(
                            waiting.rule,
                            waiting.pos + 1,
                            waiting.prev_cnt,
                        );
                        let ghost layer = chart@[k]@;
                        proof {
                            assert(layer.contains(done));
                            assert(justified(g, list, x, waiting, origin as int));
                            lemma_completion_justified(g, list, x, done, waiting, k);
                            assert(it == advanced(waiting));
                        }
                        put(&mut chart[curr_cnt], it);
                        proof {
                            let after = chart@[k]@;
                            assert(after.contains(done));
                            assert(origin_layer(older, after, done).contains(waiting));
                            assert(dot_before(list, waiting, list[done.rule as int].lhs));
                            assert(is_completion(list, older, after, it));
                            assert forall|other: EarleySituation| #[trigger]
                                after.contains(other) implies before.contains(other)
                                || is_completion(list, older, after, other) by {
                                if other != it && !before.contains(other) {
                                    assert(layer.contains(other));
                                    lemma_completion_grows(list, older, layer, after, other);
                                }
                            }
                        }
                    }
                    w += 1;
                }
                proof {
                    assert forall|waiting: EarleySituation| #[trigger]
                        origin_layer(older, before, done).contains(waiting) && #[trigger] dot_before(
                            list,
                            waiting,
                            list[done.rule as int].lhs,
                        ) implies chart@[k]@.contains(advanced(waiting)) by {
                        let from = origin_layer(older, before, done);
                        let v = choose|v: int| 0 <= v < from.len() && from[v] == waiting;
                        assert(source[v] == waiting);
                        assert(dot_before(list, source[v], lhs));
                    }
                }
            }
            j += 1;
        }
        proof {
            assert forall|done: EarleySituation, waiting: EarleySituation|
                before.contains(done) && finished(list, done) && #[trigger] origin_layer(
                    older,
                    before,
                    done,
                ).contains(waiting) && #[trigger] dot_before(
                    list,
                    waiting,
                    list[done.rule as int].lhs,
                ) implies chart@[k]@.contains(advanced(waiting)) by {
                let i = choose|i: int| 0 <= i < before.len() && before[i] == done;
                assert(origin_layer(older, before, before[i]).contains(waiting));
            }
        }
    }

    /// Predicts and completes in the last layer until a round adds nothing.
    pub fn do_layer(
        rules: &Vec<Production>,
        chart: &mut Vec<Vec<EarleySituation>>,
        layer: usize,
        Ghost(g): Ghost<GrammarModel>,
        Ghost(x): Ghost<Seq<char>>,
    )
        requires
            charting(g, rule_views(rules@), x, old(chart)@),
            layer + 1 == old(chart).len(),
        ensures
            charting(g, rule_views(rules@), x, final(chart)@),
            final(chart)@.len() == old(chart)@.len(),
            forall|c: int| 0 <= c < layer ==> final(chart)@[c] == old(chart)@[c],
            extends(final(chart)@[layer as int]@, old(chart)@[layer as int]@),
            layer_saturated(rule_views(rules@), final(chart)@, layer as int),
            founded(
                rule_views(rules@),
                old(chart)@.take(layer as int),
                old(chart)@[layer as int]@,
                final(chart)@[layer as int]@,
                layer as int,
            ),
    {
        let ghost list = rule_views(rules@);
        let ghost k = layer as int;
        let ghost below = chart@.take(k);
        let ghost given = chart@[k]@;
        proof {
            lemma_layer_fits(g, list, x, chart@[k]@, k);
        }
        loop
            invariant_except_break
                charting(g, list, x, chart@),
                extends(chart@[k]@, old(chart)@[k]@),
                chart@[k]@.len() <= layer_room(list, k).len(),
            invariant
                k == layer,
                list == rule_views(rules@),
                below == old(chart)@.take(k),
                given == old(chart)@[k]@,
                layer + 1 == chart.len(),
                chart.len() == old(chart).len(),
                forall|c: int| 0 <= c < layer ==> chart@[c] == old(chart)@[c],
                founded(list, below, given, chart@[k]@, k),
            ensures
                charting(g, list, x, chart@),
                extends(chart@[k]@, old(chart)@[k]@),
                layer_saturated(list, chart@, k),
            decreases layer_room(list, k).len() - chart@[k]@.len(),
        {
            let prev_size = chart[layer].len();
            let ghost first = chart@[k]@;
            let ghost older = chart@.take(k);
            assert(older =~= below);
            Self::predict(rules, chart, layer, Ghost(g), Ghost(x));
            let ghost second = chart@[k]@;
            assert(chart@.take(k) =~= older);
            proof {
                assert forall|it: EarleySituation| #[trigger] second.contains(it) implies given.contains(
                    it,
                ) || is_prediction(list, second, it, k) || is_completion(
                    list,
                    below,
                    second,
                    it,
                ) by {
                    if first.contains(it) {
                        lemma_founded_grows(list, below, given, first, second, it, k);
                    } else {
                        lemma_prediction_grows(list, first, second, it, k);
                    }
                }
            }
            Self::complete(rules, chart, layer, Ghost(g), Ghost(x));
            assert(chart@.take(k) =~= older);
            proof {
                let third = chart@[k]@;
                assert forall|it: EarleySituation| #[trigger] third.contains(it) implies given.contains(
                    it,
                ) || is_prediction(list, third, it, k) || is_completion(
                    list,
                    below,
                    third,
                    it,
                ) by {
                    if second.contains(it) {
                        lemma_founded_grows(list, below, given, second, third, it, k);
                    }
                }
                lemma_layer_fits(g, list, x, chart@[k]@, k);
            }
            if chart[layer].len() == prev_size {
                proof {
                    let third = chart@[k]@;
                    assert(first =~= second);
                    assert(second =~= third);
                }
                break ;
            }
        }
    }
}

/// Each situation of `layer` was `given`, or is predicted or completed from
/// situations of `layer`.
pub open spec fn founded(
    rules: Seq<Rule>,
    older: Seq<Vec<EarleySituation>>,
    given: Seq<EarleySituation>,
    layer: Seq<EarleySituation>,
    k: int,
) -> bool {
    forall|it: EarleySituation| #[trigger]
        layer.contains(it) ==> given.contains(it) || is_prediction(rules, layer, it, k)
            || is_completion(rules, older, layer, it)
}

/// A prediction found in a layer is found in every layer that extends it.
pub proof fn lemma_prediction_grows(
    rules: Seq<Rule>,
    layer: Seq<EarleySituation>,
    longer: Seq<EarleySituation>,
    it: EarleySituation,
    k: int,
)
    requires
        extends(longer, layer),
        is_prediction(rules, layer, it, k),
    ensures
        is_prediction(rules, longer, it, k),
{
    let (parent, q) = choose|parent: EarleySituation, q: int|
        layer.contains(parent) && 0 <= q < rules.len() && #[trigger] dot_before(
            rules,
            parent,
            rules[q].lhs,
        ) && it == fresh(q, k);
    let i = choose|i: int| 0 <= i < layer.len() && layer[i] == parent;
    assert(longer[i] == parent);
    assert(longer.contains(parent));
}

/// What founds a situation in a layer founds it in every layer that extends
/// the layer.
pub proof fn lemma_founded_grows(
    rules: Seq<Rule>,
    older: Seq<Vec<EarleySituation>>,
    given: Seq<EarleySituation>,
    layer: Seq<EarleySituation>,
    longer: Seq<EarleySituation>,
    it: EarleySituation,
    k: int,
)
    requires
        extends(longer, layer),
        founded(rules, older, given, layer, k),
        layer.contains(it),
    ensures
        given.contains(it) || is_prediction(rules, longer, it, k) || is_completion(
            rules,
            older,
            longer,
            it,
        ),
{
    if is_prediction(rules, layer, it, k) {
        lemma_prediction_grows(rules, layer, longer, it, k);
    } else if is_completion(rules, older, layer, it) {
        lemma_completion_grows(rules, older, layer, longer, it);
    }
}

/// The situations that layer `k` has room for: a production of the list, a
/// place in it, and a layer up to `k`.
pub open spec fn layer_room(rules: Seq<Rule>, k: int) -> Set<EarleySituation> {
    Set::new(
        |it: EarleySituation|
            it.rule < rules.len() && it.pos <= longest(rules) && it.prev_cnt <= k,
    )
}

/// A layer has finite room, and a layer in order fits into it.
pub proof fn lemma_layer_fits(
    g: GrammarModel,
    rules: Seq<Rule>,
    x: Seq<char>,
    layer: Seq<EarleySituation>,
    k: int,
)
    requires
        layer_ok(g, rules, x, layer, k),
        0 <= k,
    ensures
        layer_room(rules, k).finite(),
        layer.len() <= layer_room(rules, k).len(),
{
    let all = cube(rules.len() as int, longest(rules) as int + 1, k + 1);
    let made = |t: (int, int, int)|
        EarleySituation { rule: t.0 as usize, pos: t.1 as usize, prev_cnt: t.2 as usize };
    lemma_cube_finite(rules.len() as int, longest(rules) as int + 1, k + 1);
    all.lemma_map_finite(made);
    assert forall|it: EarleySituation| layer_room(rules, k).contains(it) implies all.map(
        made,
    ).contains(it) by {
        let t = (it.rule as int, it.pos as int, it.prev_cnt as int);
        assert(all.contains(t) && it == made(t));
    }
    vstd::set_lib::lemma_len_subset(layer_room(rules, k), all.map(made));
    assert forall|i: int| 0 <= i < layer.len() implies layer_room(rules, k).contains(
        #[trigger] layer[i],
    ) by {
        assert(layer.contains(layer[i]));
        assert(justified(g, rules, x, layer[i], k));
        lemma_longest(rules, layer[i].rule as int);
    }
    lemma_fits(layer, layer_room(rules, k));
}

/// Layer `c` of the chart lacks no prediction and no completion.
pub open spec fn layer_saturated(
    rules: Seq<Rule>,
    chart: Seq<Vec<EarleySituation>>,
    c: int,
) -> bool {
    &&& predicted(rules, chart[c]@, chart[c]@, c)
    &&& completed(rules, chart.take(c), chart[c]@, chart[c]@)
}

/// Layer `c + 1` of the chart holds what scanning letter `c` of the word
/// brings over from layer `c`.
pub open spec fn layer_scanned(
    rules: Seq<Rule>,
    x: Seq<char>,
    chart: Seq<Vec<EarleySituation>>,
    c: int,
) -> bool {
    scanned(rules, x[c], chart[c]@, chart[c + 1]@)
}

/// The chart of the whole word `x` lacks nothing that prediction, scanning
/// or completion would add.
pub open spec fn saturated(rules: Seq<Rule>, x: Seq<char>, chart: Seq<Vec<EarleySituation>>) -> bool {
    &&& chart.len() == x.len() + 1
    &&& forall|c: int| 0 <= c < chart.len() ==> #[trigger] layer_saturated(rules, chart, c)
    &&& forall|c: int| 0 <= c < x.len() ==> #[trigger] layer_scanned(rules, x, chart, c)
}

/// Whether a layer is saturated depends on the chart up to that layer only.
pub proof fn lemma_layer_saturated_kept(
    rules: Seq<Rule>,
    chart: Seq<Vec<EarleySituation>>,
    other: Seq<Vec<EarleySituation>>,
    c: int,
)
    requires
        0 <= c < chart.len(),
        c < other.len(),
        forall|d: int| 0 <= d <= c ==> chart[d] == other[d],
        layer_saturated(rules, chart, c),
    ensures
        layer_saturated(rules, other, c),
{
    assert(chart.take(c) =~= other.take(c));
}

/// A layer that extends a scanned layer is scanned as well.
pub proof fn lemma_scanned_kept(
    rules: Seq<Rule>,
    letter: char,
    layer: Seq<EarleySituation>,
    next: Seq<EarleySituation>,
    longer: Seq<EarleySituation>,
)
    requires
        scanned(rules, letter, layer, next),
        extends(longer, next),
    ensures
        scanned(rules, letter, layer, longer),
{
    assert forall|it: EarleySituation|
        layer.contains(it) && #[trigger] dot_before(rules, it, letter) implies longer.contains(
        advanced(it),
    ) by {
        let v = choose|v: int| 0 <= v < next.len() && next[v] == advanced(it);
        assert(longer[v] == advanced(it));
    }
}

/// In a saturated chart, a situation moves its dot over what spans the word
/// from its layer to position `k`: when the right-hand side from the dot up
/// to place `upto` spans that stretch, layer `k` holds the situation with its
/// dot at `upto`.
#[verifier::rlimit(50)]
pub proof fn lemma_dot_advances(
    g: GrammarModel,
    rules: Seq<Rule>,
    x: Seq<char>,
    chart: Seq<Vec<EarleySituation>>,
    it: EarleySituation,
    i: int,
    k: int,
    upto: int,
    depth: nat,
)
    requires
        charting(g, rules, x, chart),
        saturated(rules, x, chart),
        0 <= i < chart.len(),
        chart[i]@.contains(it),
        it.rule < rules.len(),
        it.pos <= upto <= rules[it.rule as int].rhs.len(),
        spans(g, x, rules[it.rule as int].rhs.subrange(it.pos as int, upto), i, k, depth),
    ensures
        i <= k <= x.len(),
        chart[k]@.contains(
            EarleySituation { rule: it.rule, pos: upto as usize, prev_cnt: it.prev_cnt },
        ),
    decreases depth, upto - it.pos,
{
    let rhs = rules[it.rule as int].rhs;
    let rest = rhs.subrange(it.pos as int, upto);
    assert(justified(g, rules, x, it, i));
    if rest.len() == 0 {
        assert(it.pos == upto);
    } else {
        let m = choose|m: int| #[trigger]
            between(i, m, k) && symbol_spans(g, x, rest[0], i, m, depth) && spans(
                g,
                x,
                rest.drop_first(),
                m,
                k,
                depth,
            );
        let symbol = rhs[it.pos as int];
        assert(rest[0] == symbol);
        assert(dot_before(rules, it, symbol));
        lemma_symbol_spans_forward(g, x, symbol, i, m, depth);
        let next = advanced(it);
        assert(rest.drop_first() =~= rhs.subrange(next.pos as int, upto));
        if 0 <= i < x.len() && m == i + 1 && x[i] == symbol {
            assert(layer_scanned(rules, x, chart, i));
        } else {
            let inner = choose|inner: Seq<char>| #[trigger]
                g.has_rule(Rule { lhs: symbol, rhs: inner }) && spans(
                    g,
                    x,
                    inner,
                    i,
                    m,
                    (depth - 1) as nat,
                );
            let rule = Rule { lhs: symbol, rhs: inner };
            let q = lemma_listed_place(g, rules, rule);
            assert(layer_saturated(rules, chart, i));
            assert(dot_before(rules, it, rules[q].lhs));
            let start = fresh(q, i);
            assert(chart[i]@.contains(start));
            assert(rules[q].rhs.subrange(0, inner.len() as int) =~= inner);
            lemma_dot_advances(
                g,
                rules,
                x,
                chart,
                start,
                i,
                m,
                inner.len() as int,
                (depth - 1) as nat,
            );
            let done = EarleySituation {
                rule: q as usize,
                pos: inner.len() as usize,
                prev_cnt: i as usize,
            };
            assert(chart[m]@.contains(done));
            assert(layer_saturated(rules, chart, m));
            assert(finished(rules, done));
            assert(origin_layer(chart.take(m), chart[m]@, done) == chart[i]@);
            assert(origin_layer(chart.take(m), chart[m]@, done).contains(it));
            assert(dot_before(rules, it, rules[done.rule as int].lhs));
        }
        assert(chart[m]@.contains(next));
        lemma_dot_advances(g, rules, x, chart, next, m, k, upto, depth);
    }
}

/// A completion found in a layer is found in every layer that extends it.
pub proof fn lemma_completion_grows(
    rules: Seq<Rule>,
    older: Seq<Vec<EarleySituation>>,
    layer: Seq<EarleySituation>,
    longer: Seq<EarleySituation>,
    it: EarleySituation,
)
    requires
        extends(longer, layer),
        is_completion(rules, older, layer, it),
    ensures
        is_completion(rules, older, longer, it),
{
    let (done, waiting) = choose|done: EarleySituation, waiting: EarleySituation|
        layer.contains(done) && finished(rules, done) && #[trigger] origin_layer(
            older,
            layer,
            done,
        ).contains(waiting) && #[trigger] dot_before(rules, waiting, rules[done.rule as int].lhs)
            && it == advanced(waiting);
    let i = choose|i: int| 0 <= i < layer.len() && layer[i] == done;
    assert(longer[i] == done);
    assert(longer.contains(done));
    if done.prev_cnt >= older.len() {
        let v = choose|v: int| 0 <= v < layer.len() && layer[v] == waiting;
        assert(longer[v] == waiting);
    }
    assert(origin_layer(older, longer, done).contains(waiting));
}

impl Default for EarleyParser {
    fn default() -> (parser: Self)
        ensures
            parser.fitted() is None,
            parser.chart() == Seq::<Seq<EarleySituation>>::empty(),
    {
        Self::new()
    }
}

/// A copy of a list of productions.
pub fn copy_productions(list: &Vec<Production>) -> (copy: Vec<Production>)
    ensures
        rule_views(copy@) == rule_views(list@),
{
    let mut copy: Vec<Production> = Vec::new();
    let mut i: usize = 0;
    while i < list.len()
        invariant
            i <= list.len(),
            rule_views(copy@) == rule_views(list@.take(i as int)),
        decreases list.len() - i,
    {
        let mut rhs: Vec<char> = Vec::new();
        let mut j: usize = 0;
        while j < list[i].rhs.len()
            invariant
                i < list.len(),
                j <= list@[i as int].rhs@.len(),
                rhs@ == list@[i as int].rhs@.take(j as int),
            decreases list@[i as int].rhs@.len() - j,
        {
            rhs.push(list[i].rhs[j]);
            assert(rhs@ =~= list@[i as int].rhs@.take(j + 1));
            j += 1;
        }
        assert(rhs@ =~= list@[i as int].rhs@);
        let ghost before = rule_views(copy@);
        copy.push(Production { lhs: list[i].lhs, rhs });
        assert(rule_views(copy@) =~= before.push(list@[i as int]@));
        assert(rule_views(list@.take(i + 1)) =~= rule_views(list@.take(i as int)).push(
            list@[i as int]@,
        ));
        i += 1;
    }
    assert(list@.take(list.len() as int) =~= list@);
    copy
}

/// A copy of a chart.
pub fn copy_chart(chart: &Vec<Vec<EarleySituation>>) -> (copy: Vec<Vec<EarleySituation>>)
    ensures
        copy@.map_values(|layer: Vec<EarleySituation>| layer@) == chart@.map_values(
            |layer: Vec<EarleySituation>| layer@,
        ),
{
    let mut copy: Vec<Vec<EarleySituation>> = Vec::new();
    let mut i: usize = 0;
    while i < chart.len()
        invariant
            i <= chart.len(),
            copy.len() == i,
            forall|k: int| 0 <= k < i ==> (#[trigger] copy@[k])@ == chart@[k]@,
        decreases chart.len() - i,
    {
        let mut layer: Vec<EarleySituation> = Vec::new();
        let mut j: usize = 0;
        while j < chart[i].len()
            invariant
                i < chart.len(),
                j <= chart@[i as int]@.len(),
                layer@ == chart@[i as int]@.take(j as int),
            decreases chart@[i as int]@.len() - j,
        {
            layer.push(chart[i][j]);
            assert(layer@ =~= chart@[i as int]@.take(j + 1));
            j += 1;
        }
        assert(layer@ =~= chart@[i as int]@);
        copy.push(layer);
        i += 1;
    }
    assert(copy@.map_values(|layer: Vec<EarleySituation>| layer@) =~= chart@.map_values(
        |layer: Vec<EarleySituation>| layer@,
    ));
    copy
}

impl Clone for EarleyParser {
    /// The copy has the grammar and the chart of the recognizer.
    fn clone(&self) -> (copy: Self)
        ensures
            copy.fitted() == self.fitted(),
            copy.chart() == self.chart(),
    {
        proof {
            use_type_invariant(self);
        }
        let grammar = match &self.grammar {
            Some(grammar) => Some(grammar.clone()),
            None => None,
        };
        Self {
            grammar,
            rules: copy_productions(&self.rules),
            situations: copy_chart(&self.situations),
        }
    }
}

impl Parser for EarleyParser {
    closed spec fn fitted(&self) -> Option<GrammarModel> {
        match self.grammar {
            Some(grammar) => Some(grammar@),
            None => None,
        }
    }

    /// A fitted recognizer accepts the words of terminals that the right-hand
    /// side of the start production derives; one without a grammar accepts
    /// none.
    open spec fn accepts(&self, word: Seq<char>) -> bool {
        match self.fitted() {
            Some(g) => g.all_terminals(word) && derives(g, g.start_rhs(), word),
            None => false,
        }
    }

    /// Takes a copy of the grammar, unless it is not context-free: then the
    /// recognizer stays as it was.
    fn fit(&mut self, grammar: &CFGrammar) -> (outcome: Result<(), FitError>)
        ensures
            earley_fitted_with(*old(self), grammar@, outcome, *final(self)),
    {
        let rules = grammar.productions();
        match Self::check_grammar(grammar, &rules) {
            Ok(()) => {
                *self = EarleyParser {
                    grammar: Some(grammar.clone()),
                    rules,
                    situations: Vec::new(),
                };
                assert(self.chart() =~= Seq::<Seq<EarleySituation>>::empty());
                Ok(())
            },
            Err(e) => Err(e),
        }
    }

    /// Builds the chart of the word and looks in its last layer for the
    /// start production with its dot at the end. A word that holds a symbol
    /// which is no terminal is rejected.
    fn predict(&mut self, word: &str) -> (accepted: bool)
        ensures
            old(self).fitted() matches Some(g) ==> chart_of(g, word@, final(self).chart()),
            old(self).fitted() is None ==> final(self).chart() == old(self).chart(),
    {
        proof {
            use_type_invariant(&*self);
        }
        let ghost x = word@;
        let letters = chars_of(word);
        let (start_rule, over_terminals) = match &self.grammar {
            Some(grammar) => (grammar.get_start_rule(), grammar.all_terminal(&letters)),
            None => {
                return false;
            },
        };
        let ghost g = self.fitted().unwrap();
        let ghost list = rule_views(self.rules@);
        let start_rhs = chars_of(start_rule.1.as_str());
        proof {
            lemma_views_indexable(&self.rules);
            assert(g.rules[START_RULE].contains(g.start_rhs()));
            assert(g.has_rule(Rule { lhs: START_RULE, rhs: start_rhs@ }));
            assert(list.contains(Rule { lhs: START_RULE, rhs: start_rhs@ }));
        }
        let seed_rule = match find_production(&self.rules, START_RULE, &start_rhs) {
            Some(q) => q,
            None => {
                return false;
            },
        };
        assert(list[seed_rule as int].rhs == g.start_rhs());
        let seed = EarleySituation::new(seed_rule, 0, 0);
        let mut first: Vec<EarleySituation> = Vec::new();
        first.push(seed);
        let mut chart: Vec<Vec<EarleySituation>> = Vec::new();
        chart.push(first);
        proof {
            lemma_seed_justified(g, list, x, seed_rule as int);
            assert(seed == fresh(seed_rule as int, 0));
            assert forall|it: EarleySituation| #[trigger]
                chart@[0]@.contains(it) implies justified(g, list, x, it, 0) by {
                assert(it == seed);
            }
        }
        assert(chart@[0]@[0] == seed);
        Self::do_layer(&self.rules, &mut chart, 0, Ghost(g), Ghost(x));
        assert(chart@[0]@[0] == seed);
        let mut i: usize = 0;
        while i < letters.len()
            invariant
                i <= letters.len(),
                letters@ == x,
                self.grammar == old(self).grammar,
                self.fitted() == Some(g),
                list == rule_views(self.rules@),
                self.lists_its_grammar(),
                charting(g, list, x, chart@),
                chart.len() == i + 1,
                chart@[0]@.contains(seed),
                forall|c: int| 0 <= c <= i ==> #[trigger] layer_saturated(list, chart@, c),
                forall|c: int| 0 <= c < i ==> #[trigger] layer_scanned(list, x, chart@, c),
            decreases letters.len() - i,
        {
            let ghost before = chart@;
            Self::scan(&self.rules, &mut chart, letters[i], i, Ghost(g), Ghost(x));
            let ghost between_steps = chart@;
            Self::do_layer(&self.rules, &mut chart, i + 1, Ghost(g), Ghost(x));
            proof {
                let after = chart@;
                assert forall|c: int| 0 <= c <= i + 1 implies #[trigger] layer_saturated(
                    list,
                    after,
                    c,
                ) by {
                    if c <= i {
                        lemma_layer_saturated_kept(list, before, after, c);
                    }
                }
                assert forall|c: int| 0 <= c < i + 1 implies #[trigger] layer_scanned(
                    list,
                    x,
                    after,
                    c,
                ) by {
                    if c < i {
                        assert(layer_scanned(list, x, before, c));
                    } else {
                        lemma_scanned_kept(
                            list,
                            x[c],
                            before[c]@,
                            between_steps[c + 1]@,
                            after[c + 1]@,
                        );
                    }
                }
            }
            i += 1;
        }
        let goal = EarleySituation::new(seed_rule, start_rhs.len(), 0);
        let found = holds(&chart[letters.len()], goal);
        let accepted = over_terminals && found;
        proof {
            let full = chart@;
            let n = x.len() as int;
            assert(saturated(list, x, full));
            if found {
                assert(justified(g, list, x, goal, n));
                assert(list[seed_rule as int].rhs.take(goal.pos as int) =~= g.start_rhs());
                assert(derives(g, g.start_rhs(), x));
            }
            if derives(g, g.start_rhs(), x) {
                let depth = choose|depth: nat| spans(g, x, g.start_rhs(), 0, n, depth);
                let whole = g.start_rhs().len() as int;
                assert(list[seed_rule as int].rhs.subrange(0, whole) =~= g.start_rhs());
                lemma_dot_advances(g, list, x, full, seed, 0, n, whole, depth);
                assert(found);
            }
            let layers = full.map_values(|layer: Vec<EarleySituation>| layer@);
            assert forall|k: int, it: EarleySituation| 0 <= k <= n implies (
            #[trigger] layers[k].contains(it) <==> justified(g, g.listing(), x, it, k)) by {
                assert(layer_ok(g, list, x, full[k]@, k));
                if justified(g, list, x, it, k) {
                    crate::earley_laws::lemma_justified_in_chart(
                        g,
                        list,
                        x,
                        full,
                        seed_rule as int,
                        it,
                        k,
                    );
                }
            }
            assert forall|k: int| 0 <= k <= n implies (#[trigger] layers[k]).no_duplicates() by {
                assert(layer_ok(g, list, x, full[k]@, k));
            }
        }
        self.situations = chart;
        accepted
    }
}

} // verus!
