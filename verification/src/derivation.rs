//! What it means for a grammar to derive a word.
//!
//! Derivations are read off the word: a string of symbols *spans* the stretch
//! of the word between two positions when the stretch can be cut into one
//! piece per symbol, each piece being the symbol itself or spanned by the
//! right-hand side of one of the symbol's productions.
use crate::grammar::{GrammarModel, Rule};
use vstd::prelude::*;

verus! {

/// `m` lies between `i` and `k`, ends included.
pub open spec fn between(i: int, m: int, k: int) -> bool {
    i <= m <= k
}

/// `alpha` spans `x[i..k]`, with productions nested at most `depth` deep.
pub open spec fn spans(
    g: GrammarModel,
    x: Seq<char>,
    alpha: Seq<char>,
    i: int,
    k: int,
    depth: nat,
) -> bool
    decreases depth, alpha.len() + 1,
{
    if alpha.len() == 0 {
        i == k
    } else {
        exists|m: int|
            #[trigger] between(i, m, k) && symbol_spans(g, x, alpha[0], i, m, depth) && spans(
                g,
                x,
                alpha.drop_first(),
                m,
                k,
                depth,
            )
    }
}

/// The symbol `s` spans `x[i..m]`: either the stretch is `s` itself, or one of
/// the productions of `s` has a right-hand side that spans it.
pub open spec fn symbol_spans(
    g: GrammarModel,
    x: Seq<char>,
    s: char,
    i: int,
    m: int,
    depth: nat,
) -> bool
    decreases depth, 0nat,
{
    ||| (0 <= i < x.len() && m == i + 1 && x[i] == s)
    ||| (depth > 0 && exists|rhs: Seq<char>| #[trigger]
        g.has_rule(Rule { lhs: s, rhs }) && spans(g, x, rhs, i, m, (depth - 1) as nat))
}

/// `alpha` derives the word `w`.
pub open spec fn derives(g: GrammarModel, alpha: Seq<char>, w: Seq<char>) -> bool {
    exists|depth: nat| spans(g, w, alpha, 0, w.len() as int, depth)
}

/// The words of terminals that the start symbol derives.
pub open spec fn language(g: GrammarModel) -> Set<Seq<char>> {
    Set::new(|w: Seq<char>| g.all_terminals(w) && derives(g, seq![g.start], w))
}

/// A span found at one depth is found at every greater depth.
pub proof fn lemma_spans_deeper(
    g: GrammarModel,
    x: Seq<char>,
    alpha: Seq<char>,
    i: int,
    k: int,
    depth: nat,
    deeper: nat,
)
    requires
        spans(g, x, alpha, i, k, depth),
        depth <= deeper,
    ensures
        spans(g, x, alpha, i, k, deeper),
    decreases depth, alpha.len() + 1,
{
    if alpha.len() > 0 {
        let m = choose|m: int|
            #[trigger] between(i, m, k) && symbol_spans(g, x, alpha[0], i, m, depth) && spans(
                g,
                x,
                alpha.drop_first(),
                m,
                k,
                depth,
            );
        lemma_symbol_spans_deeper(g, x, alpha[0], i, m, depth, deeper);
        lemma_spans_deeper(g, x, alpha.drop_first(), m, k, depth, deeper);
    }
}

/// A symbol's span found at one depth is found at every greater depth.
pub proof fn lemma_symbol_spans_deeper(
    g: GrammarModel,
    x: Seq<char>,
    s: char,
    i: int,
    m: int,
    depth: nat,
    deeper: nat,
)
    requires
        symbol_spans(g, x, s, i, m, depth),
        depth <= deeper,
    ensures
        symbol_spans(g, x, s, i, m, deeper),
    decreases depth, 0nat,
{
    if !(0 <= i < x.len() && m == i + 1 && x[i] == s) {
        let rhs = choose|rhs: Seq<char>| #[trigger]
            g.has_rule(Rule { lhs: s, rhs }) && spans(g, x, rhs, i, m, (depth - 1) as nat);
        lemma_spans_deeper(g, x, rhs, i, m, (depth - 1) as nat, (deeper - 1) as nat);
    }
}

/// A span stays within the word and runs forward.
pub proof fn lemma_spans_forward(
    g: GrammarModel,
    x: Seq<char>,
    alpha: Seq<char>,
    i: int,
    k: int,
    depth: nat,
)
    requires
        spans(g, x, alpha, i, k, depth),
        0 <= i <= x.len(),
    ensures
        i <= k <= x.len(),
    decreases depth, alpha.len() + 1,
{
    if alpha.len() > 0 {
        let m = choose|m: int|
            #[trigger] between(i, m, k) && symbol_spans(g, x, alpha[0], i, m, depth) && spans(
                g,
                x,
                alpha.drop_first(),
                m,
                k,
                depth,
            );
        lemma_symbol_spans_forward(g, x, alpha[0], i, m, depth);
        lemma_spans_forward(g, x, alpha.drop_first(), m, k, depth);
    }
}

/// A symbol's span stays within the word and runs forward.
pub proof fn lemma_symbol_spans_forward(
    g: GrammarModel,
    x: Seq<char>,
    s: char,
    i: int,
    m: int,
    depth: nat,
)
    requires
        symbol_spans(g, x, s, i, m, depth),
        0 <= i <= x.len(),
    ensures
        i <= m <= x.len(),
    decreases depth, 0nat,
{
    if !(0 <= i < x.len() && m == i + 1 && x[i] == s) {
        let rhs = choose|rhs: Seq<char>| #[trigger]
            g.has_rule(Rule { lhs: s, rhs }) && spans(g, x, rhs, i, m, (depth - 1) as nat);
        lemma_spans_forward(g, x, rhs, i, m, (depth - 1) as nat);
    }
}

/// Spans of two strings that meet at `m` join into a span of both.
pub proof fn lemma_spans_join(
    g: GrammarModel,
    x: Seq<char>,
    alpha: Seq<char>,
    beta: Seq<char>,
    i: int,
    m: int,
    k: int,
    depth: nat,
)
    requires
        spans(g, x, alpha, i, m, depth),
        spans(g, x, beta, m, k, depth),
        m <= k,
    ensures
        spans(g, x, alpha + beta, i, k, depth),
    decreases alpha.len(),
{
    if alpha.len() == 0 {
        assert(alpha + beta =~= beta);
    } else {
        let c = choose|c: int|
            #[trigger] between(i, c, m) && symbol_spans(g, x, alpha[0], i, c, depth) && spans(
                g,
                x,
                alpha.drop_first(),
                c,
                m,
                depth,
            );
        lemma_spans_join(g, x, alpha.drop_first(), beta, c, m, k, depth);
        assert(between(i, c, k));
        assert((alpha + beta).drop_first() =~= alpha.drop_first() + beta);
        assert((alpha + beta)[0] == alpha[0]);
    }
}

/// A span of `alpha + beta` splits where `alpha` ends.
pub proof fn lemma_spans_split(
    g: GrammarModel,
    x: Seq<char>,
    alpha: Seq<char>,
    beta: Seq<char>,
    i: int,
    k: int,
    depth: nat,
) -> (m: int)
    requires
        spans(g, x, alpha + beta, i, k, depth),
        i <= k,
    ensures
        i <= m <= k,
        spans(g, x, alpha, i, m, depth),
        spans(g, x, beta, m, k, depth),
    decreases alpha.len(),
{
    if alpha.len() == 0 {
        assert(alpha + beta =~= beta);
        i
    } else {
        let c = choose|c: int|
            #[trigger] between(i, c, k) && symbol_spans(g, x, (alpha + beta)[0], i, c, depth) && spans(
                g,
                x,
                (alpha + beta).drop_first(),
                c,
                k,
                depth,
            );
        assert((alpha + beta).drop_first() =~= alpha.drop_first() + beta);
        assert((alpha + beta)[0] == alpha[0]);
        let m = lemma_spans_split(g, x, alpha.drop_first(), beta, c, k, depth);
        assert(between(i, c, m));
        m
    }
}

/// A single symbol, taken as a string, spans what the symbol spans.
pub proof fn lemma_spans_single(g: GrammarModel, x: Seq<char>, s: char, i: int, m: int, depth: nat)
    ensures
        spans(g, x, seq![s], i, m, depth) <==> i <= m && symbol_spans(g, x, s, i, m, depth),
{
    let one = seq![s];
    assert(one.drop_first() =~= Seq::<char>::empty());
    assert(one[0] == s);
    if spans(g, x, one, i, m, depth) {
        let c = choose|c: int|
            #[trigger] between(i, c, m) && symbol_spans(g, x, one[0], i, c, depth) && spans(
                g,
                x,
                one.drop_first(),
                c,
                m,
                depth,
            );
        assert(c == m);
    }
    if i <= m && symbol_spans(g, x, s, i, m, depth) {
        assert(spans(g, x, one.drop_first(), m, m, depth));
        assert(between(i, m, m));
    }
}

/// A span grows by one symbol at its right end.
pub proof fn lemma_spans_push(
    g: GrammarModel,
    x: Seq<char>,
    alpha: Seq<char>,
    s: char,
    i: int,
    m: int,
    k: int,
    depth: nat,
)
    requires
        spans(g, x, alpha, i, m, depth),
        m <= k,
        symbol_spans(g, x, s, m, k, depth),
    ensures
        spans(g, x, alpha.push(s), i, k, depth),
{
    lemma_spans_single(g, x, s, m, k, depth);
    lemma_spans_join(g, x, alpha, seq![s], i, m, k, depth);
    assert(alpha.push(s) =~= alpha + seq![s]);
}

/// A span is seen through a window: what spans a stretch of one word spans
/// the same stretch of another word that holds the same symbols there,
/// `shift` places further on.
pub proof fn lemma_spans_elsewhere(
    g: GrammarModel,
    x: Seq<char>,
    y: Seq<char>,
    alpha: Seq<char>,
    i: int,
    k: int,
    shift: int,
    depth: nat,
)
    requires
        spans(g, x, alpha, i, k, depth),
        0 <= i <= x.len(),
        0 <= i + shift,
        k + shift <= y.len(),
        forall|p: int| i <= p < k && p < x.len() ==> y[p + shift] == #[trigger] x[p],
    ensures
        spans(g, y, alpha, i + shift, k + shift, depth),
    decreases depth, alpha.len() + 1,
{
    lemma_spans_forward(g, x, alpha, i, k, depth);
    if alpha.len() > 0 {
        let m = choose|m: int| #[trigger]
            between(i, m, k) && symbol_spans(g, x, alpha[0], i, m, depth) && spans(
                g,
                x,
                alpha.drop_first(),
                m,
                k,
                depth,
            );
        lemma_symbol_spans_forward(g, x, alpha[0], i, m, depth);
        lemma_symbol_spans_elsewhere(g, x, y, alpha[0], i, m, shift, depth);
        lemma_spans_elsewhere(g, x, y, alpha.drop_first(), m, k, shift, depth);
        assert(between(i + shift, m + shift, k + shift));
    }
}

/// What a symbol spans in one word it spans in another word that holds the
/// same symbols there, `shift` places further on.
pub proof fn lemma_symbol_spans_elsewhere(
    g: GrammarModel,
    x: Seq<char>,
    y: Seq<char>,
    s: char,
    i: int,
    m: int,
    shift: int,
    depth: nat,
)
    requires
        symbol_spans(g, x, s, i, m, depth),
        0 <= i <= x.len(),
        0 <= i + shift,
        m + shift <= y.len(),
        forall|p: int| i <= p < m && p < x.len() ==> y[p + shift] == #[trigger] x[p],
    ensures
        symbol_spans(g, y, s, i + shift, m + shift, depth),
    decreases depth, 0nat,
{
    if 0 <= i < x.len() && m == i + 1 && x[i] == s {
        assert(y[i + shift] == x[i]);
    } else {
        let rhs = choose|rhs: Seq<char>| #[trigger]
            g.has_rule(Rule { lhs: s, rhs }) && spans(g, x, rhs, i, m, (depth - 1) as nat);
        lemma_spans_elsewhere(g, x, y, rhs, i, m, shift, (depth - 1) as nat);
    }
}

/// A stretch of a word spans itself.
pub proof fn lemma_spans_itself(g: GrammarModel, x: Seq<char>, i: int, k: int)
    requires
        0 <= i <= k <= x.len(),
    ensures
        spans(g, x, x.subrange(i, k), i, k, 0),
    decreases k - i,
{
    let alpha = x.subrange(i, k);
    if i < k {
        lemma_spans_itself(g, x, i + 1, k);
        assert(alpha.drop_first() =~= x.subrange(i + 1, k));
        assert(symbol_spans(g, x, alpha[0], i, i + 1, 0));
        assert(between(i, i + 1, k));
    }
}

/// Where a place of the word comes to lie when the symbol at place `at` gives
/// way to `width` symbols.
pub open spec fn moved_place(p: int, at: int, width: int) -> int {
    if p <= at {
        p
    } else {
        p + width - 1
    }
}

/// The word with the stretch `r` in the place of its symbol at place `at`.
pub open spec fn replaced(y: Seq<char>, at: int, r: Seq<char>) -> Seq<char> {
    y.take(at) + r + y.skip(at + 1)
}

/// Rewriting a symbol of the word by a production keeps what spans the word:
/// when the symbol at place `at` has a production whose right-hand side
/// derives `r`, what spanned a stretch of the word spans the stretch of the
/// word with `r` in the place of the symbol.
pub proof fn lemma_spans_rewritten(
    g: GrammarModel,
    y: Seq<char>,
    at: int,
    rule: Rule,
    r: Seq<char>,
    inner: nat,
    alpha: Seq<char>,
    i: int,
    k: int,
    depth: nat,
)
    requires
        0 <= at < y.len(),
        y[at] == rule.lhs,
        g.has_rule(rule),
        spans(g, r, rule.rhs, 0, r.len() as int, inner),
        spans(g, y, alpha, i, k, depth),
        0 <= i <= y.len(),
    ensures
        spans(
            g,
            replaced(y, at, r),
            alpha,
            moved_place(i, at, r.len() as int),
            moved_place(k, at, r.len() as int),
            depth + inner + 1,
        ),
    decreases depth, alpha.len() + 1,
{
    let z = replaced(y, at, r);
    let w = r.len() as int;
    lemma_spans_forward(g, y, alpha, i, k, depth);
    if alpha.len() > 0 {
        let m = choose|m: int| #[trigger]
            between(i, m, k) && symbol_spans(g, y, alpha[0], i, m, depth) && spans(
                g,
                y,
                alpha.drop_first(),
                m,
                k,
                depth,
            );
        lemma_symbol_spans_forward(g, y, alpha[0], i, m, depth);
        lemma_symbol_spans_rewritten(g, y, at, rule, r, inner, alpha[0], i, m, depth);
        lemma_spans_rewritten(g, y, at, rule, r, inner, alpha.drop_first(), m, k, depth);
        assert(between(moved_place(i, at, w), moved_place(m, at, w), moved_place(k, at, w)));
    }
}

/// Rewriting a symbol of the word by a production keeps what a symbol spans.
pub proof fn lemma_symbol_spans_rewritten(
    g: GrammarModel,
    y: Seq<char>,
    at: int,
    rule: Rule,
    r: Seq<char>,
    inner: nat,
    s: char,
    i: int,
    m: int,
    depth: nat,
)
    requires
        0 <= at < y.len(),
        y[at] == rule.lhs,
        g.has_rule(rule),
        spans(g, r, rule.rhs, 0, r.len() as int, inner),
        symbol_spans(g, y, s, i, m, depth),
        0 <= i <= y.len(),
    ensures
        symbol_spans(
            g,
            replaced(y, at, r),
            s,
            moved_place(i, at, r.len() as int),
            moved_place(m, at, r.len() as int),
            depth + inner + 1,
        ),
    decreases depth, 0nat,
{
    let z = replaced(y, at, r);
    let w = r.len() as int;
    if 0 <= i < y.len() && m == i + 1 && y[i] == s {
        if i == at {
            lemma_spans_elsewhere(g, r, z, rule.rhs, 0, w, at, inner);
            lemma_spans_deeper(g, z, rule.rhs, at, at + w, inner, depth + inner);
            assert(g.has_rule(Rule { lhs: s, rhs: rule.rhs }));
        } else {
            assert(z[moved_place(i, at, w)] == y[i]);
        }
    } else {
        let rhs = choose|rhs: Seq<char>| #[trigger]
            g.has_rule(Rule { lhs: s, rhs }) && spans(g, y, rhs, i, m, (depth - 1) as nat);
        lemma_spans_rewritten(g, y, at, rule, r, inner, rhs, i, m, (depth - 1) as nat);
        assert(((depth + inner + 1) - 1) as nat == (depth - 1) as nat + inner + 1);
    }
}

} // verus!
