//! The LR(1) driver accepts what the grammar derives, for a grammar without
//! empty right-hand sides whose table has no conflict.
use crate::closure::{
    closes_within, closure_of, follow_string, goto_of, lemma_closes_next, moved_over, predicts,
};
use crate::derivation::{between, derives, lemma_spans_forward, spans, symbol_spans};
use crate::first::{first_of, first_walk};
use crate::first_laws::{begins, lemma_first_complete, plain};
use crate::grammar::{lemma_listed_place, GrammarModel, Rule, END_TERMINAL, START_RULE};
use crate::items::{in_range, moved, waits_for, LR1Situation, Listing};
use crate::laws::{lemma_rule_not_empty, without_empty_rules};
use crate::lr::{built_for, enters, number_of, tabulates};
use crate::lr_sound::{proper, symbol_ahead, unread};
use crate::states::{
    initial_state, is_state, is_symbol, lemma_goto_inhabited, numbers_states, reached_within,
    seed, steps_to,
};
use crate::table::{cell, drives, initial_symbols, lemma_more_steps, LR1Action, TableModel};
use vstd::prelude::*;

verus! {

/// Whenever the driver accepts from the second state of affairs within some
/// number of steps, it accepts from the first within `steps` more.
pub open spec fn leads(
    table: TableModel,
    stack: Seq<usize>,
    symbols: Seq<char>,
    later_stack: Seq<usize>,
    later_symbols: Seq<char>,
    steps: nat,
) -> bool {
    forall|fuel: nat| #[trigger]
        drives(table, later_stack, later_symbols, fuel) ==> drives(
            table,
            stack,
            symbols,
            fuel + steps,
        )
}

/// Leading on is transitive.
pub proof fn lemma_leads_on(
    table: TableModel,
    stack: Seq<usize>,
    symbols: Seq<char>,
    mid_stack: Seq<usize>,
    mid_symbols: Seq<char>,
    first: nat,
    later_stack: Seq<usize>,
    later_symbols: Seq<char>,
    second: nat,
)
    requires
        leads(table, stack, symbols, mid_stack, mid_symbols, first),
        leads(table, mid_stack, mid_symbols, later_stack, later_symbols, second),
    ensures
        leads(table, stack, symbols, later_stack, later_symbols, first + second),
{
    assert forall|fuel: nat| #[trigger]
        drives(table, later_stack, later_symbols, fuel) implies drives(
        table,
        stack,
        symbols,
        fuel + (first + second),
    ) by {
        assert(drives(table, mid_stack, mid_symbols, fuel + second));
        assert(fuel + second + first == fuel + (first + second));
    }
}

/// A shift leads on in one step.
pub proof fn lemma_shift_leads(
    table: TableModel,
    stack: Seq<usize>,
    symbols: Seq<char>,
    target: usize,
)
    requires
        stack.len() > 0,
        symbols.len() > 0,
        cell(table, stack.last() as int, symbols.last()) == LR1Action::Shift(target),
    ensures
        leads(table, stack, symbols, stack.push(target), symbols.drop_last(), 1),
{
    assert forall|fuel: nat| #[trigger]
        drives(table, stack.push(target), symbols.drop_last(), fuel) implies drives(
        table,
        stack,
        symbols,
        fuel + 1,
    ) by {
        assert(((fuel + 1) - 1) as nat == fuel);
    }
}

/// A reduction leads on in one step.
pub proof fn lemma_reduce_leads(
    table: TableModel,
    stack: Seq<usize>,
    symbols: Seq<char>,
    count: usize,
    lhs: char,
)
    requires
        stack.len() > 0,
        symbols.len() > 0,
        count <= stack.len(),
        cell(table, stack.last() as int, symbols.last()) == LR1Action::Reduce(count, lhs),
    ensures
        leads(table, stack, symbols, stack.take(stack.len() - count), symbols.push(lhs), 1),
{
    assert forall|fuel: nat| #[trigger]
        drives(table, stack.take(stack.len() - count), symbols.push(lhs), fuel) implies drives(
        table,
        stack,
        symbols,
        fuel + 1,
    ) by {
        assert(((fuel + 1) - 1) as nat == fuel);
    }
}

/// What the completeness of the driver rests on: a proper grammar without
/// empty right-hand sides, and a table of the states of its automaton.
pub open spec fn tabulated(
    g: GrammarModel,
    l: Listing,
    start_rule: int,
    states: Seq<Set<LR1Situation>>,
    table: TableModel,
) -> bool {
    &&& proper(g)
    &&& without_empty_rules(g)
    &&& built_for(g, l, start_rule, states)
    &&& tabulates(l, states, table)
}

/// The listing of such a grammar is plain.
pub proof fn lemma_plain(g: GrammarModel, l: Listing)
    requires
        proper(g),
        without_empty_rules(g),
        g.listed_by(l.rules),
        l.terminals == g.terminals,
    ensures
        plain(l),
{
    assert forall|q: int| 0 <= q < l.rules.len() implies (#[trigger] l.rules[q]).rhs.len() > 0
        && !l.terminals.contains(l.rules[q].lhs) by {
        let r = l.rules[q];
        assert(l.rules.contains(r));
        assert(g.has_rule(r));
        lemma_rule_not_empty(g, r);
        assert(g.non_terminals.contains(r.lhs));
    }
}

/// A state holds what its situations call for.
pub proof fn lemma_state_closed(
    l: Listing,
    start_rule: int,
    states: Seq<Set<LR1Situation>>,
    s: int,
    parent: LR1Situation,
    child: LR1Situation,
)
    requires
        numbers_states(l, start_rule, states),
        0 <= s < states.len(),
        states[s].contains(parent),
        predicts(l, parent, child),
    ensures
        states[s].contains(child),
{
    let state = states[s];
    assert(is_state(l, start_rule, state));
    let n = choose|n: nat| reached_within(l, start_rule, state, n);
    let kernel = if state == initial_state(l, start_rule) {
        set![seed(start_rule)]
    } else {
        let (from, symbol) = choose|from: Set<LR1Situation>, symbol: char| #[trigger]
            steps_to(l, from, symbol, state) && reached_within(
                l,
                start_rule,
                from,
                (n - 1) as nat,
            );
        moved_over(l, from, symbol)
    };
    assert(state == closure_of(l, kernel));
    let k = choose|k: nat| closes_within(l, kernel, parent, k);
    lemma_closes_next(l, kernel, parent, child, k);
}

/// What the driver has not read ends with the symbol ahead.
pub proof fn lemma_unread(w: Seq<char>, pos: int)
    requires
        0 <= pos <= w.len(),
    ensures
        unread(w, pos).len() == w.len() - pos + 1,
        unread(w, pos).last() == symbol_ahead(w, pos),
        pos < w.len() ==> unread(w, pos).drop_last() == unread(w, pos + 1),
        forall|symbol: char| #[trigger] unread(w, pos).push(symbol).drop_last() == unread(w, pos),
        unread(w, 0) == initial_symbols(w),
{
    if pos < w.len() {
        assert(unread(w, pos).drop_last() =~= unread(w, pos + 1));
    }
    assert forall|symbol: char| #[trigger]
        unread(w, pos).push(symbol).drop_last() == unread(w, pos) by {
        assert(unread(w, pos).push(symbol).drop_last() =~= unread(w, pos));
    }
    assert(unread(w, 0) =~= initial_symbols(w));
}

/// What a symbol spans, without empty right-hand sides, is not empty, and
/// its first symbol can stand first in what the symbol derives.
pub proof fn lemma_symbol_begins(
    g: GrammarModel,
    l: Listing,
    w: Seq<char>,
    s: char,
    i: int,
    m: int,
    depth: nat,
)
    requires
        without_empty_rules(g),
        g.listed_by(l.rules),
        symbol_spans(g, w, s, i, m, depth),
        0 <= i <= w.len(),
    ensures
        i < m <= w.len(),
        begins(l, s, w[i], depth),
    decreases depth,
{
    crate::derivation::lemma_symbol_spans_forward(g, w, s, i, m, depth);
    if !(0 <= i < w.len() && m == i + 1 && w[i] == s) {
        let rhs = choose|rhs: Seq<char>| #[trigger]
            g.has_rule(Rule { lhs: s, rhs }) && spans(g, w, rhs, i, m, (depth - 1) as nat);
        let rule = Rule { lhs: s, rhs };
        lemma_rule_not_empty(g, rule);
        let c = choose|c: int| #[trigger]
            between(i, c, m) && symbol_spans(g, w, rhs[0], i, c, (depth - 1) as nat) && spans(
                g,
                w,
                rhs.drop_first(),
                c,
                m,
                (depth - 1) as nat,
            );
        lemma_symbol_begins(g, l, w, rhs[0], i, c, (depth - 1) as nat);
        let q = lemma_listed_place(g, l.rules, rule);
        assert(l.rules[q].lhs == s && l.rules[q].rhs.len() > 0 && begins(
            l,
            l.rules[q].rhs[0],
            w[i],
            (depth - 1) as nat,
        ));
    }
}

/// The symbol ahead at the end of what the first symbol behind the dot spans
/// may begin what follows that symbol in the situation.
pub proof fn lemma_follow_ahead(
    g: GrammarModel,
    l: Listing,
    w: Seq<char>,
    it: LR1Situation,
    m: int,
    k: int,
    depth: nat,
)
    requires
        proper(g),
        without_empty_rules(g),
        g.listed_by(l.rules),
        l.terminals == g.terminals,
        g.all_terminals(w),
        waits_for(l, it, l.rules[it.rule as int].rhs[it.pos as int]),
        spans(g, w, l.rules[it.rule as int].rhs.skip(it.pos + 1), m, k, depth),
        0 <= m <= w.len(),
        it.lookahead == symbol_ahead(w, k),
    ensures
        m <= k <= w.len(),
        first_of(l, follow_string(l, it)).contains(symbol_ahead(w, m)),
{
    let rest = l.rules[it.rule as int].rhs.skip(it.pos + 1);
    let follow = follow_string(l, it);
    lemma_spans_forward(g, w, rest, m, k, depth);
    lemma_plain(g, l);
    assert(g.terminals.contains(END_TERMINAL));
    if k < w.len() {
        assert(g.terminals.contains(w[k]));
    }
    if rest.len() == 0 {
        assert(follow =~= seq![it.lookahead]);
        let start = Seq::new(l.rules.len(), |i: int| false);
        assert(first_walk(l, start, follow, 0, l.rules.len()).0 == set![it.lookahead]);
    } else {
        let c = choose|c: int| #[trigger]
            between(m, c, k) && symbol_spans(g, w, rest[0], m, c, depth) && spans(
                g,
                w,
                rest.drop_first(),
                c,
                k,
                depth,
            );
        lemma_symbol_begins(g, l, w, rest[0], m, c, depth);
        assert(follow[0] == rest[0]);
        assert(g.terminals.contains(w[m]));
        lemma_first_complete(l, follow, w[m], depth);
    }
}

/// From a state that holds a situation with its dot before a symbol, the
/// driver reads what the symbol spans and ends one state higher, provided the
/// symbol ahead may begin what follows the symbol in the situation.
#[verifier::rlimit(50)]
pub proof fn lemma_parse_symbol(
    g: GrammarModel,
    l: Listing,
    start_rule: int,
    states: Seq<Set<LR1Situation>>,
    table: TableModel,
    w: Seq<char>,
    stack: Seq<usize>,
    it: LR1Situation,
    i: int,
    k: int,
    depth: nat,
) -> (steps: nat)
    requires
        tabulated(g, l, start_rule, states, table),
        g.all_terminals(w),
        stack.len() > 0,
        stack.last() < states.len(),
        states[stack.last() as int].contains(it),
        it.rule < l.rules.len(),
        it.pos < l.rules[it.rule as int].rhs.len(),
        symbol_spans(g, w, l.rules[it.rule as int].rhs[it.pos as int], i, k, depth),
        0 <= i <= w.len(),
        first_of(l, follow_string(l, it)).contains(symbol_ahead(w, k)),
    ensures
        i < k <= w.len(),
        steps <= (2 * depth + 1) * (k - i),
        states.contains(
            goto_of(l, states[stack.last() as int], l.rules[it.rule as int].rhs[it.pos as int]),
        ),
        leads(
            table,
            stack,
            unread(w, i),
            stack.push(
                number_of(
                    states,
                    goto_of(
                        l,
                        states[stack.last() as int],
                        l.rules[it.rule as int].rhs[it.pos as int],
                    ),
                ) as usize,
            ),
            unread(w, k),
            steps,
        ),
    decreases depth, 0nat,
{
    let top = stack.last() as int;
    let x = l.rules[it.rule as int].rhs[it.pos as int];
    let to = goto_of(l, states[top], x);
    assert(waits_for(l, it, x));
    lemma_goto_inhabited(l, states[top], x);
    lemma_symbol_begins(g, l, w, x, i, k, depth);
    lemma_unread(w, i);
    lemma_unread(w, k);
    if 0 <= i < w.len() && k == i + 1 && w[i] == x {
        assert(g.terminals.contains(w[i]));
        assert(is_symbol(l, x));
        assert(states.contains(to));
        let target = number_of(states, to) as usize;
        assert(enters(l, states, top, it, x, LR1Action::Shift(target)));
        lemma_shift_leads(table, stack, unread(w, i), target);
        assert(1 <= (2 * depth + 1) * (k - i)) by (nonlinear_arith)
            requires
                k - i == 1,
        ;
        1
    } else {
        let rhs = choose|rhs: Seq<char>| #[trigger]
            g.has_rule(Rule { lhs: x, rhs }) && spans(g, w, rhs, i, k, (depth - 1) as nat);
        let rule = Rule { lhs: x, rhs };
        let q = lemma_listed_place(g, l.rules, rule);
        assert(g.non_terminals.contains(x));
        assert(is_symbol(l, x));
        assert(states.contains(to));
        let target = number_of(states, to) as usize;
        let child = LR1Situation { rule: q as usize, pos: 0, lookahead: symbol_ahead(w, k) };
        assert(predicts(l, it, child));
        lemma_state_closed(l, start_rule, states, top, it, child);
        assert(l.rules[child.rule as int].rhs.skip(0) =~= rhs);
        let (pushed, inner) = lemma_parse_rest(
            g,
            l,
            start_rule,
            states,
            table,
            w,
            stack,
            child,
            i,
            k,
            (depth - 1) as nat,
        );
        let high = stack + pushed;
        let done = LR1Situation {
            rule: child.rule,
            pos: rhs.len() as usize,
            lookahead: child.lookahead,
        };
        assert(x != START_RULE) by {
            let outer = l.rules[it.rule as int];
            assert(l.rules.contains(outer));
            assert(g.has_rule(outer));
            assert(outer.rhs.contains(x));
        }
        assert(enters(
            l,
            states,
            high.last() as int,
            done,
            symbol_ahead(w, k),
            LR1Action::Reduce(rhs.len() as usize, x),
        ));
        lemma_reduce_leads(table, high, unread(w, k), rhs.len() as usize, x);
        assert(high.take(high.len() - rhs.len()) =~= stack);
        lemma_leads_on(
            table,
            stack,
            unread(w, i),
            high,
            unread(w, k),
            inner,
            stack,
            unread(w, k).push(x),
            1,
        );
        assert(enters(l, states, top, it, x, LR1Action::Shift(target)));
        lemma_shift_leads(table, stack, unread(w, k).push(x), target);
        lemma_leads_on(
            table,
            stack,
            unread(w, i),
            stack,
            unread(w, k).push(x),
            inner + 1,
            stack.push(target),
            unread(w, k),
            1,
        );
        assert(inner + 2 <= (2 * depth + 1) * (k - i)) by (nonlinear_arith)
            requires
                inner <= (2 * (depth - 1) + 1) * (k - i),
                k - i >= 1,
                depth >= 1,
        ;
        inner + 2
    }
}

/// From a state that holds a situation, the driver reads what the rest of
/// the situation's right-hand side spans and ends in a state that holds the
/// situation with its dot at the end, provided the lookahead of the
/// situation is the symbol ahead.
#[verifier::rlimit(50)]
pub proof fn lemma_parse_rest(
    g: GrammarModel,
    l: Listing,
    start_rule: int,
    states: Seq<Set<LR1Situation>>,
    table: TableModel,
    w: Seq<char>,
    stack: Seq<usize>,
    it: LR1Situation,
    i: int,
    k: int,
    depth: nat,
) -> (run: (Seq<usize>, nat))
    requires
        tabulated(g, l, start_rule, states, table),
        g.all_terminals(w),
        stack.len() > 0,
        stack.last() < states.len(),
        states[stack.last() as int].contains(it),
        in_range(l, it),
        spans(g, w, l.rules[it.rule as int].rhs.skip(it.pos as int), i, k, depth),
        0 <= i <= w.len(),
        it.lookahead == symbol_ahead(w, k),
    ensures
        i <= k <= w.len(),
        run.1 <= (2 * depth + 1) * (k - i),
        run.0.len() == l.rules[it.rule as int].rhs.len() - it.pos,
        (stack + run.0).last() < states.len(),
        states[(stack + run.0).last() as int].contains(
            LR1Situation {
                rule: it.rule,
                pos: l.rules[it.rule as int].rhs.len() as usize,
                lookahead: it.lookahead,
            },
        ),
        leads(table, stack, unread(w, i), stack + run.0, unread(w, k), run.1),
    decreases depth, 1 + l.rules[it.rule as int].rhs.len() - it.pos,
{
    let rhs = l.rules[it.rule as int].rhs;
    let rest = rhs.skip(it.pos as int);
    let top = stack.last() as int;
    lemma_spans_forward(g, w, rest, i, k, depth);
    if rest.len() == 0 {
        let none = Seq::<usize>::empty();
        assert(stack + none =~= stack);
        assert(0 <= (2 * depth + 1) * (k - i)) by (nonlinear_arith)
            requires
                k - i >= 0,
        ;
        (none, 0)
    } else {
        let x = rhs[it.pos as int];
        assert(rest[0] == x);
        let m = choose|m: int| #[trigger]
            between(i, m, k) && symbol_spans(g, w, rest[0], i, m, depth) && spans(
                g,
                w,
                rest.drop_first(),
                m,
                k,
                depth,
            );
        assert(rest.drop_first() =~= rhs.skip(it.pos + 1));
        crate::derivation::lemma_symbol_spans_forward(g, w, x, i, m, depth);
        lemma_follow_ahead(g, l, w, it, m, k, depth);
        let first = lemma_parse_symbol(g, l, start_rule, states, table, w, stack, it, i, m, depth);
        let to = goto_of(l, states[top], x);
        let target = number_of(states, to) as usize;
        let next = moved(it);
        assert(next.pos == it.pos + 1);
        assert(states[top].contains(it) && waits_for(l, it, x) && next == moved(it));
        assert(moved_over(l, states[top], x).contains(next));
        assert(closes_within(l, moved_over(l, states[top], x), next, 0));
        assert(states[target as int].contains(next));
        let higher = stack.push(target);
        let (pushed, second) = lemma_parse_rest(
            g,
            l,
            start_rule,
            states,
            table,
            w,
            higher,
            next,
            m,
            k,
            depth,
        );
        let all = seq![target] + pushed;
        assert(stack + all =~= higher + pushed);
        lemma_leads_on(
            table,
            stack,
            unread(w, i),
            higher,
            unread(w, m),
            first,
            higher + pushed,
            unread(w, k),
            second,
        );
        assert(first + second <= (2 * depth + 1) * (k - i)) by (nonlinear_arith)
            requires
                first <= (2 * depth + 1) * (m - i),
                second <= (2 * depth + 1) * (k - m),
        ;
        (all, first + second)
    }
}

/// The driver accepts each word of terminals that the right-hand side of
/// the start production derives, within a number of steps that grows with
/// the length of the word and the depth of the derivation.
pub proof fn law_lr_accepts_derived(
    g: GrammarModel,
    l: Listing,
    start_rule: int,
    states: Seq<Set<LR1Situation>>,
    table: TableModel,
    w: Seq<char>,
    depth: nat,
)
    requires
        tabulated(g, l, start_rule, states, table),
        g.all_terminals(w),
        spans(g, w, g.start_rhs(), 0, w.len() as int, depth),
    ensures
        drives(table, seq![0usize], initial_symbols(w), steps_enough(w.len(), depth)),
{
    let n = w.len() as int;
    let stack = seq![0usize];
    let it = seed(start_rule);
    assert(closes_within(l, set![it], it, 0));
    assert(states[0].contains(it));
    assert(l.rules[it.rule as int].rhs.skip(0) =~= g.start_rhs());
    let (pushed, steps) = lemma_parse_rest(
        g,
        l,
        start_rule,
        states,
        table,
        w,
        stack,
        it,
        0,
        n,
        depth,
    );
    let high = stack + pushed;
    let done = LR1Situation {
        rule: it.rule,
        pos: g.start_rhs().len() as usize,
        lookahead: END_TERMINAL,
    };
    lemma_unread(w, n);
    lemma_unread(w, 0);
    assert(enters(l, states, high.last() as int, done, END_TERMINAL, LR1Action::Accept));
    assert(drives(table, high, unread(w, n), 1));
    assert(drives(table, stack, unread(w, 0), 1 + steps));
    lemma_more_steps(
        table,
        stack,
        initial_symbols(w),
        1 + steps,
        steps_enough(w.len(), depth),
    );
}

/// Steps enough for the driver to accept a word of the given length that is
/// derived in the given depth: one for each symbol of the word, two for each
/// production used, of which there are at most as many at each depth as the
/// word is long, and one to accept.
pub open spec fn steps_enough(length: nat, depth: nat) -> nat {
    ((2 * depth + 1) * length + 1) as nat
}

} // verus!
