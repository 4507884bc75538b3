//! The LR(1) driver accepts only what the grammar derives.
use crate::closure::{closes_within, closure_of, goto_of, moved_over, predicts};
use crate::derivation::{
    derives, lemma_spans_deeper, lemma_spans_forward, lemma_spans_join, lemma_spans_push,
    lemma_spans_single, lemma_spans_split, spans, symbol_spans,
};
use crate::grammar::{indexable, GrammarModel, Rule, END_TERMINAL, START_RULE};
use crate::items::{in_range, is_finished, moved, waits_for, LR1Situation, Listing};
use crate::laws::occurs;
use crate::lr::{built_for, emission, enters, number_of, tabulates};
use crate::states::{lemma_goto_inhabited, seed};
use crate::table::{cell, drives, initial_symbols, LR1Action, TableModel};
use vstd::prelude::*;

verus! {

/// The grammar is as it should be: augmented, context-free, with terminals
/// apart from non-terminals, and without the reserved start symbol or the end
/// marker in any right-hand side.
pub open spec fn proper(g: GrammarModel) -> bool {
    &&& g.augmented()
    &&& g.context_free()
    &&& g.classes_disjoint()
    &&& !occurs(g, START_RULE)
    &&& !occurs(g, END_TERMINAL)
}

/// The symbol of the word at place `pos`; the end marker behind the word.
pub open spec fn symbol_ahead(w: Seq<char>, pos: int) -> char {
    if 0 <= pos < w.len() {
        w[pos]
    } else {
        END_TERMINAL
    }
}

/// The driver's symbols when the word is read up to `pos`.
pub open spec fn unread(w: Seq<char>, pos: int) -> Seq<char> {
    initial_symbols(w).take(w.len() - pos + 1)
}

/// The driver's symbols when the word is read up to `pos` and the symbols
/// `ahead` wait to be taken before the rest of the word, the first of them
/// next.
pub open spec fn waiting(w: Seq<char>, pos: int, ahead: Seq<char>) -> Seq<char>
    decreases ahead.len(),
{
    if ahead.len() == 0 {
        unread(w, pos)
    } else {
        waiting(w, pos, ahead.drop_first()).push(ahead[0])
    }
}

/// What lies before the dot of `it` ends the symbols below stack place `i`;
/// the start production has all of them before its dot.
pub open spec fn spelled(
    l: Listing,
    start_rule: int,
    symbols: Seq<char>,
    i: int,
    it: LR1Situation,
) -> bool {
    &&& in_range(l, it)
    &&& it.pos <= i
    &&& l.rules[it.rule as int].rhs.take(it.pos as int) == symbols.subrange(i - it.pos, i)
    &&& it.rule == start_rule ==> it.pos == i
}

/// The stack holds numbers of states, the start state at its bottom, and
/// `symbols` are the symbols that led from each state to the next.
pub open spec fn stack_ok(
    l: Listing,
    start_rule: int,
    states: Seq<Set<LR1Situation>>,
    stack: Seq<usize>,
    symbols: Seq<char>,
) -> bool {
    &&& stack.len() == symbols.len() + 1
    &&& forall|i: int| 0 <= i < stack.len() ==> (#[trigger] stack[i]) < states.len()
    &&& forall|i: int, it: LR1Situation|
        0 <= i < stack.len() && #[trigger] states[stack[i] as int].contains(it) ==> spelled(
            l,
            start_rule,
            symbols,
            i,
            it,
        )
}

/// A situation of a closure is in the kernel or has its dot at the start and
/// is called for by some situation.
pub proof fn lemma_closure_member(l: Listing, kernel: Set<LR1Situation>, it: LR1Situation)
    requires
        closure_of(l, kernel).contains(it),
    ensures
        kernel.contains(it) || (it.pos == 0 && exists|parent: LR1Situation|
            predicts(l, parent, it)),
{
    let n = choose|n: nat| closes_within(l, kernel, it, n);
    if !kernel.contains(it) {
        let parent = choose|parent: LR1Situation| #[trigger]
            predicts(l, parent, it) && closes_within(l, kernel, parent, (n - 1) as nat);
        assert(predicts(l, parent, it));
    }
}

/// Only one place of the listing holds a production of the start symbol.
pub proof fn lemma_start_rule_unique(g: GrammarModel, l: Listing, start_rule: int, q: int)
    requires
        g.augmented(),
        g.listed_by(l.rules),
        0 <= start_rule < l.rules.len(),
        l.rules[start_rule] == (Rule { lhs: START_RULE, rhs: g.start_rhs() }),
        0 <= q < l.rules.len(),
        l.rules[q].lhs == START_RULE,
    ensures
        q == start_rule,
{
    let r = l.rules[q];
    assert(l.rules.contains(r));
    assert(g.has_rule(r));
    let i = choose|i: int| 0 <= i < g.rules[START_RULE].len() && g.rules[START_RULE][i] == r.rhs;
    assert(r.rhs == g.start_rhs());
    assert(r == l.rules[start_rule]);
}

/// No situation calls for the start production when the start symbol stands
/// in no right-hand side.
pub proof fn lemma_start_not_predicted(
    g: GrammarModel,
    l: Listing,
    parent: LR1Situation,
    child: LR1Situation,
)
    requires
        g.listed_by(l.rules),
        !occurs(g, START_RULE),
        predicts(l, parent, child),
    ensures
        l.rules[child.rule as int].lhs != START_RULE,
{
    let r = l.rules[parent.rule as int];
    if l.rules[child.rule as int].lhs == START_RULE {
        assert(l.rules.contains(r));
        assert(g.has_rule(r));
        assert(r.rhs[parent.pos as int] == START_RULE);
        assert(r.rhs.contains(START_RULE));
    }
}

/// The symbols that wait end with the next symbol to take.
pub proof fn lemma_waiting_next(w: Seq<char>, pos: int, ahead: Seq<char>)
    requires
        0 <= pos <= w.len(),
    ensures
        waiting(w, pos, ahead).len() > 0,
        waiting(w, pos, ahead).last() == if ahead.len() > 0 {
            ahead[0]
        } else {
            symbol_ahead(w, pos)
        },
        ahead.len() > 0 ==> waiting(w, pos, ahead).drop_last() == waiting(
            w,
            pos,
            ahead.drop_first(),
        ),
        ahead.len() == 0 && pos < w.len() ==> waiting(w, pos, ahead).drop_last() == waiting(
            w,
            pos + 1,
            ahead,
        ),
        ahead.len() == 0 && pos == w.len() ==> waiting(w, pos, ahead).drop_last().len() == 0,
{
    if ahead.len() > 0 {
        assert(waiting(w, pos, ahead).drop_last() =~= waiting(w, pos, ahead.drop_first()));
    } else if pos < w.len() {
        assert(unread(w, pos).drop_last() =~= unread(w, pos + 1));
    }
}

/// Feeding one more symbol to the driver puts it before those that wait.
pub proof fn lemma_waiting_fed(w: Seq<char>, pos: int, ahead: Seq<char>, symbol: char)
    ensures
        waiting(w, pos, ahead).push(symbol) == waiting(w, pos, seq![symbol] + ahead),
{
    assert((seq![symbol] + ahead).drop_first() =~= ahead);
}

/// A cell that holds an action was entered by a situation of its state.
pub proof fn lemma_cell_entered(
    l: Listing,
    states: Seq<Set<LR1Situation>>,
    table: TableModel,
    s: int,
    a: char,
) -> (it: LR1Situation)
    requires
        tabulates(l, states, table),
        cell(table, s, a) != LR1Action::NoAction,
    ensures
        0 <= s < states.len(),
        enters(l, states, s, it, a, cell(table, s, a)),
{
    assert(table.contains_key((s, a)));
    choose|it: LR1Situation| enters(l, states, s, it, a, table[(s, a)])
}

/// A situation of the state that a step on `a` leads to has before its dot
/// what ends the symbols below the new top of the stack.
#[verifier::rlimit(50)]
pub proof fn lemma_goto_spelled(
    g: GrammarModel,
    l: Listing,
    start_rule: int,
    state: Set<LR1Situation>,
    symbols: Seq<char>,
    a: char,
    other: LR1Situation,
)
    requires
        g.listed_by(l.rules),
        indexable(l.rules),
        !occurs(g, START_RULE),
        0 <= start_rule < l.rules.len(),
        l.rules[start_rule].lhs == START_RULE,
        forall|it: LR1Situation| #[trigger]
            state.contains(it) ==> spelled(l, start_rule, symbols, symbols.len() as int, it),
        goto_of(l, state, a).contains(other),
    ensures
        spelled(l, start_rule, symbols.push(a), symbols.len() as int + 1, other),
{
    let m = symbols.len() as int;
    let longer = symbols.push(a);
    lemma_closure_member(l, moved_over(l, state, a), other);
    if moved_over(l, state, a).contains(other) {
        let parent = choose|parent: LR1Situation|
            state.contains(parent) && #[trigger] waits_for(l, parent, a) && other == moved(parent);
        assert(spelled(l, start_rule, symbols, m, parent));
        let rhs = l.rules[parent.rule as int].rhs;
        assert(other.pos == parent.pos + 1);
        assert(rhs.take(other.pos as int) =~= rhs.take(parent.pos as int).push(a));
        assert(longer.subrange(m + 1 - other.pos, m + 1) =~= symbols.subrange(
            m - parent.pos,
            m,
        ).push(a));
    } else {
        let parent = choose|parent: LR1Situation| predicts(l, parent, other);
        lemma_start_not_predicted(g, l, parent, other);
        let rhs = l.rules[other.rule as int].rhs;
        assert(rhs.take(0) =~= longer.subrange(m + 1, m + 1));
    }
}

/// After a shift the stack is in order.
#[verifier::rlimit(50)]
pub proof fn lemma_stack_shift(
    g: GrammarModel,
    l: Listing,
    start_rule: int,
    states: Seq<Set<LR1Situation>>,
    stack: Seq<usize>,
    symbols: Seq<char>,
    it: LR1Situation,
    a: char,
    target: usize,
)
    requires
        proper(g),
        built_for(g, l, start_rule, states),
        stack_ok(l, start_rule, states, stack, symbols),
        enters(l, states, stack.last() as int, it, a, LR1Action::Shift(target)),
    ensures
        stack_ok(l, start_rule, states, stack.push(target), symbols.push(a)),
{
    let m = symbols.len() as int;
    let top = stack.last() as int;
    assert(stack[m] == stack.last());
    assert(waits_for(l, it, a));
    lemma_goto_inhabited(l, states[top], a);
    let to = goto_of(l, states[top], a);
    assert(states.contains(to));
    assert(number_of(states, to) == target);
    let higher = stack.push(target);
    let longer = symbols.push(a);
    assert forall|other: LR1Situation| #[trigger] states[top].contains(other) implies spelled(
        l,
        start_rule,
        symbols,
        m,
        other,
    ) by {
        assert(states[stack[m] as int].contains(other));
    }
    assert forall|i: int, other: LR1Situation|
        0 <= i < higher.len() && #[trigger] states[higher[i] as int].contains(
            other,
        ) implies spelled(l, start_rule, longer, i, other) by {
        if i <= m {
            assert(states[stack[i] as int].contains(other));
            assert(spelled(l, start_rule, symbols, i, other));
            assert(longer.subrange(i - other.pos, i) =~= symbols.subrange(i - other.pos, i));
        } else {
            lemma_goto_spelled(g, l, start_rule, states[top], symbols, a, other);
        }
    }
}

/// A reduction finds its right-hand side on top of the stack; below it the
/// stack is in order.
pub proof fn lemma_stack_reduce(
    l: Listing,
    start_rule: int,
    states: Seq<Set<LR1Situation>>,
    stack: Seq<usize>,
    symbols: Seq<char>,
    it: LR1Situation,
)
    requires
        stack_ok(l, start_rule, states, stack, symbols),
        states[stack.last() as int].contains(it),
        is_finished(l, it),
    ensures
        it.pos <= symbols.len(),
        symbols == symbols.take(symbols.len() - it.pos) + l.rules[it.rule as int].rhs,
        stack_ok(
            l,
            start_rule,
            states,
            stack.take(stack.len() - it.pos),
            symbols.take(symbols.len() - it.pos),
        ),
{
    let m = symbols.len() as int;
    let rule = l.rules[it.rule as int];
    assert(stack[m] == stack.last());
    assert(spelled(l, start_rule, symbols, m, it));
    let lower = stack.take(stack.len() - it.pos);
    let shorter = symbols.take(m - it.pos);
    assert(rule.rhs.take(it.pos as int) =~= rule.rhs);
    assert(symbols =~= shorter + rule.rhs);
    assert forall|i: int, other: LR1Situation|
        0 <= i < lower.len() && #[trigger] states[lower[i] as int].contains(
            other,
        ) implies spelled(l, start_rule, shorter, i, other) by {
        assert(states[stack[i] as int].contains(other));
        assert(spelled(l, start_rule, symbols, i, other));
        assert(shorter.subrange(i - other.pos, i) =~= symbols.subrange(i - other.pos, i));
    }
}

/// Putting the left-hand side of a production in the place of its
/// right-hand side keeps a span.
pub proof fn lemma_spans_reduce(
    g: GrammarModel,
    w: Seq<char>,
    before: Seq<char>,
    rule: Rule,
    after: Seq<char>,
    pos: int,
    depth: nat,
)
    requires
        g.has_rule(rule),
        0 <= pos <= w.len(),
        spans(g, w, before + rule.rhs + after, 0, pos, depth),
    ensures
        spans(g, w, before + (seq![rule.lhs] + after), 0, pos, depth + 1),
{
    assert(before + rule.rhs + after =~= before + (rule.rhs + after));
    lemma_spans_forward(g, w, before + rule.rhs + after, 0, pos, depth);
    let c = lemma_spans_split(g, w, before, rule.rhs + after, 0, pos, depth);
    let e = lemma_spans_split(g, w, rule.rhs, after, c, pos, depth);
    assert(g.has_rule(Rule { lhs: rule.lhs, rhs: rule.rhs }));
    assert(symbol_spans(g, w, rule.lhs, c, e, depth + 1));
    lemma_spans_single(g, w, rule.lhs, c, e, depth + 1);
    lemma_spans_deeper(g, w, after, e, pos, depth, depth + 1);
    lemma_spans_deeper(g, w, before, 0, c, depth, depth + 1);
    lemma_spans_join(g, w, seq![rule.lhs], after, c, e, pos, depth + 1);
    lemma_spans_join(g, w, before, seq![rule.lhs] + after, 0, c, pos, depth + 1);
}

/// What the driver accepts from a state of affairs that the grammar
/// accounts for is derived by the grammar: `symbols` lead from the start
/// state up the stack, `ahead` wait before the rest of the word, and
/// together they span the word up to `pos`.
#[verifier::rlimit(50)]
pub proof fn lemma_driver_sound(
    g: GrammarModel,
    l: Listing,
    start_rule: int,
    states: Seq<Set<LR1Situation>>,
    table: TableModel,
    w: Seq<char>,
    stack: Seq<usize>,
    symbols: Seq<char>,
    ahead: Seq<char>,
    pos: int,
    depth: nat,
    fuel: nat,
)
    requires
        proper(g),
        built_for(g, l, start_rule, states),
        tabulates(l, states, table),
        !w.contains(END_TERMINAL),
        stack_ok(l, start_rule, states, stack, symbols),
        0 <= pos <= w.len(),
        !ahead.contains(END_TERMINAL),
        spans(g, w, symbols + ahead, 0, pos, depth),
        drives(table, stack, waiting(w, pos, ahead), fuel),
    ensures
        derives(g, g.start_rhs(), w),
    decreases fuel,
{
    let n = w.len() as int;
    let m = symbols.len() as int;
    let top = stack.last() as int;
    let a = waiting(w, pos, ahead).last();
    lemma_waiting_next(w, pos, ahead);
    let action = cell(table, top, a);
    assert(action != LR1Action::NoAction);
    let it = lemma_cell_entered(l, states, table, top, a);
    let rule = l.rules[it.rule as int];
    assert(emission(l, states, top, it) == Some((a, action)));
    assert(stack[m] == stack.last());
    assert(spelled(l, start_rule, symbols, m, it));
    assert(l.rules.contains(rule));
    assert(g.has_rule(rule));
    match action {
        LR1Action::NoAction => {},
        LR1Action::Accept => {
            assert(a == END_TERMINAL);
            if ahead.len() > 0 {
                assert(ahead.contains(ahead[0]));
            }
            if pos < n {
                assert(w.contains(w[pos]));
            }
            lemma_start_rule_unique(g, l, start_rule, it.rule as int);
            assert(rule.rhs.take(it.pos as int) =~= rule.rhs);
            assert(symbols.subrange(0, m) =~= symbols);
            assert(symbols + ahead =~= g.start_rhs());
        },
        LR1Action::Shift(target) => {
            lemma_stack_shift(g, l, start_rule, states, stack, symbols, it, a, target);
            let higher = stack.push(target);
            let longer = symbols.push(a);
            if ahead.len() > 0 {
                assert(longer + ahead.drop_first() =~= symbols + ahead);
                assert forall|j: int| 0 <= j < ahead.drop_first().len() implies ahead.drop_first()[j]
                    != END_TERMINAL by {
                    assert(ahead.contains(ahead[j + 1]));
                }
                lemma_driver_sound(
                    g,
                    l,
                    start_rule,
                    states,
                    table,
                    w,
                    higher,
                    longer,
                    ahead.drop_first(),
                    pos,
                    depth,
                    (fuel - 1) as nat,
                );
            } else if pos < n {
                assert(symbols + ahead =~= symbols);
                assert(longer + ahead =~= longer);
                lemma_spans_push(g, w, symbols, a, 0, pos, pos + 1, depth);
                lemma_driver_sound(
                    g,
                    l,
                    start_rule,
                    states,
                    table,
                    w,
                    higher,
                    longer,
                    ahead,
                    pos + 1,
                    depth,
                    (fuel - 1) as nat,
                );
            } else {
                assert(!drives(
                    table,
                    higher,
                    waiting(w, pos, ahead).drop_last(),
                    (fuel - 1) as nat,
                ));
            }
        },
        LR1Action::Reduce(count, lhs) => {
            assert(is_finished(l, it));
            assert(count == it.pos);
            assert(lhs == rule.lhs);
            lemma_stack_reduce(l, start_rule, states, stack, symbols, it);
            let lower = stack.take(stack.len() - count);
            let shorter = symbols.take(m - count);
            assert(symbols + ahead =~= shorter + rule.rhs + ahead);
            lemma_spans_reduce(g, w, shorter, rule, ahead, pos, depth);
            lemma_waiting_fed(w, pos, ahead, lhs);
            assert(lhs != END_TERMINAL) by {
                assert(g.non_terminals.contains(lhs));
                assert(g.terminals.contains(END_TERMINAL));
            }
            assert forall|j: int| 0 <= j < (seq![lhs] + ahead).len() implies (seq![lhs] + ahead)[j]
                != END_TERMINAL by {
                if j > 0 {
                    assert(ahead.contains(ahead[j - 1]));
                }
            }
            lemma_driver_sound(
                g,
                l,
                start_rule,
                states,
                table,
                w,
                lower,
                shorter,
                seq![lhs] + ahead,
                pos,
                (depth + 1) as nat,
                (fuel - 1) as nat,
            );
        },
    }
}

/// The situations of the initial state have their dot at the start.
pub proof fn lemma_initial_stack(g: GrammarModel, l: Listing, start_rule: int, states: Seq<
    Set<LR1Situation>,
>)
    requires
        proper(g),
        built_for(g, l, start_rule, states),
    ensures
        stack_ok(l, start_rule, states, seq![0usize], Seq::empty()),
{
    let stack = seq![0usize];
    let symbols = Seq::<char>::empty();
    assert forall|i: int, it: LR1Situation|
        0 <= i < stack.len() && #[trigger] states[stack[i] as int].contains(it) implies spelled(
        l,
        start_rule,
        symbols,
        i,
        it,
    ) by {
        assert(states[0].contains(it));
        lemma_closure_member(l, set![seed(start_rule)], it);
        assert(it.pos == 0);
        assert(l.rules[it.rule as int].rhs.take(0) =~= symbols.subrange(0, 0));
    }
}

/// A word without the end marker that the driver accepts from the start
/// state, by the table of a proper grammar, is derived by the right-hand
/// side of the start production.
pub proof fn law_lr_accepts_only_derived(
    g: GrammarModel,
    l: Listing,
    start_rule: int,
    states: Seq<Set<LR1Situation>>,
    table: TableModel,
    w: Seq<char>,
    fuel: nat,
)
    requires
        proper(g),
        built_for(g, l, start_rule, states),
        tabulates(l, states, table),
        !w.contains(END_TERMINAL),
        drives(table, seq![0usize], initial_symbols(w), fuel),
    ensures
        derives(g, g.start_rhs(), w),
{
    lemma_initial_stack(g, l, start_rule, states);
    let none = Seq::<char>::empty();
    assert(none + none =~= none);
    assert(spans(g, w, none + none, 0, 0, 0));
    assert(waiting(w, 0, none) =~= initial_symbols(w));
    lemma_driver_sound(g, l, start_rule, states, table, w, seq![0usize], none, none, 0, 0, fuel);
}

} // verus!
