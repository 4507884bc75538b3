//! The LR(1) action table and the driver that reads it.
use crate::grammar::END_TERMINAL;
use crate::recognizer::FitError;
use std::collections::HashMap;
use vstd::prelude::*;

verus! {

broadcast use vstd::std_specs::hash::group_hash_axioms;

/// What the driver does in a state on a symbol.
#[derive(Clone, Copy, Debug, PartialEq, Eq, Hash, Structural)]
pub enum LR1Action {
    /// Nothing is entered here: the word is rejected.
    NoAction,
    /// Push the state and take the symbol.
    Shift(usize),
    /// Pop as many states as the right-hand side is long and feed the
    /// left-hand side to the driver.
    Reduce(usize, char),
    /// The word is accepted.
    Accept,
}

impl Default for LR1Action {
    fn default() -> (action: Self)
        ensures
            action == LR1Action::NoAction,
    {
        LR1Action::NoAction
    }
}

/// An action table: the action entered for a state and a symbol. A pair
/// without an entry stands for `NoAction`.
pub type TableModel = Map<(int, char), LR1Action>;

/// The action of `table` in state `s` on symbol `a`.
pub open spec fn cell(table: TableModel, s: int, a: char) -> LR1Action {
    if table.contains_key((s, a)) {
        table[(s, a)]
    } else {
        LR1Action::NoAction
    }
}

/// The table held in `rows`, one row per state, each keyed by the code of
/// the symbol.
pub open spec fn table_of(rows: Seq<HashMap<u32, LR1Action>>) -> TableModel {
    Map::new(
        |k: (int, char)| 0 <= k.0 < rows.len() && rows[k.0]@.contains_key(k.1 as u32),
        |k: (int, char)| rows[k.0]@[k.1 as u32],
    )
}

/// Different symbols have different codes.
pub proof fn lemma_codes_differ(a: char, b: char)
    ensures
        a as u32 == b as u32 <==> a == b,
{
    assert(a as u32 as int == a as int);
    assert(b as u32 as int == b as int);
}

/// The action that `rows` hold for a state and a symbol.
pub fn lookup(rows: &Vec<HashMap<u32, LR1Action>>, state: usize, symbol: char) -> (action:
    LR1Action)
    ensures
        action == cell(table_of(rows@), state as int, symbol),
{
    if state >= rows.len() {
        return LR1Action::NoAction;
    }
    let key = symbol as u32;
    match rows[state].get(&key) {
        Some(action) => *action,
        None => LR1Action::NoAction,
    }
}

/// Enters `action` for `state` and `letter`. A cell that holds another action
/// already makes the table conflicting: then nothing is entered.
pub fn add_transition(
    rows: &mut Vec<HashMap<u32, LR1Action>>,
    state: usize,
    letter: char,
    action: &LR1Action,
) -> (outcome: Result<(), FitError>)
    requires
        state < old(rows).len(),
    ensures
        outcome is Ok <==> cell(table_of(old(rows)@), state as int, letter) == LR1Action::NoAction
            || cell(table_of(old(rows)@), state as int, letter) == *action,
        outcome is Ok ==> table_of(final(rows)@) == if *action == LR1Action::NoAction {
            table_of(old(rows)@)
        } else {
            table_of(old(rows)@).insert((state as int, letter), *action)
        },
        outcome is Err ==> outcome == Err::<(), FitError>(FitError::NotLR1) && final(rows)@ == old(
            rows,
        )@,
        final(rows).len() == old(rows).len(),
{
    let current = lookup(rows, state, letter);
    if current == LR1Action::NoAction || current == *action {
        if *action != LR1Action::NoAction {
            let key = letter as u32;
            rows[state].insert(key, *action);
            proof {
                let before = table_of(old(rows)@);
                let after = table_of(rows@);
                let target = (state as int, letter);
                assert forall|k: (int, char)| after.contains_key(k) <==> before.insert(
                    target,
                    *action,
                ).contains_key(k) by {
                    if k.0 == state as int {
                        lemma_codes_differ(k.1, letter);
                    } else if 0 <= k.0 < rows@.len() {
                        assert(rows@[k.0] == old(rows)@[k.0]);
                    }
                }
                assert forall|k: (int, char)| after.contains_key(k) implies after[k]
                    == before.insert(target, *action)[k] by {
                    if k.0 == state as int {
                        lemma_codes_differ(k.1, letter);
                    } else {
                        assert(rows@[k.0] == old(rows)@[k.0]);
                    }
                }
                assert(after =~= before.insert(target, *action));
            }
        }
        Ok(())
    } else {
        Err(FitError::NotLR1)
    }
}

/// How many steps the driver takes before it gives the word up.
pub const STEP_LIMIT: u64 = u64::MAX;

/// The symbols that the driver starts with, the next one last: the word
/// backwards above the end marker.
pub open spec fn initial_symbols(word: Seq<char>) -> Seq<char> {
    Seq::new(
        word.len() + 1,
        |i: int|
            if i == 0 {
                END_TERMINAL
            } else {
                word[word.len() - i]
            },
    )
}

/// Whether the driver, with `states` stacked and `symbols` waiting (the top
/// of each last), accepts within `fuel` steps: in each step the table is
/// read at the top state and the next symbol.
pub open spec fn drives(table: TableModel, states: Seq<usize>, symbols: Seq<char>, fuel: nat) -> bool
    decreases fuel,
{
    if fuel == 0 || states.len() == 0 || symbols.len() == 0 {
        false
    } else {
        match cell(table, states.last() as int, symbols.last()) {
            LR1Action::Shift(target) => drives(
                table,
                states.push(target),
                symbols.drop_last(),
                (fuel - 1) as nat,
            ),
            LR1Action::Reduce(count, symbol) => count <= states.len() && drives(
                table,
                states.take(states.len() - count),
                symbols.push(symbol),
                (fuel - 1) as nat,
            ),
            LR1Action::Accept => true,
            LR1Action::NoAction => false,
        }
    }
}

/// With more steps to take the driver accepts what it accepted with fewer.
pub proof fn lemma_more_steps(
    table: TableModel,
    stack: Seq<usize>,
    symbols: Seq<char>,
    fuel: nat,
    more: nat,
)
    requires
        drives(table, stack, symbols, fuel),
        fuel <= more,
    ensures
        drives(table, stack, symbols, more),
    decreases fuel,
{
    match cell(table, stack.last() as int, symbols.last()) {
        LR1Action::Shift(target) => {
            lemma_more_steps(
                table,
                stack.push(target),
                symbols.drop_last(),
                (fuel - 1) as nat,
                (more - 1) as nat,
            );
        },
        LR1Action::Reduce(count, symbol) => {
            lemma_more_steps(
                table,
                stack.take(stack.len() - count),
                symbols.push(symbol),
                (fuel - 1) as nat,
                (more - 1) as nat,
            );
        },
        _ => {},
    }
}

/// Runs the driver on `word` from the state `start`.
pub fn drive(rows: &Vec<HashMap<u32, LR1Action>>, start: usize, word: &Vec<char>) -> (accepted:
    bool)
    ensures
        accepted == drives(
            table_of(rows@),
            seq![start],
            initial_symbols(word@),
            STEP_LIMIT as nat,
        ),
{
    let ghost table = table_of(rows@);
    let mut queue: Vec<usize> = Vec::new();
    queue.push(start);
    let mut stack: Vec<char> = Vec::new();
    stack.push(END_TERMINAL);
    let mut i: usize = word.len();
    while i > 0
        invariant
            i <= word.len(),
            stack@.len() == word.len() - i + 1,
            forall|j: int| 0 <= j < stack@.len() ==> stack@[j] == initial_symbols(word@)[j],
        decreases i,
    {
        i -= 1;
        stack.push(word[i]);
    }
    assert(stack@ =~= initial_symbols(word@));
    assert(queue@ =~= seq![start]);
    let mut budget: u64 = STEP_LIMIT;
    while budget > 0 && queue.len() > 0 && stack.len() > 0
        invariant
            table == table_of(rows@),
            drives(table, queue@, stack@, budget as nat) == drives(
                table,
                seq![start],
                initial_symbols(word@),
                STEP_LIMIT as nat,
            ),
        decreases budget,
    {
        let state = queue[queue.len() - 1];
        let symbol = stack[stack.len() - 1];
        budget -= 1;
        match lookup(rows, state, symbol) {
            LR1Action::Shift(target) => {
                queue.push(target);
                stack.pop();
            },
            LR1Action::Reduce(count, symbol) => {
                if count > queue.len() {
                    return false;
                }
                queue.truncate(queue.len() - count);
                stack.push(symbol);
            },
            LR1Action::Accept => {
                return true;
            },
            LR1Action::NoAction => {
                return false;
            },
        }
    }
    false
}

} // verus!
