//! LR(1) situations and sets of them.
use crate::grammar::{GrammarModel, Rule};
use vstd::prelude::*;

verus! {

/// A production with a dot in its right-hand side and the terminal that may
/// follow the production.
#[derive(Clone, Copy, Debug, PartialEq, Eq, Hash, Structural)]
pub struct LR1Situation {
    /// Which production, by its place in the list of productions.
    pub rule: usize,
    /// How many symbols of the right-hand side lie before the dot.
    pub pos: usize,
    /// The terminal expected after the production.
    pub lookahead: char,
}

impl LR1Situation {
    pub fn new(rule: usize, pos: usize, lookahead: char) -> (s: Self)
        ensures
            s == (LR1Situation { rule, pos, lookahead }),
    {
        Self { rule, pos, lookahead }
    }

    /// The symbol at place `pos` of the production's right-hand side, or the
    /// null character when the right-hand side is shorter.
    pub fn nth(&self, rules: &Vec<crate::grammar::Production>, pos: usize) -> (c: char)
        requires
            self.rule < rules.len(),
        ensures
            c == if pos < rules@[self.rule as int].rhs@.len() {
                rules@[self.rule as int].rhs@[pos as int]
            } else {
                '\0'
            },
    {
        if pos < rules[self.rule].rhs.len() {
            rules[self.rule].rhs[pos]
        } else {
            '\0'
        }
    }
}

/// A grammar as the table builder reads it: the productions in a fixed
/// order, and the two classes of symbols.
pub struct Listing {
    pub rules: Seq<Rule>,
    pub terminals: Set<char>,
    pub non_terminals: Set<char>,
}

/// The listing of `g` that orders its productions as `rules` does.
pub open spec fn listing_of(g: GrammarModel, rules: Seq<Rule>) -> Listing {
    Listing { rules, terminals: g.terminals, non_terminals: g.non_terminals }
}

/// The situation names a production of the listing and a place in it.
pub open spec fn in_range(l: Listing, it: LR1Situation) -> bool {
    it.rule < l.rules.len() && it.pos <= l.rules[it.rule as int].rhs.len()
}

/// The dot of `it` stands right before the symbol `s`.
pub open spec fn waits_for(l: Listing, it: LR1Situation, s: char) -> bool {
    &&& it.rule < l.rules.len()
    &&& it.pos < l.rules[it.rule as int].rhs.len()
    &&& l.rules[it.rule as int].rhs[it.pos as int] == s
}

/// The dot of `it` stands at the end of its production.
pub open spec fn is_finished(l: Listing, it: LR1Situation) -> bool {
    it.rule < l.rules.len() && it.pos == l.rules[it.rule as int].rhs.len()
}

/// `it` with its dot moved over one symbol.
pub open spec fn moved(it: LR1Situation) -> LR1Situation {
    LR1Situation { rule: it.rule, pos: (it.pos + 1) as usize, lookahead: it.lookahead }
}

/// Whether `state` holds `it`.
pub fn has_situation(state: &Vec<LR1Situation>, it: LR1Situation) -> (found: bool)
    ensures
        found == state@.contains(it),
{
    let mut i: usize = 0;
    while i < state.len()
        invariant
            i <= state.len(),
            forall|j: int| 0 <= j < i ==> state@[j] != it,
        decreases state.len() - i,
    {
        if state[i] == it {
            return true;
        }
        i += 1;
    }
    false
}

/// Puts `it` at the end of `state` unless the state holds it already.
pub fn add_situation(state: &mut Vec<LR1Situation>, it: LR1Situation)
    ensures
        final(state)@ == if old(state)@.contains(it) {
            old(state)@
        } else {
            old(state)@.push(it)
        },
        old(state)@.no_duplicates() ==> final(state)@.no_duplicates(),
        final(state)@.to_set() == old(state)@.to_set().insert(it),
        old(state)@.len() <= final(state)@.len(),
        forall|i: int| 0 <= i < old(state)@.len() ==> final(state)@[i] == old(state)@[i],
        forall|other: LR1Situation|
            final(state)@.contains(other) <==> other == it || old(state)@.contains(other),
{
    if !has_situation(state, it) {
        state.push(it);
        proof {
            lemma_push_to_set(old(state)@, it);
            assert forall|other: LR1Situation|
                state@.contains(other) <==> other == it || old(state)@.contains(other) by {
                assert(state@.to_set().contains(other) <==> state@.contains(other));
                assert(old(state)@.to_set().contains(other) <==> old(state)@.contains(other));
            }
        }
    } else {
        assert(state@.to_set() =~= old(state)@.to_set().insert(it));
    }
}

/// The members of a sequence with one more at its end.
pub proof fn lemma_push_to_set<A>(s: Seq<A>, a: A)
    ensures
        s.push(a).to_set() == s.to_set().insert(a),
{
    let longer = s.push(a);
    assert forall|b: A| longer.to_set().contains(b) <==> s.to_set().insert(a).contains(b) by {
        if s.contains(b) {
            let i = choose|i: int| 0 <= i < s.len() && s[i] == b;
            assert(longer[i] == b);
        }
        if b == a {
            assert(longer[s.len() as int] == a);
        }
        if longer.contains(b) {
            let i = choose|i: int| 0 <= i < longer.len() && longer[i] == b;
            if i < s.len() {
                assert(s[i] == b);
            }
        }
    }
    assert(longer.to_set() =~= s.to_set().insert(a));
}

/// Whether every situation of `a` is one of `b`.
pub fn is_within(a: &Vec<LR1Situation>, b: &Vec<LR1Situation>) -> (yes: bool)
    ensures
        yes == a@.to_set().subset_of(b@.to_set()),
{
    let mut i: usize = 0;
    while i < a.len()
        invariant
            i <= a.len(),
            forall|j: int| 0 <= j < i ==> b@.contains(#[trigger] a@[j]),
        decreases a.len() - i,
    {
        if !has_situation(b, a[i]) {
            assert(a@.to_set().contains(a@[i as int]));
            return false;
        }
        i += 1;
    }
    true
}

/// Whether two states hold the same situations.
pub fn same_state(a: &Vec<LR1Situation>, b: &Vec<LR1Situation>) -> (same: bool)
    ensures
        same == (a@.to_set() == b@.to_set()),
{
    let same = is_within(a, b) && is_within(b, a);
    proof {
        if same {
            assert(a@.to_set() =~= b@.to_set());
        }
    }
    same
}

} // verus!
