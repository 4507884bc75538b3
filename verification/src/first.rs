//! The terminals that may begin what a string of symbols derives.
//!
//! The string is walked from the left. A terminal ends the walk. Any other
//! symbol is expanded through its productions that were not expanded before;
//! when that finds terminals they are the answer, otherwise the walk goes on
//! to the next symbol.
//!
//! The model of the walk carries a bound on how deep expansions nest. The
//! bound makes no difference once it is at least the number of productions
//! not yet expanded.
use crate::grammar::{CFGrammar, Production, rule_views};
use crate::items::{listing_of, Listing};
use vstd::prelude::*;

verus! {

/// How many productions are still unmarked.
pub open spec fn unvisited(visited: Seq<bool>) -> nat
    decreases visited.len(),
{
    if visited.len() == 0 {
        0
    } else {
        unvisited(visited.drop_last()) + if visited.last() {
            0nat
        } else {
            1nat
        }
    }
}

/// Marking an unmarked production leaves one fewer unmarked.
pub proof fn lemma_visit(visited: Seq<bool>, q: int)
    requires
        0 <= q < visited.len(),
        !visited[q],
    ensures
        unvisited(visited.update(q, true)) + 1 == unvisited(visited),
    decreases visited.len(),
{
    let marked = visited.update(q, true);
    if q == visited.len() - 1 {
        assert(marked.drop_last() =~= visited.drop_last());
    } else {
        assert(marked.drop_last() =~= visited.drop_last().update(q, true));
        lemma_visit(visited.drop_last(), q);
    }
}

/// No more productions are unmarked than there are.
pub proof fn lemma_unvisited_bound(visited: Seq<bool>)
    ensures
        unvisited(visited) <= visited.len(),
    decreases visited.len(),
{
    if visited.len() > 0 {
        lemma_unvisited_bound(visited.drop_last());
    }
}

/// With no production marked, all are unmarked.
pub proof fn lemma_none_visited(n: nat)
    ensures
        unvisited(Seq::new(n, |i: int| false)) == n,
    decreases n,
{
    if n > 0 {
        assert(Seq::new(n, |i: int| false).drop_last() =~= Seq::new(
            (n - 1) as nat,
            |i: int| false,
        ));
        lemma_none_visited((n - 1) as nat);
    }
}

/// The walk along `lookup` from place `at`: the terminals found, and the
/// productions marked afterwards. `fuel` bounds how deep expansions nest.
pub open spec fn first_walk(
    l: Listing,
    visited: Seq<bool>,
    lookup: Seq<char>,
    at: int,
    fuel: nat,
) -> (Set<char>, Seq<bool>)
    decreases fuel, 1nat, lookup.len() - at,
{
    if at < 0 || at >= lookup.len() {
        (Set::empty(), visited)
    } else if l.terminals.contains(lookup[at]) {
        (set![lookup[at]], visited)
    } else {
        let (found, seen) = first_expand(l, visited, lookup[at], 0, Set::empty(), fuel);
        if found == Set::<char>::empty() {
            first_walk(l, seen, lookup, at + 1, fuel)
        } else {
            (found, seen)
        }
    }
}

/// The expansion of `symbol` through its productions from place `q` of the
/// listing on: each unmarked one is marked and its right-hand side walked.
pub open spec fn first_expand(
    l: Listing,
    visited: Seq<bool>,
    symbol: char,
    q: int,
    found: Set<char>,
    fuel: nat,
) -> (Set<char>, Seq<bool>)
    decreases fuel, 0nat, l.rules.len() - q,
{
    if q < 0 || q >= l.rules.len() {
        (found, visited)
    } else if l.rules[q].lhs == symbol && !visited[q] && fuel > 0 {
        let (more, seen) = first_walk(
            l,
            visited.update(q, true),
            l.rules[q].rhs,
            0,
            (fuel - 1) as nat,
        );
        first_expand(l, seen, symbol, q + 1, found.union(more), fuel)
    } else {
        first_expand(l, visited, symbol, q + 1, found, fuel)
    }
}

/// The terminals that may begin what `lookup` derives.
pub open spec fn first_of(l: Listing, lookup: Seq<char>) -> Set<char> {
    first_walk(l, Seq::new(l.rules.len(), |i: int| false), lookup, 0, l.rules.len()).0
}

/// The walk keeps the number of marks and adds no unmarked production; what
/// it finds are terminals.
pub proof fn lemma_walk_marks(l: Listing, visited: Seq<bool>, lookup: Seq<char>, at: int, fuel: nat)
    requires
        visited.len() == l.rules.len(),
    ensures
        first_walk(l, visited, lookup, at, fuel).1.len() == visited.len(),
        unvisited(first_walk(l, visited, lookup, at, fuel).1) <= unvisited(visited),
        first_walk(l, visited, lookup, at, fuel).0.subset_of(l.terminals),
    decreases fuel, 1nat, lookup.len() - at,
{
    if 0 <= at < lookup.len() && !l.terminals.contains(lookup[at]) {
        let (found, seen) = first_expand(l, visited, lookup[at], 0, Set::empty(), fuel);
        lemma_expand_marks(l, visited, lookup[at], 0, Set::empty(), fuel);
        if found == Set::<char>::empty() {
            lemma_walk_marks(l, seen, lookup, at + 1, fuel);
        }
    }
}

/// The expansion keeps the number of marks and adds no unmarked production;
/// what it adds to the terminals found are terminals.
pub proof fn lemma_expand_marks(
    l: Listing,
    visited: Seq<bool>,
    symbol: char,
    q: int,
    found: Set<char>,
    fuel: nat,
)
    requires
        visited.len() == l.rules.len(),
        found.subset_of(l.terminals),
    ensures
        first_expand(l, visited, symbol, q, found, fuel).1.len() == visited.len(),
        unvisited(first_expand(l, visited, symbol, q, found, fuel).1) <= unvisited(visited),
        first_expand(l, visited, symbol, q, found, fuel).0.subset_of(l.terminals),
    decreases fuel, 0nat, l.rules.len() - q,
{
    if 0 <= q < l.rules.len() {
        if l.rules[q].lhs == symbol && !visited[q] && fuel > 0 {
            lemma_visit(visited, q);
            let marked = visited.update(q, true);
            let (more, seen) = first_walk(l, marked, l.rules[q].rhs, 0, (fuel - 1) as nat);
            lemma_walk_marks(l, marked, l.rules[q].rhs, 0, (fuel - 1) as nat);
            lemma_expand_marks(l, seen, symbol, q + 1, found.union(more), fuel);
        } else {
            lemma_expand_marks(l, visited, symbol, q + 1, found, fuel);
        }
    }
}

/// The walk does the same with every bound on the nesting that is at least
/// the number of unmarked productions.
pub proof fn lemma_walk_bound(
    l: Listing,
    visited: Seq<bool>,
    lookup: Seq<char>,
    at: int,
    fuel: nat,
    more: nat,
)
    requires
        visited.len() == l.rules.len(),
        unvisited(visited) <= fuel <= more,
    ensures
        first_walk(l, visited, lookup, at, fuel) == first_walk(l, visited, lookup, at, more),
    decreases fuel, 1nat, lookup.len() - at,
{
    if 0 <= at < lookup.len() && !l.terminals.contains(lookup[at]) {
        let (found, seen) = first_expand(l, visited, lookup[at], 0, Set::empty(), fuel);
        lemma_expand_bound(l, visited, lookup[at], 0, Set::empty(), fuel, more);
        lemma_expand_marks(l, visited, lookup[at], 0, Set::empty(), fuel);
        if found == Set::<char>::empty() {
            lemma_walk_bound(l, seen, lookup, at + 1, fuel, more);
        }
    }
}

/// The expansion does the same with every bound on the nesting that is at
/// least the number of unmarked productions.
pub proof fn lemma_expand_bound(
    l: Listing,
    visited: Seq<bool>,
    symbol: char,
    q: int,
    found: Set<char>,
    fuel: nat,
    more: nat,
)
    requires
        visited.len() == l.rules.len(),
        unvisited(visited) <= fuel <= more,
    ensures
        first_expand(l, visited, symbol, q, found, fuel) == first_expand(
            l,
            visited,
            symbol,
            q,
            found,
            more,
        ),
    decreases fuel, 0nat, l.rules.len() - q,
{
    if 0 <= q < l.rules.len() {
        if l.rules[q].lhs == symbol && !visited[q] {
            lemma_visit(visited, q);
            let marked = visited.update(q, true);
            let rhs = l.rules[q].rhs;
            let (sub, seen) = first_walk(l, marked, rhs, 0, (fuel - 1) as nat);
            lemma_walk_bound(l, marked, rhs, 0, (fuel - 1) as nat, (more - 1) as nat);
            lemma_walk_marks(l, marked, rhs, 0, (fuel - 1) as nat);
            lemma_expand_bound(l, seen, symbol, q + 1, found.union(sub), fuel, more);
        } else {
            lemma_expand_bound(l, visited, symbol, q + 1, found, fuel, more);
        }
    }
}

/// The first terminals of a string are terminals.
pub proof fn law_first_holds_terminals(l: Listing, lookup: Seq<char>)
    ensures
        first_of(l, lookup).subset_of(l.terminals),
{
    lemma_walk_marks(l, Seq::new(l.rules.len(), |i: int| false), lookup, 0, l.rules.len());
}

/// Adds to `found` the symbols of `more` that it lacks.
pub fn merge(found: &mut Vec<char>, more: &Vec<char>)
    ensures
        old(found)@.no_duplicates() ==> final(found)@.no_duplicates(),
        final(found)@.to_set() == old(found)@.to_set().union(more@.to_set()),
{
    let mut i: usize = 0;
    while i < more.len()
        invariant
            i <= more.len(),
            old(found)@.no_duplicates() ==> found@.no_duplicates(),
            found@.to_set() == old(found)@.to_set().union(more@.take(i as int).to_set()),
        decreases more.len() - i,
    {
        let c = more[i];
        let ghost before = found@;
        let mut known = false;
        let mut j: usize = 0;
        while j < found.len()
            invariant
                j <= found.len(),
                found@ == before,
                known == exists|v: int| 0 <= v < j && found@[v] == c,
            decreases found.len() - j,
        {
            if found[j] == c {
                known = true;
            }
            j += 1;
        }
        if !known {
            found.push(c);
            proof {
                crate::items::lemma_push_to_set(before, c);
            }
        }
        proof {
            assert(more@.take(i + 1) =~= more@.take(i as int).push(c));
            crate::items::lemma_push_to_set(more@.take(i as int), c);
            assert(found@.to_set() =~= old(found)@.to_set().union(more@.take(i + 1).to_set()));
        }
        i += 1;
    }
    assert(more@.take(more.len() as int) =~= more@);
}

/// Walks `lookup` and hands back the terminals found; `visited` marks the
/// productions that were expanded.
pub fn dfs(
    grammar: &CFGrammar,
    rules: &Vec<Production>,
    visited: &mut Vec<bool>,
    lookup: &Vec<char>,
) -> (found: Vec<char>)
    requires
        old(visited).len() == rules.len(),
    ensures
        final(visited).len() == rules.len(),
        unvisited(final(visited)@) <= unvisited(old(visited)@),
        found@.no_duplicates(),
        found@.to_set() == first_walk(
            listing_of(grammar@, rule_views(rules@)),
            old(visited)@,
            lookup@,
            0,
            rules.len() as nat,
        ).0,
        final(visited)@ == first_walk(
            listing_of(grammar@, rule_views(rules@)),
            old(visited)@,
            lookup@,
            0,
            rules.len() as nat,
        ).1,
    decreases unvisited(old(visited)@),
{
    let ghost l = listing_of(grammar@, rule_views(rules@));
    let ghost fuel = rules.len() as nat;
    let ghost goal = first_walk(l, old(visited)@, lookup@, 0, fuel);
    let mut at: usize = 0;
    while at < lookup.len()
        invariant
            at <= lookup.len(),
            visited.len() == rules.len(),
            fuel == rules.len(),
            l == listing_of(grammar@, rule_views(rules@)),
            unvisited(visited@) <= unvisited(old(visited)@),
            goal == first_walk(l, old(visited)@, lookup@, 0, fuel),
            first_walk(l, visited@, lookup@, at as int, fuel) == goal,
        decreases lookup.len() - at,
    {
        let symbol = lookup[at];
        if grammar.is_terminal(symbol) {
            let mut found: Vec<char> = Vec::new();
            found.push(symbol);
            proof {
                let none = Seq::<char>::empty();
                crate::items::lemma_push_to_set(none, symbol);
                assert(none.to_set() =~= Set::<char>::empty());
                assert(found@ =~= none.push(symbol));
                assert(set![symbol] =~= Set::<char>::empty().insert(symbol));
                assert(found@.to_set() == set![symbol]);
                assert(l.terminals.contains(lookup@[at as int]));
                assert(first_walk(l, visited@, lookup@, at as int, fuel) == (
                    set![symbol],
                    visited@,
                ));
            }
            return found;
        }
        let ghost entered = visited@;
        let mut found: Vec<char> = Vec::new();
        assert(found@.to_set() =~= Set::<char>::empty());
        let mut q: usize = 0;
        while q < rules.len()
            invariant
                q <= rules.len(),
                visited.len() == rules.len(),
                fuel == rules.len(),
                l == listing_of(grammar@, rule_views(rules@)),
                unvisited(visited@) <= unvisited(old(visited)@),
                found@.no_duplicates(),
                first_expand(l, visited@, symbol, q as int, found@.to_set(), fuel) == first_expand(
                    l,
                    entered,
                    symbol,
                    0,
                    Set::empty(),
                    fuel,
                ),
            decreases rules.len() - q,
        {
            if rules[q].lhs == symbol && !visited[q] {
                proof {
                    lemma_visit(visited@, q as int);
                    lemma_unvisited_bound(visited@);
                    lemma_walk_bound(
                        l,
                        visited@.update(q as int, true),
                        rules@[q as int].rhs@,
                        0,
                        (fuel - 1) as nat,
                        fuel,
                    );
                }
                visited[q] = true;
                let more = dfs(grammar, rules, visited, &rules[q].rhs);
                merge(&mut found, &more);
            }
            q += 1;
        }
        if found.len() > 0 {
            proof {
                assert(found@.to_set().contains(found@[0]));
            }
            return found;
        }
        proof {
            assert(found@.to_set() =~= Set::<char>::empty());
        }
        at += 1;
    }
    proof {
        assert(Seq::<char>::empty().to_set() =~= Set::<char>::empty());
    }
    Vec::new()
}

/// The terminals that may begin what `lookup` derives.
pub fn get_first(grammar: &CFGrammar, rules: &Vec<Production>, lookup: &Vec<char>) -> (found: Vec<
    char,
>)
    ensures
        found@.no_duplicates(),
        found@.to_set() == first_of(listing_of(grammar@, rule_views(rules@)), lookup@),
{
    let mut visited: Vec<bool> = Vec::new();
    let mut i: usize = 0;
    while i < rules.len()
        invariant
            i <= rules.len(),
            visited@ =~= Seq::new(i as nat, |j: int| false),
        decreases rules.len() - i,
    {
        visited.push(false);
        i += 1;
    }
    dfs(grammar, rules, &mut visited, lookup)
}

} // verus!
