//! What the walk for first terminals finds.
//!
//! In a listing without empty right-hand sides, whose productions rewrite no
//! terminal, the walk finds every terminal that can stand first in what the
//! first symbol of the string derives.
use crate::first::{first_expand, first_of, first_walk, lemma_none_visited, lemma_visit, unvisited};
use crate::items::Listing;
use vstd::prelude::*;

verus! {

/// No production of the listing has an empty right-hand side, and none
/// rewrites a terminal.
pub open spec fn plain(l: Listing) -> bool {
    forall|q: int|
        0 <= q < l.rules.len() ==> (#[trigger] l.rules[q]).rhs.len() > 0 && !l.terminals.contains(
            l.rules[q].lhs,
        )
}

/// The symbol `t` can stand first in what `s` derives through at most `n`
/// productions: it is `s`, or it can stand first in what the first symbol of
/// a right-hand side of `s` derives.
pub open spec fn begins(l: Listing, s: char, t: char, n: nat) -> bool
    decreases n,
{
    s == t || (n > 0 && exists|q: int|
        0 <= q < l.rules.len() && (#[trigger] l.rules[q]).lhs == s && l.rules[q].rhs.len() > 0
            && begins(l, l.rules[q].rhs[0], t, (n - 1) as nat))
}

/// The walk has dealt with the symbol `z`: a terminal is among the terminals
/// found, and every production of another symbol is marked.
pub open spec fn settled(l: Listing, z: char, seen: Seq<bool>, found: Set<char>) -> bool {
    if l.terminals.contains(z) {
        found.contains(z)
    } else {
        forall|p: int| 0 <= p < l.rules.len() && (#[trigger] l.rules[p]).lhs == z ==> seen[p]
    }
}

/// The marks only grow from `before` to `after`, and the first symbol of
/// each production marked in between is settled.
pub open spec fn walked(l: Listing, before: Seq<bool>, after: Seq<bool>, found: Set<char>) -> bool {
    &&& before.len() == l.rules.len()
    &&& after.len() == l.rules.len()
    &&& unvisited(after) <= unvisited(before)
    &&& forall|q: int| 0 <= q < l.rules.len() && before[q] ==> #[trigger] after[q]
    &&& forall|q: int|
        0 <= q < l.rules.len() && #[trigger] after[q] && !before[q] ==> settled(
            l,
            l.rules[q].rhs[0],
            after,
            found,
        )
}

/// A symbol that is settled stays settled when marks and terminals are added.
pub proof fn lemma_settled_grows(
    l: Listing,
    z: char,
    seen: Seq<bool>,
    found: Set<char>,
    later: Seq<bool>,
    more: Set<char>,
)
    requires
        settled(l, z, seen, found),
        found.subset_of(more),
        seen.len() == l.rules.len(),
        later.len() == l.rules.len(),
        forall|q: int| 0 <= q < l.rules.len() && seen[q] ==> #[trigger] later[q],
    ensures
        settled(l, z, later, more),
{
}

/// What the walk along `lookup` from place `at` leaves behind.
pub proof fn lemma_walk(l: Listing, visited: Seq<bool>, lookup: Seq<char>, at: int, fuel: nat)
    requires
        plain(l),
        visited.len() == l.rules.len(),
        unvisited(visited) <= fuel,
        0 <= at <= lookup.len(),
    ensures
        walked(
            l,
            visited,
            first_walk(l, visited, lookup, at, fuel).1,
            first_walk(l, visited, lookup, at, fuel).0,
        ),
        at < lookup.len() ==> settled(
            l,
            lookup[at],
            first_walk(l, visited, lookup, at, fuel).1,
            first_walk(l, visited, lookup, at, fuel).0,
        ),
    decreases fuel, 1nat, lookup.len() - at,
{
    if at < lookup.len() && !l.terminals.contains(lookup[at]) {
        let z = lookup[at];
        let (found, seen) = first_expand(l, visited, z, 0, Set::empty(), fuel);
        lemma_expand(l, visited, z, 0, Set::empty(), fuel);
        if found == Set::<char>::empty() {
            lemma_walk(l, seen, lookup, at + 1, fuel);
            let (last, end) = first_walk(l, seen, lookup, at + 1, fuel);
            assert forall|q: int|
                0 <= q < l.rules.len() && #[trigger] end[q] && !visited[q] implies settled(
                l,
                l.rules[q].rhs[0],
                end,
                last,
            ) by {
                if seen[q] {
                    let first = l.rules[q].rhs[0];
                    assert(settled(l, first, seen, found));
                    if l.terminals.contains(first) {
                        assert(found.contains(first));
                    }
                    assert(settled(l, first, end, last));
                }
            }
            assert(settled(l, z, seen, found));
            assert(settled(l, z, end, last));
        }
    }
}

/// What the expansion of `symbol` from place `q` of the listing on leaves
/// behind.
pub proof fn lemma_expand(
    l: Listing,
    visited: Seq<bool>,
    symbol: char,
    q: int,
    found: Set<char>,
    fuel: nat,
)
    requires
        plain(l),
        visited.len() == l.rules.len(),
        unvisited(visited) <= fuel,
        0 <= q <= l.rules.len(),
    ensures
        walked(
            l,
            visited,
            first_expand(l, visited, symbol, q, found, fuel).1,
            first_expand(l, visited, symbol, q, found, fuel).0,
        ),
        found.subset_of(first_expand(l, visited, symbol, q, found, fuel).0),
        forall|p: int|
            q <= p < l.rules.len() && (#[trigger] l.rules[p]).lhs == symbol ==> first_expand(
                l,
                visited,
                symbol,
                q,
                found,
                fuel,
            ).1[p],
    decreases fuel, 0nat, l.rules.len() - q,
{
    if q < l.rules.len() {
        if l.rules[q].lhs == symbol && !visited[q] {
            lemma_visit(visited, q);
            let marked = visited.update(q, true);
            let rhs = l.rules[q].rhs;
            let (more, seen) = first_walk(l, marked, rhs, 0, (fuel - 1) as nat);
            lemma_walk(l, marked, rhs, 0, (fuel - 1) as nat);
            let (last, end) = first_expand(l, seen, symbol, q + 1, found.union(more), fuel);
            lemma_expand(l, seen, symbol, q + 1, found.union(more), fuel);
            assert(seen[q]);
            assert forall|p: int|
                0 <= p < l.rules.len() && #[trigger] end[p] && !visited[p] implies settled(
                l,
                l.rules[p].rhs[0],
                end,
                last,
            ) by {
                if seen[p] {
                    let first = l.rules[p].rhs[0];
                    if p == q {
                        assert(settled(l, rhs[0], seen, more));
                    } else {
                        assert(!marked[p]);
                        assert(settled(l, first, seen, more));
                    }
                    lemma_settled_grows(l, first, seen, more, end, last);
                }
            }
            assert forall|p: int| 0 <= p < l.rules.len() && visited[p] implies #[trigger] end[p] by {
                assert(marked[p]);
                assert(seen[p]);
            }
        } else {
            lemma_expand(l, visited, symbol, q + 1, found, fuel);
        }
    }
}

/// When every marked production has its first symbol settled and `s` is
/// settled, each terminal that can stand first in what `s` derives is found.
pub proof fn lemma_begins_found(
    l: Listing,
    seen: Seq<bool>,
    found: Set<char>,
    s: char,
    t: char,
    n: nat,
)
    requires
        plain(l),
        seen.len() == l.rules.len(),
        forall|q: int|
            0 <= q < l.rules.len() && #[trigger] seen[q] ==> settled(
                l,
                l.rules[q].rhs[0],
                seen,
                found,
            ),
        settled(l, s, seen, found),
        l.terminals.contains(t),
        begins(l, s, t, n),
    ensures
        found.contains(t),
    decreases n,
{
    if s != t {
        let q = choose|q: int|
            0 <= q < l.rules.len() && (#[trigger] l.rules[q]).lhs == s && l.rules[q].rhs.len() > 0
                && begins(l, l.rules[q].rhs[0], t, (n - 1) as nat);
        assert(!l.terminals.contains(l.rules[q].lhs));
        assert(seen[q]);
        lemma_begins_found(l, seen, found, l.rules[q].rhs[0], t, (n - 1) as nat);
    }
}

/// A terminal that can stand first in what the first symbol of `lookup`
/// derives is among the first terminals of `lookup`.
pub proof fn lemma_first_complete(l: Listing, lookup: Seq<char>, t: char, n: nat)
    requires
        plain(l),
        lookup.len() > 0,
        l.terminals.contains(t),
        begins(l, lookup[0], t, n),
    ensures
        first_of(l, lookup).contains(t),
{
    let start = Seq::new(l.rules.len(), |i: int| false);
    lemma_none_visited(l.rules.len());
    lemma_walk(l, start, lookup, 0, l.rules.len());
    let (found, seen) = first_walk(l, start, lookup, 0, l.rules.len());
    lemma_begins_found(l, seen, found, lookup[0], t, n);
}

} // verus!
