//! Counting: why the loops that saturate a set come to an end.
//!
//! A list without repetitions, all of whose entries belong to a finite set,
//! is no longer than the set is large. The sets that bound the lists of
//! situations and of states are built here.
use vstd::prelude::*;
use vstd::set_lib::{lemma_int_range, lemma_len_subset, set_int_range};

verus! {

/// A list without repetitions of members of a finite set is no longer than
/// the set is large.
pub proof fn lemma_fits<A>(list: Seq<A>, all: Set<A>)
    requires
        list.no_duplicates(),
        all.finite(),
        forall|i: int| 0 <= i < list.len() ==> all.contains(#[trigger] list[i]),
    ensures
        list.len() <= all.len(),
{
    list.unique_seq_to_set();
    assert forall|a: A| list.to_set().contains(a) implies all.contains(a) by {
        let i = choose|i: int| 0 <= i < list.len() && list[i] == a;
        assert(all.contains(list[i]));
    }
    lemma_len_subset(list.to_set(), all);
}

/// The pairs of a row below `rows` and a column below `columns`.
pub open spec fn grid(rows: int, columns: int) -> Set<(int, int)> {
    Set::new(|t: (int, int)| 0 <= t.0 < rows && 0 <= t.1 < columns)
}

/// There are finitely many such pairs.
pub proof fn lemma_grid_finite(rows: int, columns: int)
    requires
        0 <= rows,
        0 <= columns,
    ensures
        grid(rows, columns).finite(),
    decreases rows,
{
    if rows == 0 {
        assert(grid(rows, columns) =~= Set::<(int, int)>::empty());
    } else {
        lemma_grid_finite(rows - 1, columns);
        lemma_int_range(0, columns);
        let in_row = |c: int| (rows - 1, c);
        let row = set_int_range(0, columns).map(in_row);
        set_int_range(0, columns).lemma_map_finite(in_row);
        assert forall|t: (int, int)| grid(rows, columns).contains(t) <==> grid(
            rows - 1,
            columns,
        ).union(row).contains(t) by {
            if grid(rows, columns).contains(t) && t.0 == rows - 1 {
                assert(set_int_range(0, columns).contains(t.1) && t == in_row(t.1));
            }
        }
        assert(grid(rows, columns) =~= grid(rows - 1, columns).union(row));
    }
}

/// The triples of numbers below `a`, `b` and `c`.
pub open spec fn cube(a: int, b: int, c: int) -> Set<(int, int, int)> {
    Set::new(|t: (int, int, int)| 0 <= t.0 < a && 0 <= t.1 < b && 0 <= t.2 < c)
}

/// There are finitely many such triples.
pub proof fn lemma_cube_finite(a: int, b: int, c: int)
    requires
        0 <= a,
        0 <= b,
        0 <= c,
    ensures
        cube(a, b, c).finite(),
    decreases a,
{
    if a == 0 {
        assert(cube(a, b, c) =~= Set::<(int, int, int)>::empty());
    } else {
        lemma_cube_finite(a - 1, b, c);
        lemma_grid_finite(b, c);
        let in_layer = |t: (int, int)| (a - 1, t.0, t.1);
        let layer = grid(b, c).map(in_layer);
        grid(b, c).lemma_map_finite(in_layer);
        assert forall|t: (int, int, int)| cube(a, b, c).contains(t) <==> cube(a - 1, b, c).union(
            layer,
        ).contains(t) by {
            if cube(a, b, c).contains(t) && t.0 == a - 1 {
                assert(grid(b, c).contains((t.1, t.2)) && t == in_layer((t.1, t.2)));
            }
        }
        assert(cube(a, b, c) =~= cube(a - 1, b, c).union(layer));
    }
}

/// The sets of members of `all`.
pub open spec fn subsets<A>(all: Set<A>) -> Set<Set<A>> {
    Set::new(|s: Set<A>| s.subset_of(all))
}

/// A finite set has finitely many subsets.
pub proof fn lemma_subsets_finite<A>(all: Set<A>)
    requires
        all.finite(),
    ensures
        subsets(all).finite(),
    decreases all.len(),
{
    if all.len() == 0 {
        assert(all =~= Set::<A>::empty());
        assert forall|s: Set<A>| subsets(all).contains(s) <==> set![Set::<A>::empty()].contains(
            s,
        ) by {
            if s.subset_of(all) {
                assert(s =~= Set::<A>::empty());
            }
        }
        assert(subsets(all) =~= set![Set::<A>::empty()]);
    } else {
        let x = all.choose();
        let rest = all.remove(x);
        lemma_subsets_finite(rest);
        let with_x = |s: Set<A>| s.insert(x);
        let more = subsets(rest).map(with_x);
        subsets(rest).lemma_map_finite(with_x);
        assert forall|s: Set<A>| subsets(all).contains(s) <==> subsets(rest).union(more).contains(
            s,
        ) by {
            if s.subset_of(all) {
                if s.contains(x) {
                    let without = s.remove(x);
                    assert(without.subset_of(rest));
                    assert(s =~= with_x(without));
                    assert(subsets(rest).contains(without));
                } else {
                    assert(s.subset_of(rest));
                }
            }
            if more.contains(s) {
                let without = choose|without: Set<A>|
                    subsets(rest).contains(without) && s == with_x(without);
                assert(s.subset_of(all));
            }
            if subsets(rest).contains(s) {
                assert(s.subset_of(all));
            }
        }
        assert(subsets(all) =~= subsets(rest).union(more));
    }
}

} // verus!
