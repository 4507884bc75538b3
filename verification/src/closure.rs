//! CLOSURE and GOTO on sets of LR(1) situations.
use crate::counting::{cube, lemma_cube_finite, lemma_fits};
use crate::first::{first_of, get_first};
use crate::grammar::{lemma_code, lemma_longest, longest, rule_views, CFGrammar, Production};
use crate::items::{
    add_situation, in_range, listing_of, moved, waits_for, LR1Situation, Listing,
};
use vstd::prelude::*;

verus! {

/// What may follow the symbol behind the dot of `parent`: the rest of the
/// right-hand side, then the lookahead.
pub open spec fn follow_string(l: Listing, parent: LR1Situation) -> Seq<char> {
    l.rules[parent.rule as int].rhs.skip(parent.pos + 1).push(parent.lookahead)
}

/// `parent` calls for `child`: the dot of `parent` stands before the
/// left-hand side of the production of `child`, the dot of `child` stands at
/// the start, and its lookahead may begin what follows in `parent`.
pub open spec fn predicts(l: Listing, parent: LR1Situation, child: LR1Situation) -> bool {
    &&& child.rule < l.rules.len()
    &&& child.pos == 0
    &&& waits_for(l, parent, l.rules[child.rule as int].lhs)
    &&& first_of(l, follow_string(l, parent)).contains(child.lookahead)
}

/// `it` is reached from `kernel` by at most `n` predictions in a row.
pub open spec fn closes_within(l: Listing, kernel: Set<LR1Situation>, it: LR1Situation, n: nat) -> bool
    decreases n,
{
    kernel.contains(it) || (n > 0 && exists|parent: LR1Situation| #[trigger]
        predicts(l, parent, it) && closes_within(l, kernel, parent, (n - 1) as nat))
}

/// CLOSURE: the situations reached from `kernel` by predictions.
pub open spec fn closure_of(l: Listing, kernel: Set<LR1Situation>) -> Set<LR1Situation> {
    Set::new(|it: LR1Situation| exists|n: nat| closes_within(l, kernel, it, n))
}

/// The situations of `state` whose dot stands before `symbol`, with the dot
/// moved over it.
pub open spec fn moved_over(l: Listing, state: Set<LR1Situation>, symbol: char) -> Set<
    LR1Situation,
> {
    Set::new(
        |it: LR1Situation|
            exists|parent: LR1Situation|
                state.contains(parent) && #[trigger] waits_for(l, parent, symbol) && it == moved(
                    parent,
                ),
    )
}

/// GOTO: the closure of what moving the dot over `symbol` leaves of `state`.
pub open spec fn goto_of(l: Listing, state: Set<LR1Situation>, symbol: char) -> Set<LR1Situation> {
    closure_of(l, moved_over(l, state, symbol))
}

/// Every situation of the state names a production and a place in it.
pub open spec fn all_in_range(l: Listing, state: Seq<LR1Situation>) -> bool {
    forall|i: int| 0 <= i < state.len() ==> in_range(l, #[trigger] state[i])
}

/// The situations that a state has room for: a production of the listing, a
/// place in it, and a lookahead.
pub open spec fn state_room(l: Listing) -> Set<LR1Situation> {
    Set::new(|it: LR1Situation| it.rule < l.rules.len() && it.pos <= longest(l.rules))
}

/// A state has finite room.
pub proof fn lemma_state_room(l: Listing)
    ensures
        state_room(l).finite(),
{
    let all = cube(l.rules.len() as int, longest(l.rules) as int + 1, 0x110000);
    let made = |t: (int, int, int)|
        LR1Situation { rule: t.0 as usize, pos: t.1 as usize, lookahead: t.2 as char };
    lemma_cube_finite(l.rules.len() as int, longest(l.rules) as int + 1, 0x110000);
    all.lemma_map_finite(made);
    assert forall|it: LR1Situation| state_room(l).contains(it) implies all.map(made).contains(
        it,
    ) by {
        lemma_code(it.lookahead);
        let t = (it.rule as int, it.pos as int, it.lookahead as int);
        assert(all.contains(t) && it == made(t));
    }
    vstd::set_lib::lemma_len_subset(state_room(l), all.map(made));
}

/// A list of situations without repetitions fits into the room of a state.
pub proof fn lemma_state_fits(l: Listing, state: Seq<LR1Situation>)
    requires
        state.no_duplicates(),
        all_in_range(l, state),
    ensures
        state_room(l).finite(),
        state.len() <= state_room(l).len(),
{
    lemma_state_room(l);
    assert forall|i: int| 0 <= i < state.len() implies state_room(l).contains(
        #[trigger] state[i],
    ) by {
        assert(in_range(l, state[i]));
        lemma_longest(l.rules, state[i].rule as int);
    }
    lemma_fits(state, state_room(l));
}

/// What a situation of the closure calls for is in the closure.
pub proof fn lemma_closes_next(
    l: Listing,
    kernel: Set<LR1Situation>,
    parent: LR1Situation,
    child: LR1Situation,
    n: nat,
)
    requires
        closes_within(l, kernel, parent, n),
        predicts(l, parent, child),
    ensures
        closes_within(l, kernel, child, n + 1),
{
    assert(closes_within(l, kernel, parent, ((n + 1) - 1) as nat));
}

/// A set that holds the kernel and every situation its members call for
/// holds the closure.
pub proof fn lemma_closed_holds_closure(
    l: Listing,
    kernel: Set<LR1Situation>,
    closed: Set<LR1Situation>,
    it: LR1Situation,
    n: nat,
)
    requires
        kernel.subset_of(closed),
        forall|parent: LR1Situation, child: LR1Situation|
            closed.contains(parent) && #[trigger] predicts(l, parent, child) ==> closed.contains(
                child,
            ),
        closes_within(l, kernel, it, n),
    ensures
        closed.contains(it),
    decreases n,
{
    if !kernel.contains(it) {
        let parent = choose|parent: LR1Situation| #[trigger]
            predicts(l, parent, it) && closes_within(l, kernel, parent, (n - 1) as nat);
        lemma_closed_holds_closure(l, kernel, closed, parent, (n - 1) as nat);
    }
}

/// CLOSURE of `state`: its situations first, then what they call for.
pub fn closure(grammar: &CFGrammar, rules: &Vec<Production>, state: &Vec<LR1Situation>) -> (closed:
    Vec<LR1Situation>)
    requires
        state@.no_duplicates(),
        all_in_range(listing_of(grammar@, rule_views(rules@)), state@),
    ensures
        closed@.no_duplicates(),
        all_in_range(listing_of(grammar@, rule_views(rules@)), closed@),
        closed@.to_set() == closure_of(listing_of(grammar@, rule_views(rules@)), state@.to_set()),
{
    let ghost l = listing_of(grammar@, rule_views(rules@));
    let ghost kernel = state@.to_set();
    let mut closed: Vec<LR1Situation> = Vec::new();
    let mut c: usize = 0;
    while c < state.len()
        invariant
            c <= state.len(),
            closed@ == state@.take(c as int),
        decreases state.len() - c,
    {
        closed.push(state[c]);
        assert(closed@ =~= state@.take(c + 1));
        c += 1;
    }
    assert(closed@ =~= state@);
    proof {
        assert forall|it: LR1Situation| #[trigger] closed@.contains(it) implies exists|n: nat|
            closes_within(l, kernel, it, n) by {
            assert(kernel.contains(it));
            assert(closes_within(l, kernel, it, 0));
        }
    }
    let mut i: usize = 0;
    proof {
        lemma_state_fits(l, closed@);
    }
    while i < closed.len()
        invariant
            i <= closed.len(),
            closed@.len() <= state_room(l).len(),
            l == listing_of(grammar@, rule_views(rules@)),
            kernel == state@.to_set(),
            closed@.no_duplicates(),
            all_in_range(l, closed@),
            kernel.subset_of(closed@.to_set()),
            forall|it: LR1Situation| #[trigger]
                closed@.contains(it) ==> exists|n: nat| closes_within(l, kernel, it, n),
            forall|v: int, child: LR1Situation|
                0 <= v < i && #[trigger] predicts(l, closed@[v], child) ==> closed@.contains(child),
        decreases state_room(l).len() - i,
    {
        let parent = closed[i];
        assert(in_range(l, parent));
        assert(closed@.contains(parent));
        if parent.pos < rules[parent.rule].rhs.len() {
            let symbol = parent.nth(rules, parent.pos);
            let mut lookup: Vec<char> = Vec::new();
            let mut j: usize = parent.pos + 1;
            while j < rules[parent.rule].rhs.len()
                invariant
                    parent.rule < rules.len(),
                    parent.pos + 1 <= j <= rules@[parent.rule as int].rhs@.len(),
                    lookup@ == rules@[parent.rule as int].rhs@.subrange(parent.pos + 1, j as int),
                decreases rules@[parent.rule as int].rhs@.len() - j,
            {
                lookup.push(rules[parent.rule].rhs[j]);
                assert(lookup@ =~= rules@[parent.rule as int].rhs@.subrange(
                    parent.pos + 1,
                    j + 1,
                ));
                j += 1;
            }
            lookup.push(parent.lookahead);
            assert(lookup@ =~= follow_string(l, parent));
            let first = get_first(grammar, rules, &lookup);
            let ghost entered = closed@;
            let mut q: usize = 0;
            while q < rules.len()
                invariant
                    q <= rules.len(),
                    i < closed.len(),
                    parent == closed@[i as int],
                    l == listing_of(grammar@, rule_views(rules@)),
                    kernel == state@.to_set(),
                    waits_for(l, parent, symbol),
                    first@.to_set() == first_of(l, follow_string(l, parent)),
                    closed@.no_duplicates(),
                    all_in_range(l, closed@),
                    kernel.subset_of(closed@.to_set()),
                    forall|it: LR1Situation| #[trigger]
                        closed@.contains(it) ==> exists|n: nat| closes_within(l, kernel, it, n),
                    forall|v: int, child: LR1Situation|
                        0 <= v < i && #[trigger] predicts(l, closed@[v], child)
                            ==> closed@.contains(child),
                    forall|child: LR1Situation|
                        child.rule < q && #[trigger] predicts(l, parent, child)
                            ==> closed@.contains(child),
                decreases rules.len() - q,
            {
                if rules[q].lhs == symbol {
                    let mut f: usize = 0;
                    while f < first.len()
                        invariant
                            f <= first.len(),
                            q < rules.len(),
                            i < closed.len(),
                            parent == closed@[i as int],
                            l == listing_of(grammar@, rule_views(rules@)),
                            kernel == state@.to_set(),
                            waits_for(l, parent, symbol),
                            l.rules[q as int].lhs == symbol,
                            first@.to_set() == first_of(l, follow_string(l, parent)),
                            closed@.no_duplicates(),
                            all_in_range(l, closed@),
                            kernel.subset_of(closed@.to_set()),
                            forall|it: LR1Situation| #[trigger]
                                closed@.contains(it) ==> exists|n: nat|
                                    closes_within(l, kernel, it, n),
                            forall|v: int, child: LR1Situation|
                                0 <= v < i && #[trigger] predicts(l, closed@[v], child)
                                    ==> closed@.contains(child),
                            forall|child: LR1Situation|
                                child.rule < q && #[trigger] predicts(l, parent, child)
                                    ==> closed@.contains(child),
                            forall|v: int|
                                0 <= v < f ==> closed@.contains(
                                    LR1Situation { rule: q, pos: 0, lookahead: #[trigger] first@[v] },
                                ),
                        decreases first.len() - f,
                    {
                        let child = LR1Situation::new(q, 0, first[f]);
                        proof {
                            assert(first@.to_set().contains(first@[f as int]));
                            assert(predicts(l, parent, child));
                            assert(closed@.contains(parent));
                            let n = choose|n: nat| closes_within(l, kernel, parent, n);
                            lemma_closes_next(l, kernel, parent, child, n);
                        }
                        add_situation(&mut closed, child);
                        f += 1;
                    }
                    proof {
                        assert forall|child: LR1Situation|
                            child.rule < q + 1 && #[trigger] predicts(
                                l,
                                parent,
                                child,
                            ) implies closed@.contains(child) by {
                            if child.rule == q {
                                assert(first@.contains(child.lookahead));
                                let v = choose|v: int|
                                    0 <= v < first@.len() && first@[v] == child.lookahead;
                                assert(closed@.contains(
                                    LR1Situation { rule: q, pos: 0, lookahead: first@[v] },
                                ));
                            }
                        }
                    }
                }
                q += 1;
            }
        }
        proof {
            lemma_state_fits(l, closed@);
        }
        i += 1;
    }
    proof {
        let done = closed@.to_set();
        assert forall|parent: LR1Situation, child: LR1Situation|
            done.contains(parent) && #[trigger] predicts(l, parent, child) implies done.contains(
            child,
        ) by {
            let v = choose|v: int| 0 <= v < closed@.len() && closed@[v] == parent;
            assert(predicts(l, closed@[v], child));
        }
        assert forall|it: LR1Situation| closure_of(l, kernel).contains(it) implies done.contains(
            it,
        ) by {
            let n = choose|n: nat| closes_within(l, kernel, it, n);
            lemma_closed_holds_closure(l, kernel, done, it, n);
        }
        assert(done =~= closure_of(l, kernel));
    }
    closed
}

/// GOTO of `state` on `symbol`.
pub fn goto(
    grammar: &CFGrammar,
    rules: &Vec<Production>,
    state: &Vec<LR1Situation>,
    symbol: char,
) -> (target: Vec<LR1Situation>)
    requires
        all_in_range(listing_of(grammar@, rule_views(rules@)), state@),
    ensures
        target@.no_duplicates(),
        all_in_range(listing_of(grammar@, rule_views(rules@)), target@),
        target@.to_set() == goto_of(
            listing_of(grammar@, rule_views(rules@)),
            state@.to_set(),
            symbol,
        ),
{
    let ghost l = listing_of(grammar@, rule_views(rules@));
    let mut kernel: Vec<LR1Situation> = Vec::new();
    let mut i: usize = 0;
    while i < state.len()
        invariant
            i <= state.len(),
            l == listing_of(grammar@, rule_views(rules@)),
            all_in_range(l, state@),
            kernel@.no_duplicates(),
            all_in_range(l, kernel@),
            kernel@.to_set() == moved_over(l, state@.take(i as int).to_set(), symbol),
        decreases state.len() - i,
    {
        let parent = state[i];
        assert(in_range(l, parent));
        let ghost seen = state@.take(i as int);
        let ghost more = state@.take(i + 1);
        proof {
            assert(more =~= seen.push(parent));
            crate::items::lemma_push_to_set(seen, parent);
        }
        if parent.pos < rules[parent.rule].rhs.len() && parent.nth(rules, parent.pos) == symbol {
            let it = LR1Situation::new(parent.rule, parent.pos + 1, parent.lookahead);
            add_situation(&mut kernel, it);
            proof {
                assert(it == moved(parent));
                assert(waits_for(l, parent, symbol));
                assert(kernel@.to_set() =~= moved_over(l, more.to_set(), symbol));
            }
        } else {
            assert(kernel@.to_set() =~= moved_over(l, more.to_set(), symbol));
        }
        i += 1;
    }
    assert(state@.take(state.len() as int) =~= state@);
    closure(grammar, rules, &kernel)
}

} // verus!
