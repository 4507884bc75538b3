//! The states of the LR(1) automaton: the sets of situations reached from
//! the initial one by GOTO.
use crate::closure::{
    all_in_range, closes_within, closure, closure_of, goto, goto_of, lemma_state_room,
    moved_over, state_room,
};
use crate::counting::{lemma_fits, lemma_subsets_finite, subsets};
use crate::grammar::{ascending, lemma_longest, sorted_symbols};
use crate::grammar::{rule_views, CFGrammar, Production, END_TERMINAL};
use crate::items::{
    in_range, listing_of, moved, same_state, waits_for, LR1Situation, Listing,
};
use vstd::prelude::*;

verus! {

/// `symbol` is a terminal or a non-terminal of the grammar.
pub open spec fn is_symbol(l: Listing, symbol: char) -> bool {
    l.terminals.contains(symbol) || l.non_terminals.contains(symbol)
}

/// The set holds a situation.
pub open spec fn inhabited(state: Set<LR1Situation>) -> bool {
    exists|it: LR1Situation| state.contains(it)
}

/// The situation that the automaton starts from: the dot before the
/// right-hand side of the start production, the end marker behind it.
pub open spec fn seed(start_rule: int) -> LR1Situation {
    LR1Situation { rule: start_rule as usize, pos: 0, lookahead: END_TERMINAL }
}

/// The initial state: the closure of the seed.
pub open spec fn initial_state(l: Listing, start_rule: int) -> Set<LR1Situation> {
    closure_of(l, set![seed(start_rule)])
}

/// The automaton steps from `from` to `to` on `symbol`.
pub open spec fn steps_to(
    l: Listing,
    from: Set<LR1Situation>,
    symbol: char,
    to: Set<LR1Situation>,
) -> bool {
    is_symbol(l, symbol) && to == goto_of(l, from, symbol) && inhabited(to)
}

/// `state` is reached from the initial state in at most `n` steps.
pub open spec fn reached_within(
    l: Listing,
    start_rule: int,
    state: Set<LR1Situation>,
    n: nat,
) -> bool
    decreases n,
{
    state == initial_state(l, start_rule) || (n > 0 && exists|
        from: Set<LR1Situation>,
        symbol: char,
    | #[trigger]
        steps_to(l, from, symbol, state) && reached_within(l, start_rule, from, (n - 1) as nat))
}

/// `state` is a state of the automaton.
pub open spec fn is_state(l: Listing, start_rule: int, state: Set<LR1Situation>) -> bool {
    exists|n: nat| reached_within(l, start_rule, state, n)
}

/// With the first `k` of `states` known, the step from state `i` on the
/// symbol `c` leads to a state that is not yet known.
pub open spec fn new_step(
    l: Listing,
    states: Seq<Set<LR1Situation>>,
    k: int,
    i: int,
    c: char,
) -> bool {
    &&& 0 <= i < k <= states.len()
    &&& is_symbol(l, c)
    &&& inhabited(goto_of(l, states[i], c))
    &&& !states.take(k).contains(goto_of(l, states[i], c))
}

/// The step from state `i` on `c` is tried sooner than that from state `j`
/// on `d`: states are tried in the order of their numbers, and the symbols
/// of one state in the order of their codes.
pub open spec fn sooner(i: int, c: char, j: int, d: char) -> bool {
    i < j || (i == j && (c as int) < (d as int))
}

/// State number `k` is what the first step leads to that leads out of the
/// states before it.
pub open spec fn found_in_turn(l: Listing, states: Seq<Set<LR1Situation>>, k: int) -> bool {
    exists|i: int, c: char|
        {
            &&& #[trigger] new_step(l, states, k, i, c)
            &&& states[k] == goto_of(l, states[i], c)
            &&& forall|j: int, d: char| #[trigger] new_step(l, states, k, j, d) ==> !sooner(j, d, i, c)
        }
}

/// Every state but the initial one is found in its turn.
pub open spec fn in_turn(l: Listing, states: Seq<Set<LR1Situation>>) -> bool {
    forall|k: int| 0 < k < states.len() ==> #[trigger] found_in_turn(l, states, k)
}

/// Every step from state `v` leads to one of `states`.
pub open spec fn state_done(l: Listing, states: Seq<Set<LR1Situation>>, v: int) -> bool {
    forall|d: char|
        is_symbol(l, d) && inhabited(#[trigger] goto_of(l, states[v], d)) ==> states.contains(
            goto_of(l, states[v], d),
        )
}

/// `symbol` is a symbol of the grammar that some situation of `state` has
/// its dot before.
pub open spec fn waited(l: Listing, state: Set<LR1Situation>, symbol: char) -> bool {
    is_symbol(l, symbol) && exists|it: LR1Situation|
        state.contains(it) && #[trigger] waits_for(l, it, symbol)
}

/// `states` numbers the states of the automaton: the initial state comes
/// first, every entry is a state, no state comes twice, each situation names
/// a production and a place in it, each step from an entry leads to an
/// entry, and the states stand in the order in which the steps find them,
/// which leaves room for one numbering only.
pub open spec fn numbers_states(l: Listing, start_rule: int, states: Seq<Set<LR1Situation>>) -> bool {
    &&& 0 < states.len() <= usize::MAX
    &&& states[0] == initial_state(l, start_rule)
    &&& states.no_duplicates()
    &&& forall|i: int| 0 <= i < states.len() ==> is_state(l, start_rule, #[trigger] states[i])
    &&& forall|i: int, it: LR1Situation|
        0 <= i < states.len() && #[trigger] states[i].contains(it) ==> in_range(l, it)
    &&& forall|i: int, symbol: char|
        0 <= i < states.len() && is_symbol(l, symbol) && inhabited(
            #[trigger] goto_of(l, states[i], symbol),
        ) ==> states.contains(goto_of(l, states[i], symbol))
    &&& in_turn(l, states)
}

/// The sets of situations that the stored states hold.
pub open spec fn state_sets(states: Seq<Vec<LR1Situation>>) -> Seq<Set<LR1Situation>> {
    states.map_values(|state: Vec<LR1Situation>| state@.to_set())
}

/// Nothing is reached from an empty kernel.
pub proof fn lemma_closure_needs_kernel(
    l: Listing,
    kernel: Set<LR1Situation>,
    it: LR1Situation,
    n: nat,
)
    requires
        closes_within(l, kernel, it, n),
    ensures
        inhabited(kernel),
    decreases n,
{
    if !kernel.contains(it) {
        let parent = choose|parent: LR1Situation| #[trigger]
            crate::closure::predicts(l, parent, it) && closes_within(
                l,
                kernel,
                parent,
                (n - 1) as nat,
            );
        lemma_closure_needs_kernel(l, kernel, parent, (n - 1) as nat);
    }
}

/// GOTO on a symbol holds a situation exactly when some situation of the
/// state has its dot before the symbol.
pub proof fn lemma_goto_inhabited(l: Listing, state: Set<LR1Situation>, symbol: char)
    ensures
        inhabited(goto_of(l, state, symbol)) <==> exists|parent: LR1Situation|
            state.contains(parent) && #[trigger] waits_for(l, parent, symbol),
{
    let kernel = moved_over(l, state, symbol);
    if inhabited(goto_of(l, state, symbol)) {
        let it = choose|it: LR1Situation| goto_of(l, state, symbol).contains(it);
        let n = choose|n: nat| closes_within(l, kernel, it, n);
        lemma_closure_needs_kernel(l, kernel, it, n);
        let k = choose|k: LR1Situation| kernel.contains(k);
        assert(kernel.contains(k));
    }
    if exists|parent: LR1Situation| state.contains(parent) && #[trigger] waits_for(l, parent, symbol) {
        let parent = choose|parent: LR1Situation|
            state.contains(parent) && #[trigger] waits_for(l, parent, symbol);
        assert(kernel.contains(moved(parent)));
        assert(closes_within(l, kernel, moved(parent), 0));
        assert(goto_of(l, state, symbol).contains(moved(parent)));
    }
}

/// Where among `states` a state with the situations of `target` stands.
pub fn find_state(states: &Vec<Vec<LR1Situation>>, target: &Vec<LR1Situation>) -> (at: Option<
    usize,
>)
    ensures
        at matches Some(k) ==> k < states.len() && state_sets(states@)[k as int]
            == target@.to_set(),
        at is None ==> !state_sets(states@).contains(target@.to_set()),
{
    let mut k: usize = 0;
    while k < states.len()
        invariant
            k <= states.len(),
            forall|v: int| 0 <= v < k ==> state_sets(states@)[v] != target@.to_set(),
        decreases states.len() - k,
    {
        if same_state(&states[k], target) {
            return Some(k);
        }
        k += 1;
    }
    None
}

/// What the stored states of the builder satisfy while it runs.
pub open spec fn states_ok(l: Listing, start_rule: int, states: Seq<Vec<LR1Situation>>) -> bool {
    &&& states.len() > 0
    &&& state_sets(states)[0] == initial_state(l, start_rule)
    &&& state_sets(states).no_duplicates()
    &&& forall|i: int|
        0 <= i < states.len() ==> {
            &&& (#[trigger] states[i])@.no_duplicates()
            &&& all_in_range(l, states[i]@)
            &&& is_state(l, start_rule, states[i]@.to_set())
        }
}

/// There are finitely many sets of situations that a state has room for,
/// and no more states than such sets.
pub proof fn lemma_states_fit(l: Listing, start_rule: int, states: Seq<Vec<LR1Situation>>)
    requires
        states_ok(l, start_rule, states),
    ensures
        subsets(state_room(l)).finite(),
        states.len() <= subsets(state_room(l)).len(),
{
    lemma_state_room(l);
    lemma_subsets_finite(state_room(l));
    let sets = state_sets(states);
    assert forall|i: int| 0 <= i < sets.len() implies subsets(state_room(l)).contains(
        #[trigger] sets[i],
    ) by {
        assert forall|it: LR1Situation| sets[i].contains(it) implies state_room(l).contains(
            it,
        ) by {
            let w = choose|w: int| 0 <= w < states[i]@.len() && states[i]@[w] == it;
            assert(in_range(l, states[i]@[w]));
            lemma_longest(l.rules, it.rule as int);
        }
    }
    lemma_fits(sets, subsets(state_room(l)));
}

/// A state that was found in its turn stays so when states are added.
pub proof fn lemma_found_kept(
    l: Listing,
    states: Seq<Set<LR1Situation>>,
    more: Seq<Set<LR1Situation>>,
    k: int,
)
    requires
        0 < k < states.len(),
        states.len() <= more.len(),
        forall|v: int| 0 <= v < states.len() ==> more[v] == states[v],
        found_in_turn(l, states, k),
    ensures
        found_in_turn(l, more, k),
{
    let (i, c) = choose|i: int, c: char|
        {
            &&& #[trigger] new_step(l, states, k, i, c)
            &&& states[k] == goto_of(l, states[i], c)
            &&& forall|j: int, d: char| #[trigger] new_step(l, states, k, j, d) ==> !sooner(j, d, i, c)
        };
    assert(more.take(k) =~= states.take(k));
    assert(new_step(l, more, k, i, c));
    assert forall|j: int, d: char| #[trigger] new_step(l, more, k, j, d) implies !sooner(
        j,
        d,
        i,
        c,
    ) by {
        assert(new_step(l, states, k, j, d));
    }
}

/// A state all of whose steps are known stays so when states are added.
pub proof fn lemma_done_kept(
    l: Listing,
    states: Seq<Set<LR1Situation>>,
    more: Seq<Set<LR1Situation>>,
    v: int,
)
    requires
        0 <= v < states.len(),
        states.len() <= more.len(),
        forall|u: int| 0 <= u < states.len() ==> more[u] == states[u],
        state_done(l, states, v),
    ensures
        state_done(l, more, v),
{
    assert forall|d: char|
        is_symbol(l, d) && inhabited(#[trigger] goto_of(l, more[v], d)) implies more.contains(
        goto_of(l, more[v], d),
    ) by {
        let target = goto_of(l, states[v], d);
        let k = choose|k: int| 0 <= k < states.len() && states[k] == target;
        assert(more[k] == target);
    }
}

/// The symbols of the grammar that the situations of `state` have their dot
/// before, in the order of their codes.
pub fn waited_symbols(grammar: &CFGrammar, rules: &Vec<Production>, state: &Vec<LR1Situation>) -> (symbols:
    Vec<char>)
    requires
        all_in_range(listing_of(grammar@, rule_views(rules@)), state@),
    ensures
        ascending(symbols@),
        symbols@.to_set() == Set::new(
            |d: char| waited(listing_of(grammar@, rule_views(rules@)), state@.to_set(), d),
        ),
{
    let ghost l = listing_of(grammar@, rule_views(rules@));
    let mut found: Vec<char> = Vec::new();
    let mut j: usize = 0;
    assert(found@.to_set() =~= Set::new(|d: char| waited(l, state@.take(0).to_set(), d)));
    while j < state.len()
        invariant
            j <= state.len(),
            l == listing_of(grammar@, rule_views(rules@)),
            all_in_range(l, state@),
            found@.to_set() == Set::new(|d: char| waited(l, state@.take(j as int).to_set(), d)),
        decreases state.len() - j,
    {
        let it = state[j];
        assert(in_range(l, it));
        let ghost seen = state@.take(j as int);
        let ghost more = state@.take(j + 1);
        let ghost before = found@;
        proof {
            assert(more =~= seen.push(it));
            crate::items::lemma_push_to_set(seen, it);
        }
        let mut taken = false;
        if it.pos < rules[it.rule].rhs.len() {
            let symbol = it.nth(rules, it.pos);
            if grammar.is_terminal(symbol) || grammar.is_non_terminal(symbol) {
                found.push(symbol);
                taken = true;
                proof {
                    crate::items::lemma_push_to_set(before, symbol);
                    assert(waits_for(l, it, symbol));
                    assert forall|d: char|
                        found@.to_set().contains(d) <==> waited(l, more.to_set(), d) by {
                        if waited(l, seen.to_set(), d) {
                            let other = choose|other: LR1Situation|
                                seen.to_set().contains(other) && #[trigger] waits_for(l, other, d);
                            assert(more.to_set().contains(other));
                        }
                        if waited(l, more.to_set(), d) && d != symbol {
                            let other = choose|other: LR1Situation|
                                more.to_set().contains(other) && #[trigger] waits_for(l, other, d);
                            assert(seen.to_set().contains(other));
                        }
                        if d == symbol {
                            assert(more.to_set().contains(it));
                        }
                        assert(before.to_set().contains(d) <==> waited(l, seen.to_set(), d));
                    }
                }
            }
        }
        proof {
            if !taken {
                assert forall|d: char|
                    found@.to_set().contains(d) <==> waited(l, more.to_set(), d) by {
                    if waited(l, seen.to_set(), d) {
                        let other = choose|other: LR1Situation|
                            seen.to_set().contains(other) && #[trigger] waits_for(l, other, d);
                        assert(more.to_set().contains(other));
                    }
                    if waited(l, more.to_set(), d) {
                        let other = choose|other: LR1Situation|
                            more.to_set().contains(other) && #[trigger] waits_for(l, other, d);
                        assert(seen.to_set().contains(other));
                    }
                    assert(before.to_set().contains(d) <==> waited(l, seen.to_set(), d));
                }
            }
            assert(found@.to_set() =~= Set::new(|d: char| waited(l, more.to_set(), d)));
        }
        j += 1;
    }
    assert(state@.take(state.len() as int) =~= state@);
    sorted_symbols(&found)
}

/// The states of the automaton, the initial state first, then each state
/// when the first step leads to it: the states are gone through in the
/// order of their numbers, and the symbols of each in the order of their
/// codes.
#[verifier::rlimit(50)]
pub fn get_states(grammar: &CFGrammar, rules: &Vec<Production>, start_rule: usize) -> (states: Vec<
    Vec<LR1Situation>,
>)
    requires
        start_rule < rules.len(),
    ensures
        states_ok(listing_of(grammar@, rule_views(rules@)), start_rule as int, states@),
        numbers_states(
            listing_of(grammar@, rule_views(rules@)),
            start_rule as int,
            state_sets(states@),
        ),
{
    let ghost l = listing_of(grammar@, rule_views(rules@));
    let ghost r = start_rule as int;
    let mut kernel: Vec<LR1Situation> = Vec::new();
    kernel.push(LR1Situation::new(start_rule, 0, END_TERMINAL));
    proof {
        let none = Seq::<LR1Situation>::empty();
        crate::items::lemma_push_to_set(none, seed(r));
        assert(none.to_set() =~= Set::<LR1Situation>::empty());
        assert(kernel@ =~= none.push(seed(r)));
        assert(set![seed(r)] =~= Set::<LR1Situation>::empty().insert(seed(r)));
        assert(kernel@.to_set() == set![seed(r)]);
        assert(in_range(l, kernel@[0]));
    }
    let initial = closure(grammar, rules, &kernel);
    let mut states: Vec<Vec<LR1Situation>> = Vec::new();
    states.push(initial);
    proof {
        assert(state_sets(states@)[0] == initial_state(l, r));
        assert(reached_within(l, r, states@[0]@.to_set(), 0));
    }
    let mut i: usize = 0;
    proof {
        lemma_states_fit(l, r, states@);
    }
    while i < states.len()
        invariant
            i <= states.len(),
            states.len() <= subsets(state_room(l)).len(),
            l == listing_of(grammar@, rule_views(rules@)),
            r == start_rule,
            states_ok(l, r, states@),
            in_turn(l, state_sets(states@)),
            forall|v: int| 0 <= v < i ==> #[trigger] state_done(l, state_sets(states@), v),
        decreases subsets(state_room(l)).len() - i,
    {
        let symbols = waited_symbols(grammar, rules, &states[i]);
        let ghost from = states@[i as int]@.to_set();
        let mut t: usize = 0;
        while t < symbols.len()
            invariant
                t <= symbols.len(),
                i < states.len(),
                from == states@[i as int]@.to_set(),
                l == listing_of(grammar@, rule_views(rules@)),
                r == start_rule,
                ascending(symbols@),
                symbols@.to_set() == Set::new(|d: char| waited(l, from, d)),
                states_ok(l, r, states@),
                in_turn(l, state_sets(states@)),
                forall|v: int| 0 <= v < i ==> #[trigger] state_done(l, state_sets(states@), v),
                forall|u: int|
                    0 <= u < t ==> state_sets(states@).contains(
                        goto_of(l, from, #[trigger] symbols@[u]),
                    ),
            decreases symbols.len() - t,
        {
            let symbol = symbols[t];
            let target = goto(grammar, rules, &states[i], symbol);
            let found = find_state(&states, &target);
            proof {
                assert(symbols@.to_set().contains(symbol));
                assert(waited(l, from, symbol));
                lemma_goto_inhabited(l, from, symbol);
            }
            if found.is_none() {
                let ghost before = states@;
                let ghost known = state_sets(before);
                states.push(target);
                proof {
                    let to = target@.to_set();
                    let sets = state_sets(states@);
                    let k = known.len() as int;
                    assert(known[i as int] == from);
                    assert(steps_to(l, from, symbol, to));
                    let n = choose|n: nat| reached_within(l, r, from, n);
                    assert(reached_within(l, r, from, ((n + 1) - 1) as nat));
                    assert(reached_within(l, r, to, n + 1));
                    assert(sets =~= known.push(to));
                    assert(sets.take(k) =~= known);
                    assert forall|v: int| 0 <= v < i implies #[trigger] state_done(l, sets, v) by {
                        lemma_done_kept(l, known, sets, v);
                    }
                    assert forall|u: int| 0 <= u < t implies sets.contains(
                        goto_of(l, from, #[trigger] symbols@[u]),
                    ) by {
                        let goal = goto_of(l, from, symbols@[u]);
                        let at = choose|at: int| 0 <= at < known.len() && known[at] == goal;
                        assert(sets[at] == goal);
                    }
                    assert(new_step(l, sets, k, i as int, symbol));
                    assert forall|j: int, d: char| #[trigger]
                        new_step(l, sets, k, j, d) implies !sooner(j, d, i as int, symbol) by {
                        if j < i {
                            assert(state_done(l, known, j));
                            assert(known.contains(goto_of(l, known[j], d)));
                        } else if j == i && (d as int) < (symbol as int) {
                            lemma_goto_inhabited(l, from, d);
                            assert(waited(l, from, d));
                            assert(symbols@.to_set().contains(d));
                            let u = choose|u: int| 0 <= u < symbols@.len() && symbols@[u] == d;
                            if u >= t {
                                if u > t {
                                    assert((symbols@[t as int] as int) < (symbols@[u] as int));
                                }
                            } else {
                                assert(known.contains(goto_of(l, from, symbols@[u])));
                            }
                        }
                    }
                    assert(found_in_turn(l, sets, k));
                    assert forall|kk: int| 0 < kk < sets.len() implies #[trigger] found_in_turn(
                        l,
                        sets,
                        kk,
                    ) by {
                        if kk < k {
                            lemma_found_kept(l, known, sets, kk);
                        }
                    }
                }
            }
            assert(state_sets(states@).contains(target@.to_set())) by {
                if found.is_none() {
                    assert(state_sets(states@)[states@.len() - 1] == target@.to_set());
                }
            }
            t += 1;
        }
        proof {
            let sets = state_sets(states@);
            assert forall|d: char|
                is_symbol(l, d) && inhabited(#[trigger] goto_of(l, sets[i as int], d)) implies sets.contains(
                goto_of(l, sets[i as int], d),
            ) by {
                lemma_goto_inhabited(l, from, d);
                assert(waited(l, from, d));
                assert(symbols@.to_set().contains(d));
                let u = choose|u: int| 0 <= u < symbols@.len() && symbols@[u] == d;
                assert(sets.contains(goto_of(l, from, symbols@[u])));
            }
            lemma_states_fit(l, r, states@);
        }
        i += 1;
    }
    proof {
        let sets = state_sets(states@);
        assert forall|v: int| 0 <= v < sets.len() implies is_state(l, r, #[trigger] sets[v]) by {
            assert(is_state(l, r, states@[v]@.to_set()));
        }
        assert forall|v: int, it: LR1Situation|
            0 <= v < sets.len() && #[trigger] sets[v].contains(it) implies in_range(l, it) by {
            let w = choose|w: int| 0 <= w < states@[v]@.len() && states@[v]@[w] == it;
            assert(in_range(l, states@[v]@[w]));
        }
        assert forall|v: int, symbol: char|
            0 <= v < sets.len() && is_symbol(l, symbol) && inhabited(
                #[trigger] goto_of(l, sets[v], symbol),
            ) implies sets.contains(goto_of(l, sets[v], symbol)) by {
            assert(state_done(l, sets, v));
        }
    }
    states
}

} // verus!
