//! The collections a grammar is stored in.
//!
//! Productions live in a `multimap::MultiMap<char, String>` and symbol classes
//! in `std::collections::HashSet<char>`. Verus cannot look inside either, so
//! this module names what a rule map holds and states, without proof, what
//! the handful of operations used by the library do to it.
use multimap::MultiMap;
use std::collections::HashSet;
use vstd::prelude::*;

verus! {

#[verifier::external_type_specification]
#[verifier::external_body]
#[verifier::reject_recursive_types(K)]
#[verifier::reject_recursive_types(V)]
#[verifier::reject_recursive_types(S)]
pub struct ExMultiMap<K, V, S>(MultiMap<K, V, S>);

/// What a rule map holds: for each key, the right-hand sides stored under it,
/// oldest first.
pub uninterp spec fn rule_table(m: MultiMap<char, String>) -> Map<char, Seq<Seq<char>>>;

/// The character sequences of a list of strings.
pub open spec fn texts(v: Seq<String>) -> Seq<Seq<char>> {
    v.map_values(|s: String| s@)
}

/// The table without any key.
pub open spec fn no_rules() -> Map<char, Seq<Seq<char>>> {
    Map::empty()
}

/// The table after one more right-hand side is stored under `key`: it goes to
/// the end of the key's list, and a key that was absent gets a list of its own.
pub open spec fn with_rule(t: Map<char, Seq<Seq<char>>>, key: char, rhs: Seq<char>) -> Map<
    char,
    Seq<Seq<char>>,
> {
    if t.dom().contains(key) {
        t.insert(key, t[key].push(rhs))
    } else {
        t.insert(key, seq![rhs])
    }
}

/// `MultiMap::new`: the map it returns holds nothing.
#[verifier::external_body]
pub(crate) fn empty_rules() -> (m: MultiMap<char, String>)
    ensures
        rule_table(m) == no_rules(),
{
    MultiMap::new()
}

/// `MultiMap::insert`: the value goes to the end of the key's list; a key
/// that was absent gets a list of that one value. Other keys are untouched.
#[verifier::external_body]
pub(crate) fn add_rule(m: &mut MultiMap<char, String>, key: char, rhs: String)
    ensures
        rule_table(*final(m)) == with_rule(rule_table(*old(m)), key, rhs@),
{
    m.insert(key, rhs)
}

/// `MultiMap::get_vec`: the list stored under the key, or `None` when the key
/// is absent.
#[verifier::external_body]
pub(crate) fn rules_under<'a>(m: &'a MultiMap<char, String>, key: char) -> (r: Option<&'a Vec<String>>)
    ensures
        r is Some <==> rule_table(*m).dom().contains(key),
        r matches Some(v) ==> texts(v@) == rule_table(*m)[key],
{
    m.get_vec(&key)
}

/// `MultiMap::keys`: every key once, in an order that is not fixed.
#[verifier::external_body]
pub(crate) fn rule_keys(m: &MultiMap<char, String>) -> (r: Vec<char>)
    ensures
        r@.no_duplicates(),
        r@.to_set() == rule_table(*m).dom(),
{
    m.keys().copied().collect()
}

/// `Clone::clone` of a `MultiMap`: the copy holds what the map holds.
#[verifier::external_body]
pub(crate) fn copy_rules(m: &MultiMap<char, String>) -> (r: MultiMap<char, String>)
    ensures
        rule_table(r) == rule_table(*m),
{
    m.clone()
}

/// `HashSet::contains` on characters.
#[verifier::external_body]
pub(crate) fn has_symbol(s: &HashSet<char>, c: char) -> (b: bool)
    ensures
        b == s@.contains(c),
{
    s.contains(&c)
}

/// `HashSet::insert` on characters: afterwards the set holds the character
/// and whatever it held before.
#[verifier::external_body]
pub(crate) fn add_symbol(s: &mut HashSet<char>, c: char)
    ensures
        final(s)@ == old(s)@.insert(c),
{
    s.insert(c);
}

/// `Clone::clone` of a `HashSet<char>`.
#[verifier::external_body]
pub(crate) fn copy_symbols(s: &HashSet<char>) -> (r: HashSet<char>)
    ensures
        r@ == s@,
{
    s.clone()
}

/// `String::from_iter` over characters: the string spells them in order.
#[verifier::external_body]
pub(crate) fn text_of(chars: &Vec<char>) -> (s: String)
    ensures
        s@ == chars@,
{
    String::from_iter(chars.iter())
}

} // verus!
