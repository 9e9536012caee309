//! The hash maps behind the merge table and its inverse. They are
//! `std::collections::HashMap` with the hasher of `rustc_hash`; what the
//! verified code knows of them is stated here and taken on trust.
use crate::util::Token;
use rustc_hash::FxHashMap;
use vstd::prelude::*;

verus! {

/// The hasher state of `rustc_hash`, carried as a type parameter only.
#[verifier::external_type_specification]
#[verifier::external_body]
pub struct ExFxBuildHasher(rustc_hash::FxBuildHasher);

/// Merge rules: an ordered pair of ids to the id that replaces it.
pub type FwdMap = FxHashMap<(Token, Token), Token>;

/// The inverse of the merge rules: a learned id to the pair it stands for.
pub type BkwdMap = FxHashMap<Token, (Token, Token)>;

/// `HashMap::get` on a map keyed by pairs of ids and hashed by `FxHasher`: the
/// value stored under `(left, right)`, if there is one. The hasher is a fixed
/// function of the key's bits, so a key is found exactly where it was put.
#[verifier::external_body]
pub(crate) fn pair_get<V: Copy>(m: &FxHashMap<(Token, Token), V>, left: Token, right: Token) -> (r:
    Option<V>)
    ensures
        r == if m@.contains_key((left, right)) {
            Some(m@[(left, right)])
        } else {
            None
        },
{
    m.get(&(left, right)).copied()
}

/// `HashMap::insert` on such a map: afterwards `(left, right)` maps to `value`
/// and every other key is as before.
#[verifier::external_body]
pub(crate) fn pair_insert<V>(
    m: &mut FxHashMap<(Token, Token), V>,
    left: Token,
    right: Token,
    value: V,
)
    ensures
        final(m)@ == old(m)@.insert((left, right), value),
{
    m.insert((left, right), value);
}

/// `HashMap::len` on the merge rules: the number of keys.
#[verifier::external_body]
pub(crate) fn pair_len(m: &FwdMap) -> (n: usize)
    ensures
        n == m@.dom().len(),
{
    m.len()
}

/// `HashMap::iter` on the merge rules, collected: every rule once, as
/// `(left, right, id)`, in the order in which the map is walked, of which
/// nothing is promised.
#[verifier::external_body]
pub(crate) fn pair_entries(m: &FwdMap) -> (v: Vec<(Token, Token, Token)>)
    ensures
        v@.no_duplicates(),
        forall|e: (Token, Token, Token)|
            v@.contains(e) <==> (m@.contains_key((e.0, e.1)) && m@[(e.0, e.1)] == e.2),
{
    m.iter().map(|(k, id)| (k.0, k.1, *id)).collect()
}

/// `HashMap::get` on the inverse table: the pair stored under `id`, if there is one.
#[verifier::external_body]
pub(crate) fn id_get(m: &BkwdMap, id: Token) -> (r: Option<(Token, Token)>)
    ensures
        r == if m@.contains_key(id) {
            Some(m@[id])
        } else {
            None
        },
{
    m.get(&id).copied()
}

/// `HashMap::iter` on the inverse table, collected: every entry once, as
/// `(id, left, right)`, in the order in which the map is walked, of which
/// nothing is promised.
#[verifier::external_body]
pub(crate) fn id_entries(m: &BkwdMap) -> (v: Vec<(Token, Token, Token)>)
    ensures
        v@.no_duplicates(),
        forall|e: (Token, Token, Token)|
            v@.contains(e) <==> (m@.contains_key(e.0) && m@[e.0] == (e.1, e.2)),
{
    m.iter().map(|(id, pair)| (*id, pair.0, pair.1)).collect()
}

/// `HashMap::insert` on the inverse table: afterwards `id` maps to `pair` and
/// every other key is as before.
#[verifier::external_body]
pub(crate) fn id_insert(m: &mut BkwdMap, id: Token, pair: (Token, Token))
    ensures
        final(m)@ == old(m)@.insert(id, pair),
{
    m.insert(id, pair);
}

} // verus!
