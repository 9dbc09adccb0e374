//! Hash collections keyed by arena slots.
//!
//! The scheduler keeps its sets and maps in `hashbrown` tables. Verus cannot
//! look inside them, so every item in this module is trusted: each contract
//! restates what the `hashbrown` documentation says of the method it calls,
//! over the mathematical contents of the table.
use vstd::prelude::*;

verus! {

/// A `hashbrown::HashSet<usize>` of arena slots.
#[verifier::external_body]
pub struct IdSet {
    inner: hashbrown::HashSet<usize>,
}

/// A `hashbrown::HashMap<usize, usize>` from arena slots to arena slots.
#[verifier::external_body]
pub struct IdMap {
    inner: hashbrown::HashMap<usize, usize>,
}

/// The slots held by an [`IdSet`].
pub uninterp spec fn id_set_contents(set: IdSet) -> Set<usize>;

/// The entries held by an [`IdMap`].
pub uninterp spec fn id_map_contents(map: IdMap) -> Map<usize, usize>;

/// `hashbrown::HashSet::new`: the new set holds nothing.
#[verifier::external_body]
pub(crate) fn id_set_new() -> (set: IdSet)
    ensures
        id_set_contents(set) == Set::<usize>::empty(),
{
    IdSet { inner: hashbrown::HashSet::new() }
}

/// `hashbrown::HashSet::contains`: whether the slot is in the set.
#[verifier::external_body]
pub(crate) fn id_set_contains(set: &IdSet, id: usize) -> (found: bool)
    ensures
        found == id_set_contents(*set).contains(id),
{
    set.inner.contains(&id)
}

/// `hashbrown::HashSet::insert`: adds the slot and returns whether it was
/// absent before.
#[verifier::external_body]
pub(crate) fn id_set_insert(set: &mut IdSet, id: usize) -> (fresh: bool)
    ensures
        id_set_contents(*final(set)) == id_set_contents(*old(set)).insert(id),
        fresh == !id_set_contents(*old(set)).contains(id),
{
    set.inner.insert(id)
}

/// `hashbrown::HashSet::remove`: takes the slot out and returns whether it
/// was present.
#[verifier::external_body]
pub(crate) fn id_set_remove(set: &mut IdSet, id: usize) -> (present: bool)
    ensures
        id_set_contents(*final(set)) == id_set_contents(*old(set)).remove(id),
        present == id_set_contents(*old(set)).contains(id),
{
    set.inner.remove(&id)
}

/// `hashbrown::HashSet::iter`: visits every slot of the set exactly once, in
/// an order that the table chooses. Nothing is claimed about that order.
#[verifier::external_body]
pub(crate) fn id_set_to_vec(set: &IdSet) -> (ids: Vec<usize>)
    ensures
        ids@.no_duplicates(),
        ids@.to_set() == id_set_contents(*set),
{
    set.inner.iter().copied().collect()
}

/// `hashbrown::HashMap::new`: the new map holds nothing.
#[verifier::external_body]
pub(crate) fn id_map_new() -> (map: IdMap)
    ensures
        id_map_contents(map).dom() == Set::<usize>::empty(),
{
    IdMap { inner: hashbrown::HashMap::new() }
}

/// `hashbrown::HashMap::get`: the value stored under the key, if any.
#[verifier::external_body]
pub(crate) fn id_map_get(map: &IdMap, key: usize) -> (value: Option<usize>)
    ensures
        value == if id_map_contents(*map).contains_key(key) {
            Some(id_map_contents(*map)[key])
        } else {
            None
        },
{
    map.inner.get(&key).copied()
}

/// `hashbrown::HashMap::insert`: stores the value under the key and returns
/// the value that was there before, if any.
#[verifier::external_body]
pub(crate) fn id_map_insert(map: &mut IdMap, key: usize, value: usize) -> (previous: Option<usize>)
    ensures
        id_map_contents(*final(map)) == id_map_contents(*old(map)).insert(key, value),
        previous == if id_map_contents(*old(map)).contains_key(key) {
            Some(id_map_contents(*old(map))[key])
        } else {
            None
        },
{
    map.inner.insert(key, value)
}

/// `hashbrown::HashMap::remove`: takes the key out and returns the value that
/// was stored under it, if any.
#[verifier::external_body]
pub(crate) fn id_map_remove(map: &mut IdMap, key: usize) -> (previous: Option<usize>)
    ensures
        id_map_contents(*final(map)) == id_map_contents(*old(map)).remove(key),
        previous == if id_map_contents(*old(map)).contains_key(key) {
            Some(id_map_contents(*old(map))[key])
        } else {
            None
        },
{
    map.inner.remove(&key)
}

} // verus!
