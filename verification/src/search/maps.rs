//! The two concurrent maps of a generation: from state keys to nodes, and
//! from nodes to their parents.

use dashmap::DashMap;
use smallvec::SmallVec;
use vstd::prelude::*;

verus! {

/// The place of a node, as the pair of its shelf and its slot.
pub type Slot = (usize, usize);

/// The key of a state: the ten columns of its board, then the number that
/// packs the rest.
pub type StateKey = [u64; 11];

/// The map type of the `dashmap` crate, whose inside stays hidden.
#[verifier::external_type_specification]
#[verifier::external_body]
#[verifier::reject_recursive_types(K)]
#[verifier::reject_recursive_types(V)]
#[verifier::reject_recursive_types(S)]
pub struct ExDashMap<K, V, S>(DashMap<K, V, S>);

/// The map from state keys to the places of nodes.
pub type LookupMap = DashMap<StateKey, Slot>;

/// What a lookup map holds: for each key, as the sequence of its eleven
/// numbers, the place stored under it.
pub uninterp spec fn lookup_entries(m: LookupMap) -> Map<Seq<u64>, Slot>;

/// The map without entries.
pub open spec fn no_entries() -> Map<Seq<u64>, Slot> {
    Map::empty()
}

/// An empty lookup map.
///
/// Calls `DashMap::new`, which makes a map without entries.
#[verifier::external_body]
pub(crate) fn lookup_new() -> (m: LookupMap)
    ensures
        lookup_entries(m) == no_entries(),
{
    DashMap::new()
}

/// The place stored under a key, if there is one.
///
/// Calls `DashMap::get`, which hands out a reference to the entry of the key
/// or nothing if the map has no such entry; the value is copied out of it.
#[verifier::external_body]
pub(crate) fn lookup_get(m: &LookupMap, key: &StateKey) -> (r: Option<Slot>)
    ensures
        r == (if lookup_entries(*m).contains_key(key@) {
            Some(lookup_entries(*m)[key@])
        } else {
            None
        }),
{
    m.get(key).map(|e| *e.value())
}

/// Stores a place under a key, in place of what was stored there.
///
/// Calls `DashMap::insert`, which inserts the key and the value and replaces
/// the value of an entry that the key had.
#[verifier::external_body]
pub(crate) fn lookup_insert(m: &mut LookupMap, key: StateKey, value: Slot)
    ensures
        lookup_entries(*final(m)) == lookup_entries(*old(m)).insert(key@, value),
{
    m.insert(key, value);
}

/// The map from the places of nodes to the places of their parents: a
/// `DashMap` whose values are `SmallVec`s of three inline places.
#[verifier::external_body]
pub struct ParentMap {
    inner: DashMap<Slot, SmallVec<[Slot; 3]>>,
}

/// What a parent map holds: for each place with an entry, the places of the
/// parents in the order in which they were added.
pub uninterp spec fn parent_entries(m: ParentMap) -> Map<Slot, Seq<Slot>>;

/// The parent map without entries.
pub open spec fn no_parents() -> Map<Slot, Seq<Slot>> {
    Map::empty()
}

/// An empty parent map.
///
/// Calls `DashMap::new`, which makes a map without entries.
#[verifier::external_body]
pub(crate) fn parents_new() -> (m: ParentMap)
    ensures
        parent_entries(m) == no_parents(),
{
    ParentMap { inner: DashMap::new() }
}

/// The parents stored for a node, if the node has an entry.
///
/// Calls `DashMap::get`, which hands out a reference to the entry of the key
/// or nothing, and `SmallVec::to_vec`, which copies the items of the vector
/// found into a `Vec`.
#[verifier::external_body]
pub(crate) fn parents_of(m: &ParentMap, child: Slot) -> (r: Option<Vec<Slot>>)
    ensures
        r is Some <==> parent_entries(*m).contains_key(child),
        r matches Some(v) ==> v@ == parent_entries(*m)[child],
{
    m.inner.get(&child).map(|e| e.value().to_vec())
}

/// Gives a node an entry without parents, in place of an entry it had.
///
/// Calls `SmallVec::new`, which makes an empty vector, and `DashMap::insert`,
/// which inserts the key and the value and replaces the value of an entry
/// that the key had.
#[verifier::external_body]
pub(crate) fn parents_begin(m: &mut ParentMap, child: Slot)
    ensures
        parent_entries(*final(m)) == parent_entries(*old(m)).insert(child, Seq::empty()),
{
    m.inner.insert(child, SmallVec::new());
}

/// Adds a parent to the entry of a node.
///
/// Calls `DashMap::get_mut`, which hands out a mutable reference to the entry
/// of the key, and `SmallVec::push`, which appends an item. The node must
/// have an entry, since the reference is unwrapped.
#[verifier::external_body]
pub(crate) fn parents_add(m: &mut ParentMap, child: Slot, parent: Slot)
    requires
        parent_entries(*old(m)).contains_key(child),
    ensures
        parent_entries(*final(m)) == parent_entries(*old(m)).insert(
            child,
            parent_entries(*old(m))[child].push(parent),
        ),
{
    m.inner.get_mut(&child).unwrap().push(parent);
}

} // verus!
