//! The search's table of discovered states: an insertion-ordered hash map from a
//! state key to its parent's index and its cost, so that states have stable
//! indices for parent links.

use vstd::prelude::*;
use indexmap::IndexMap;
use rustc_hash::FxBuildHasher;

verus! {

#[verifier::external_type_specification]
#[verifier::external_body]
#[verifier::reject_recursive_types(K)]
#[verifier::reject_recursive_types(V)]
#[verifier::reject_recursive_types(S)]
pub struct ExIndexMap<K, V, S>(IndexMap<K, V, S>);

#[verifier::external_type_specification]
#[verifier::external_body]
pub struct ExFxBuildHasher(FxBuildHasher);

/// A search state: cell `x`, cell `y`, and the code of the direction it was entered by.
pub type StateKey = (u32, u32, u8);

/// The index of a state's parent, and the cost of reaching the state.
pub type ParentLink = (usize, u64);

/// The table type.
pub type ParentMap = IndexMap<StateKey, ParentLink, FxBuildHasher>;

/// What the table holds, in insertion order.
pub uninterp spec fn parent_entries(m: ParentMap) -> Seq<(StateKey, ParentLink)>;

/// Whether `k` is a key of `entries`.
pub open spec fn has_key(entries: Seq<(StateKey, ParentLink)>, k: StateKey) -> bool {
    exists|j: int| 0 <= j < entries.len() && (#[trigger] entries[j]).0 == k
}

/// Relies on `IndexMap::default`: an empty map.
#[verifier::external_body]
pub(crate) fn parents_new() -> (r: ParentMap)
    ensures
        parent_entries(r) == Seq::<(StateKey, ParentLink)>::empty(),
{
    IndexMap::default()
}

/// Relies on `IndexMap::get_index`: the entry at position `i`, if `i` is below the length.
#[verifier::external_body]
pub(crate) fn parents_get_index(m: &ParentMap, i: usize) -> (r: Option<(StateKey, ParentLink)>)
    ensures
        r == (if i < parent_entries(*m).len() {
            Some(parent_entries(*m)[i as int])
        } else {
            None
        }),
{
    m.get_index(i).map(|(k, v)| (*k, *v))
}

/// Relies on `IndexMap::get_index_of`: the position of key `k`, or `None` where it is absent.
#[verifier::external_body]
pub(crate) fn parents_get_index_of(m: &ParentMap, k: StateKey) -> (r: Option<usize>)
    ensures
        match r {
            Some(i) => i < parent_entries(*m).len() && parent_entries(*m)[i as int].0 == k,
            None => !has_key(parent_entries(*m), k),
        },
{
    m.get_index_of(&k)
}

/// Relies on `IndexMap::insert_full`: a present key keeps its position and takes the new
/// value, and the old value is returned; an absent key is appended.
#[verifier::external_body]
pub(crate) fn parents_insert_full(m: &mut ParentMap, k: StateKey, v: ParentLink) -> (r: (
    usize,
    Option<ParentLink>,
))
    ensures
        match r.1 {
            Some(o) => {
                &&& r.0 < parent_entries(*old(m)).len()
                &&& parent_entries(*old(m))[r.0 as int] == (k, o)
                &&& parent_entries(*final(m)) == parent_entries(*old(m)).update(r.0 as int, (k, v))
            },
            None => {
                &&& !has_key(parent_entries(*old(m)), k)
                &&& r.0 == parent_entries(*old(m)).len()
                &&& parent_entries(*final(m)) == parent_entries(*old(m)).push((k, v))
            },
        },
{
    m.insert_full(k, v)
}

} // verus!
