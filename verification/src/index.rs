//! The archetype index: a hash map from a sorted component-type-id vector to
//! the position of the archetype storing that exact component set.
//!
//! The map itself comes from `bevy_utils` (a `std` `HashMap` with the `ahash`
//! hasher); verified code sees it only through the trusted wrappers below,
//! whose contracts speak of the uninterpreted contents `index_view`.

use vstd::prelude::*;

verus! {

/// `bevy_utils::HashMap` is `std`'s `HashMap` with the `ahash` hasher; the
/// hasher state type must be declared before the map can appear in fields.
#[verifier::external_type_specification]
#[verifier::external_body]
pub struct ExRandomState(ahash::RandomState);

/// The exec type of the archetype index map.
pub type IndexMap = bevy_utils::HashMap<Vec<u64>, usize>;

/// The contents of an archetype index map: which sorted type-id vector maps to
/// which archetype position. Named, not defined: only the trusted wrappers
/// below say how the map's operations act on it.
pub uninterp spec fn index_view(m: IndexMap) -> Map<Seq<u64>, usize>;

/// The contents of a map with no entries.
pub open spec fn index_empty() -> Map<Seq<u64>, usize> {
    Map::empty()
}

/// Relies on `HashMap::default`: a freshly built map is empty.
#[verifier::external_body]
pub(crate) fn index_new() -> (r: IndexMap)
    ensures
        index_view(r) == index_empty(),
{
    bevy_utils::HashMap::default()
}

/// Relies on `HashMap::get`: returns the value the key maps to, if any.
/// `Vec<u64>` keys are compared element by element, so two keys with equal
/// views are the same key.
#[verifier::external_body]
pub(crate) fn index_get(m: &IndexMap, k: &Vec<u64>) -> (r: Option<usize>)
    ensures
        r == if index_view(*m).dom().contains(k@) {
            Some(index_view(*m)[k@])
        } else {
            None::<usize>
        },
{
    m.get(k).copied()
}

/// Relies on `HashMap::insert`: after the call the key maps to the value and
/// every other key is untouched.
#[verifier::external_body]
pub(crate) fn index_insert(m: &mut IndexMap, k: Vec<u64>, v: usize)
    ensures
        index_view(*final(m)) == index_view(*old(m)).insert(k@, v),
{
    m.insert(k, v);
}

} // verus!
