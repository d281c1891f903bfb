//! Entity handles: an opaque pair of slot id and generation.

use vstd::prelude::*;

verus! {

/// Lightweight handle to an entity: the `id` names a directory slot, the
/// `generation` tells recycled uses of that slot apart. Two handles denote the
/// same entity exactly when both fields match.
#[derive(Clone, Copy, PartialEq, Eq, Structural, Debug, Hash)]
pub struct Entity {
    /// Directory slot index.
    pub id: u32,
    /// Recycling counter of the slot at the time this handle was issued.
    pub generation: u32,
}

impl Entity {
    /// Pack an id and a generation into a handle.
    pub fn new(id: u32, generation: u32) -> (e: Entity)
        ensures
            e.id == id,
            e.generation == generation,
    {
        Entity { id, generation }
    }
}

} // verus!
