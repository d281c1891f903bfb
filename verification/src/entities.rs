//! The entity directory: slots mapping entity ids to archetype locations.
//!
//! Each slot carries a generation; a handle is live only while its generation
//! matches its slot's. Freeing a slot bumps the generation, so stale handles
//! are rejected, and pushes the id onto a free list for recycling.

use vstd::prelude::*;

use crate::entity::Entity;

verus! {

/// Where a live entity's data lives: which archetype, and which row in it.
#[derive(Clone, Copy, PartialEq, Eq, Structural, Debug)]
pub struct Location {
    /// Position of the archetype in the world's archetype list.
    pub archetype: usize,
    /// Row inside that archetype.
    pub index: usize,
}

/// One directory slot.
#[derive(Clone, Copy)]
pub struct Slot {
    /// Generation a handle must carry to address this slot.
    pub generation: u32,
    /// Whether an entity currently occupies the slot.
    pub live: bool,
    /// The occupying entity's location (meaningful while `live`).
    pub location: Location,
}

/// The directory of all entity slots plus the free list of dead slot ids.
pub struct Entities {
    /// Slot per ever-issued entity id.
    pub slots: Vec<Slot>,
    /// Ids of dead slots available for recycling.
    pub free: Vec<u32>,
}

impl Entities {
    /// Number of slots ever issued.
    pub open spec fn n_slots(self) -> int {
        self.slots@.len() as int
    }

    /// The slot of an id.
    pub open spec fn slot(self, id: int) -> Slot {
        self.slots@[id]
    }

    /// Whether the handle addresses a live slot of matching generation.
    pub open spec fn live(self, e: Entity) -> bool {
        &&& (e.id as int) < self.n_slots()
        &&& self.slot(e.id as int).live
        &&& self.slot(e.id as int).generation == e.generation
    }

    /// Whether the slot of `id` is occupied.
    pub open spec fn id_live(self, id: int) -> bool {
        0 <= id < self.n_slots() && self.slot(id).live
    }

    /// The location recorded for `id`.
    pub open spec fn loc(self, id: int) -> Location {
        self.slot(id).location
    }

    /// Free-list sanity: every free id names a dead slot, and no id twice.
    pub open spec fn wf(self) -> bool {
        &&& self.slots@.len() <= u32::MAX as int
        &&& forall|k: int|
            0 <= k < self.free@.len() ==> (#[trigger] self.free@[k]) < self.slots@.len()
                && !self.slot(self.free@[k] as int).live
        &&& forall|k1: int, k2: int|
            0 <= k1 < k2 < self.free@.len() ==> self.free@[k1] != self.free@[k2]
    }

    /// A fresh id can be minted: a dead slot waits, or the id space has room.
    pub open spec fn can_alloc(self) -> bool {
        self.free@.len() > 0 || self.n_slots() < u32::MAX as int
    }

    /// An empty directory.
    pub fn new() -> (r: Entities)
        ensures
            r.wf(),
            r.n_slots() == 0,
            r.free@.len() == 0,
            forall|e: Entity| !r.live(e),
    {
        Entities { slots: Vec::new(), free: Vec::new() }
    }

    /// Mint a live entity recorded at `location`, recycling a dead slot if
    /// one waits, else issuing a fresh id.
    pub fn allocate(&mut self, location: Location) -> (e: Entity)
        requires
            old(self).wf(),
            old(self).can_alloc(),
        ensures
            final(self).wf(),
            !old(self).live(e),
            !old(self).id_live(e.id as int),
            final(self).live(e),
            final(self).loc(e.id as int) == location,
            old(self).n_slots() <= final(self).n_slots() <= old(self).n_slots() + 1,
            e.id as int <= old(self).n_slots(),
            final(self).n_slots() == old(self).n_slots() + 1 ==> e.id as int == old(
                self,
            ).n_slots(),
            forall|id: int|
                0 <= id < old(self).n_slots() && id != e.id as int ==> final(self).slot(id) == old(
                    self,
                ).slot(id),
            forall|id: int|
                0 <= id < old(self).n_slots() ==> final(self).slot(id).generation == old(
                    self,
                ).slot(id).generation,
            forall|e2: Entity| e2 != e ==> (final(self).live(e2) <==> old(self).live(e2)),
    {
        let popped = self.free.pop();
        match popped {
            Some(id) => {
                proof {
                    let n = old(self).free@.len() as int;
                    assert(old(self).free@[n - 1] == id);
                    assert((id as int) < old(self).n_slots() && !old(self).slot(id as int).live);
                }
                let g = self.slots[id as usize].generation;
                let s = &mut self.slots[id as usize];
                s.live = true;
                s.location = location;
                let e = Entity { id, generation: g };
                proof {
                    assert forall|k: int| 0 <= k < self.free@.len() implies (
                    #[trigger] self.free@[k]) < self.slots@.len() && !self.slot(
                        self.free@[k] as int,
                    ).live by {
                        assert(self.free@[k] == old(self).free@[k]);
                        assert(old(self).free@[k] != id);
                    }
                    assert forall|e2: Entity| e2 != e implies (self.live(e2) <==> old(
                        self,
                    ).live(e2)) by {
                        if e2.id == e.id {
                            assert(!old(self).slot(e2.id as int).live);
                        }
                    }
                }
                e
            },
            None => {
                let id = self.slots.len() as u32;
                let e = Entity { id, generation: 0 };
                self.slots.push(Slot { generation: 0, live: true, location });
                proof {
                    assert forall|e2: Entity| e2 != e implies (self.live(e2) <==> old(
                        self,
                    ).live(e2)) by {
                        if e2.id == e.id {
                            assert((e2.id as int) >= old(self).n_slots());
                        }
                    }
                }
                e
            },
        }
    }

    /// Seat a caller-provided handle: its id must name a dead slot or the
    /// next fresh one. The slot takes the handle's generation.
    pub fn adopt(&mut self, e: Entity, location: Location)
        requires
            old(self).wf(),
            !old(self).id_live(e.id as int),
            e.id as int <= old(self).n_slots(),
            e.id < u32::MAX,
        ensures
            final(self).wf(),
            final(self).live(e),
            final(self).loc(e.id as int) == location,
            final(self).slot(e.id as int).generation == e.generation,
            old(self).n_slots() <= final(self).n_slots() <= old(self).n_slots() + 1,
            final(self).n_slots() == old(self).n_slots() + 1 ==> e.id as int == old(
                self,
            ).n_slots(),
            forall|id: int|
                0 <= id < old(self).n_slots() && id != e.id as int ==> final(self).slot(id) == old(
                    self,
                ).slot(id),
            forall|e2: Entity| e2 != e ==> (final(self).live(e2) <==> old(self).live(e2)),
    {
        if (e.id as usize) < self.slots.len() {
            // scrub the id from the free list before the slot goes live
            let n = self.free.len();
            let mut k: usize = 0;
            let mut found: Option<usize> = None;
            while k < n
                invariant
                    k <= n,
                    n == self.free@.len(),
                    self.free@ == old(self).free@,
                    match found {
                        Some(fi) => fi < n && self.free@[fi as int] == e.id,
                        None => forall|j: int| 0 <= j < k ==> self.free@[j] != e.id,
                    },
                decreases n - k,
            {
                if self.free[k] == e.id {
                    found = Some(k);
                }
                k += 1;
            }
            let ghost free0 = self.free@;
            match found {
                Some(fi) => {
                    self.free.swap_remove(fi);
                    proof {
                        let last = free0[free0.len() - 1];
                        assert forall|j1: int, j2: int|
                            0 <= j1 < j2 < self.free@.len() implies self.free@[j1]
                            != self.free@[j2] by {
                            assert(self.free@[j1] == free0[j1] || self.free@[j1] == last);
                            assert(self.free@[j2] == free0[j2] || self.free@[j2] == last);
                        }
                        assert forall|j: int| 0 <= j < self.free@.len() implies self.free@[j]
                            != e.id by {
                            if self.free@[j] == e.id {
                                if j == fi as int {
                                    assert(last == e.id);
                                    assert(free0[fi as int] == e.id);
                                } else {
                                    assert(free0[j] == e.id);
                                    assert(free0[fi as int] == e.id);
                                }
                            }
                        }
                    }
                },
                None => {
                    proof {
                        assert(forall|j: int|
                            0 <= j < self.free@.len() ==> self.free@[j] != e.id);
                    }
                },
            }
            let sm = &mut self.slots[e.id as usize];
            sm.live = true;
            sm.generation = e.generation;
            sm.location = location;
            proof {
                assert forall|k2: int| 0 <= k2 < self.free@.len() implies (
                #[trigger] self.free@[k2]) < self.slots@.len() && !self.slot(
                    self.free@[k2] as int,
                ).live by {
                    assert(self.free@[k2] != e.id);
                    assert(old(self).free@.contains(self.free@[k2]) || self.free@.len()
                        == old(self).free@.len()) by {
                        if self.free@.len() != old(self).free@.len() {
                            let last = free0[free0.len() - 1];
                            assert(self.free@[k2] == free0[k2] || self.free@[k2] == last);
                        }
                    }
                    if self.free@.len() == old(self).free@.len() {
                        assert(self.free@[k2] == old(self).free@[k2]);
                        assert(!old(self).slot(self.free@[k2] as int).live);
                    } else {
                        let x = self.free@[k2];
                        let j = choose|j: int|
                            0 <= j < old(self).free@.len() && old(self).free@[j] == x;
                        assert(!old(self).slot(x as int).live);
                    }
                }
                assert forall|e2: Entity| e2 != e implies (self.live(e2) <==> old(self).live(
                    e2,
                )) by {
                    if e2.id == e.id {
                        assert(!old(self).slot(e2.id as int).live);
                        if self.live(e2) {
                            assert(e2.generation == e.generation);
                        }
                    }
                }
            }
        } else {
            self.slots.push(Slot { generation: e.generation, live: true, location });
            proof {
                assert forall|e2: Entity| e2 != e implies (self.live(e2) <==> old(self).live(
                    e2,
                )) by {
                    if e2.id == e.id {
                        assert((e2.id as int) >= old(self).n_slots());
                        if self.live(e2) {
                            assert(e2.generation == e.generation);
                        }
                    }
                }
            }
        }
    }

    /// Next generation for a recycled slot; always differs from the old one.
    fn bump(g: u32) -> (r: u32)
        ensures
            r != g,
    {
        if g == u32::MAX {
            0
        } else {
            g + 1
        }
    }

    /// Free the handle's slot: its location is handed back, the generation is
    /// bumped, and the id joins the free list. A stale or unknown handle gives
    /// `None` and changes nothing.
    pub fn free_entity(&mut self, e: Entity) -> (r: Option<Location>)
        requires
            old(self).wf(),
        ensures
            final(self).wf(),
            r == if old(self).live(e) {
                Some(old(self).loc(e.id as int))
            } else {
                None::<Location>
            },
            !old(self).live(e) ==> *final(self) == *old(self),
            old(self).live(e) ==> {
                &&& final(self).n_slots() == old(self).n_slots()
                &&& final(self).free@ == old(self).free@.push(e.id)
                &&& !final(self).slot(e.id as int).live
                &&& final(self).slot(e.id as int).generation != e.generation
                &&& forall|id: int|
                    0 <= id < old(self).n_slots() && id != e.id as int ==> final(self).slot(id)
                        == old(self).slot(id)
                &&& forall|e2: Entity| e2.id != e.id ==> (final(self).live(e2) <==> old(
                    self,
                ).live(e2))
                &&& forall|e2: Entity| e2.id == e.id ==> !final(self).live(e2)
            },
    {
        if (e.id as usize) < self.slots.len() {
            let s = self.slots[e.id as usize];
            if s.live && s.generation == e.generation {
                let g2 = Self::bump(e.generation);
                let sm = &mut self.slots[e.id as usize];
                sm.live = false;
                sm.generation = g2;
                proof {
                    if old(self).free@.contains(e.id) {
                        let k = choose|k: int|
                            0 <= k < old(self).free@.len() && old(self).free@[k] == e.id;
                        assert(!old(self).slot(e.id as int).live);
                        assert(false);
                    }
                }
                self.free.push(e.id);
                proof {
                    let nf = self.free@.len() as int;
                    assert forall|k1: int, k2: int|
                        0 <= k1 < k2 < nf implies self.free@[k1] != self.free@[k2] by {
                        if k2 == nf - 1 {
                            assert(self.free@[k1] == old(self).free@[k1]);
                            assert(!old(self).free@.contains(e.id));
                            assert(old(self).free@[k1] != e.id);
                        }
                    }
                }
                return Some(s.location);
            }
        }
        None
    }

    /// The location of a live handle; `None` for a stale or unknown one.
    pub fn get_location(&self, e: Entity) -> (r: Option<Location>)
        ensures
            r == if self.live(e) {
                Some(self.loc(e.id as int))
            } else {
                None::<Location>
            },
    {
        if (e.id as usize) < self.slots.len() {
            let s = self.slots[e.id as usize];
            if s.live && s.generation == e.generation {
                return Some(s.location);
            }
        }
        None
    }

    /// Whether the handle is live.
    pub fn contains(&self, e: Entity) -> (r: bool)
        ensures
            r == self.live(e),
    {
        if (e.id as usize) < self.slots.len() {
            let s = self.slots[e.id as usize];
            s.live && s.generation == e.generation
        } else {
            false
        }
    }

    /// Record a new location for a live handle.
    pub fn set_location(&mut self, e: Entity, location: Location)
        requires
            old(self).wf(),
            old(self).live(e),
        ensures
            final(self).wf(),
            final(self).n_slots() == old(self).n_slots(),
            final(self).loc(e.id as int) == location,
            final(self).slot(e.id as int).live == old(self).slot(e.id as int).live,
            final(self).slot(e.id as int).generation == old(self).slot(e.id as int).generation,
            final(self).free@ == old(self).free@,
            forall|id: int|
                0 <= id < old(self).n_slots() && id != e.id as int ==> final(self).slot(id) == old(
                    self,
                ).slot(id),
            forall|e2: Entity| final(self).live(e2) <==> old(self).live(e2),
    {
        let s = &mut self.slots[e.id as usize];
        s.location = location;
    }

    /// Record a new row for the (live) slot of a bare id: used when a swap
    /// moved that entity's row inside its archetype.
    pub fn fix_row(&mut self, id: u32, row: usize)
        requires
            old(self).wf(),
            old(self).id_live(id as int),
        ensures
            final(self).wf(),
            final(self).n_slots() == old(self).n_slots(),
            final(self).loc(id as int).index == row,
            final(self).loc(id as int).archetype == old(self).loc(id as int).archetype,
            final(self).slot(id as int).live == old(self).slot(id as int).live,
            final(self).slot(id as int).generation == old(self).slot(id as int).generation,
            final(self).free@ == old(self).free@,
            forall|id2: int|
                0 <= id2 < old(self).n_slots() && id2 != id as int ==> final(self).slot(id2)
                    == old(self).slot(id2),
            forall|e2: Entity| final(self).live(e2) <==> old(self).live(e2),
    {
        let s = &mut self.slots[id as usize];
        let a = s.location.archetype;
        s.location = Location { archetype: a, index: row };
    }

    /// Kill every slot: each live slot's generation is bumped, and every id
    /// joins the free list.
    pub fn clear(&mut self)
        requires
            old(self).wf(),
        ensures
            final(self).wf(),
            final(self).n_slots() == old(self).n_slots(),
            forall|id: int| 0 <= id < final(self).n_slots() ==> !final(self).slot(id).live,
            forall|e2: Entity| !final(self).live(e2),
    {
        let n = self.slots.len();
        let mut free: Vec<u32> = Vec::new();
        let mut i: usize = 0;
        while i < n
            invariant
                i <= n,
                n == self.slots@.len(),
                n <= u32::MAX as int,
                free@.len() == i,
                forall|k: int| 0 <= k < i ==> (#[trigger] free@[k]) == k as u32,
                forall|id: int| 0 <= id < i ==> !(#[trigger] self.slots@[id]).live,
            decreases n - i,
        {
            let s = self.slots[i];
            let g2 = if s.live {
                Self::bump(s.generation)
            } else {
                s.generation
            };
            let sm = &mut self.slots[i];
            sm.live = false;
            sm.generation = g2;
            free.push(i as u32);
            i += 1;
        }
        self.free = free;
    }
}

} // verus!
