//! The world: owner of every archetype and of the entity directory.
//!
//! Operations route through the directory to the owning archetype, migrate
//! rows between archetypes when an entity's component set changes, and keep a
//! per-type log of entities whose components were removed.

use vstd::prelude::*;

use crate::archetype::Archetype;
use crate::entities::{Entities, Location};
use crate::entity::Entity;
use crate::index::{index_get, index_insert, index_new, index_view, IndexMap};
use crate::types::{
    bundle_has_id, bundle_id_set, bundle_wf, copy_vec, has_id, id_set, ids_of,
    ids_vec, infos_of,
    infos_vec, lemma_has_id_ids_of, lemma_same_id_set_same_ids, sort_bundle, strictly_sorted,
    Component, TypeInfo,
};

verus! {

/// The entity addressed by an operation is unknown or already despawned.
#[derive(Clone, Copy, PartialEq, Eq, Structural, Debug)]
pub struct NoSuchEntity;

/// Errors that arise when accessing components.
#[derive(Clone, Copy, PartialEq, Eq, Structural, Debug)]
pub enum ComponentError {
    /// The entity was already despawned.
    NoSuchEntity,
    /// The entity does not have the component type with this id.
    MissingComponent(u64),
}

/// A removal log: for each type id, the entities a component of that type was
/// removed from since the trackers were last cleared.
pub type RemovedLog = Vec<(u64, Vec<Entity>)>;

/// Whether the log holds an entry for type id `t`.
pub open spec fn log_has(log: Seq<(u64, Vec<Entity>)>, t: u64) -> bool {
    exists|i: int| 0 <= i < log.len() && log[i].0 == t
}

/// The position of the entry for `t` (meaningful when `log_has`).
pub open spec fn log_ix(log: Seq<(u64, Vec<Entity>)>, t: u64) -> int {
    choose|i: int| 0 <= i < log.len() && log[i].0 == t
}

/// The entities logged as having lost a component of type `t`.
pub open spec fn log_get(log: Seq<(u64, Vec<Entity>)>, t: u64) -> Seq<Entity> {
    if log_has(log, t) {
        log[log_ix(log, t)].1@
    } else {
        Seq::empty()
    }
}

/// `pre` is an unchanged initial segment of `post`.
pub open spec fn seq_extends(post: Seq<Entity>, pre: Seq<Entity>) -> bool {
    pre.len() <= post.len() && forall|i: int| 0 <= i < pre.len() ==> post[i] == pre[i]
}

/// No type id keys two entries of the log.
pub open spec fn log_keys_distinct(log: Seq<(u64, Vec<Entity>)>) -> bool {
    forall|i: int, j: int| 0 <= i < j < log.len() ==> log[i].0 != log[j].0
}

/// With distinct keys, any entry holding `t` is the entry of `t`.
proof fn lemma_log_ix(log: Seq<(u64, Vec<Entity>)>, t: u64)
    requires
        log_keys_distinct(log),
        log_has(log, t),
    ensures
        0 <= log_ix(log, t) < log.len(),
        log[log_ix(log, t)].0 == t,
        forall|i: int| 0 <= i < log.len() && log[i].0 == t ==> i == log_ix(log, t),
{
    let k = log_ix(log, t);
    assert(0 <= k < log.len() && log[k].0 == t);
    assert forall|i: int| 0 <= i < log.len() && log[i].0 == t implies i == k by {
        if i < k {
            assert(log[i].0 != log[k].0);
        } else if i > k {
            assert(log[k].0 != log[i].0);
        }
    }
}

/// Append an entity to the log entry of `t`, creating the entry if absent.
pub(crate) fn log_push(log: &mut RemovedLog, t: u64, e: Entity)
    requires
        log_keys_distinct(old(log)@),
    ensures
        log_keys_distinct(final(log)@),
        log_get(final(log)@, t) == log_get(old(log)@, t).push(e),
        forall|t2: u64| t2 != t ==> log_get(final(log)@, t2) == log_get(old(log)@, t2),
{
    let n = log.len();
    let mut i: usize = 0;
    while i < n
        invariant
            i <= n,
            n == log@.len(),
            log_keys_distinct(log@),
            log@ == old(log)@,
            forall|k: int| 0 <= k < i ==> log@[k].0 != t,
        decreases n - i,
    {
        if log[i].0 == t {
            proof {
                assert(log_has(log@, t));
                lemma_log_ix(log@, t);
                assert(log_ix(log@, t) == i as int);
            }
            let entry = &mut log[i];
            entry.1.push(e);
            proof {
                let new = log@;
                let old_log = old(log)@;
                assert(new.len() == old_log.len());
                assert(new[i as int].0 == t);
                assert(new[i as int].1@ == old_log[i as int].1@.push(e));
                assert(forall|k: int| 0 <= k < new.len() && k != i ==> new[k] == old_log[k]);
                assert(log_has(new, t));
                lemma_log_ix(new, t);
                assert(log_ix(new, t) == i as int);
                assert forall|t2: u64| t2 != t implies log_get(new, t2) == log_get(
                    old_log,
                    t2,
                ) by {
                    if log_has(new, t2) {
                        let k = log_ix(new, t2);
                        assert(new[k].0 == t2);
                        assert(k != i);
                        assert(old_log[k].0 == t2);
                        assert(log_has(old_log, t2));
                        lemma_log_ix(old_log, t2);
                        lemma_log_ix(new, t2);
                        assert(log_ix(old_log, t2) == k);
                    } else {
                        if log_has(old_log, t2) {
                            let k = log_ix(old_log, t2);
                            assert(old_log[k].0 == t2);
                            assert(k != i);
                            assert(new[k].0 == t2);
                            assert(log_has(new, t2));
                        }
                    }
                }
            }
            return ;
        }
        i += 1;
    }
    proof {
        if log_has(log@, t) {
            let k = log_ix(log@, t);
            assert(log@[k].0 == t);
            assert(false);
        }
    }
    let single: Vec<Entity> = vec![e];
    log.push((t, single));
    proof {
        let new = log@;
        let old_log = old(log)@;
        let m = new.len() - 1;
        assert(new[m].0 == t && new[m].1@ == Seq::<Entity>::empty().push(e));
        assert(forall|k: int| 0 <= k < m ==> new[k] == old_log[k]);
        assert forall|i2: int, j2: int| 0 <= i2 < j2 < new.len() implies new[i2].0 != new[j2].0 by {
            if j2 == m {
                assert(new[i2] == old_log[i2]);
                assert(old_log[i2].0 != t);
            }
        }
        assert(log_has(new, t));
        lemma_log_ix(new, t);
        assert(log_ix(new, t) == m);
        assert(log_get(new, t) == log_get(old_log, t).push(e)) by {
            assert(!log_has(old_log, t));
            assert(log_get(old_log, t) == Seq::<Entity>::empty());
        }
        assert forall|t2: u64| t2 != t implies log_get(new, t2) == log_get(old_log, t2) by {
            if log_has(new, t2) {
                let k = log_ix(new, t2);
                assert(new[k].0 == t2);
                assert(k != m);
                assert(old_log[k].0 == t2);
                assert(log_has(old_log, t2));
                lemma_log_ix(old_log, t2);
                lemma_log_ix(new, t2);
                assert(log_ix(old_log, t2) == k);
            } else if log_has(old_log, t2) {
                let k = log_ix(old_log, t2);
                assert(new[k].0 == t2);
                assert(log_has(new, t2));
            }
        }
    }
}

/// An unordered collection of entities, each having any number of distinctly
/// typed components, grouped by exact component set into archetypes.
pub struct World {
    /// The entity directory.
    pub entities: Entities,
    /// Sorted type-id vector to archetype position.
    pub index: IndexMap,
    /// Per type id: entities a component of that type was removed from.
    pub removed_components: RemovedLog,
    /// All archetypes; position 0 holds the empty component set.
    pub archetypes: Vec<Archetype>,
    /// Bumped whenever an archetype is created.
    pub archetype_generation: u64,
}

impl World {
    /// Number of archetypes.
    pub open spec fn n_archetypes(self) -> int {
        self.archetypes@.len() as int
    }

    /// The archetype at position `a`.
    pub open spec fn arch(self, a: int) -> Archetype {
        self.archetypes@[a]
    }

    /// Whether the handle addresses a live entity.
    pub open spec fn live(self, e: Entity) -> bool {
        self.entities.live(e)
    }

    /// The archetype position a live handle's data lives in.
    pub open spec fn arch_index_of(self, e: Entity) -> int {
        self.entities.loc(e.id as int).archetype as int
    }

    /// The row a live handle's data lives in.
    pub open spec fn row_of(self, e: Entity) -> int {
        self.entities.loc(e.id as int).index as int
    }

    /// The component set of a live entity, strictly sorted by type id.
    pub open spec fn types_of(self, e: Entity) -> Seq<TypeInfo> {
        self.arch(self.arch_index_of(e)).types_seq()
    }

    /// Whether a live entity has a component of type `t`.
    pub open spec fn has_component(self, e: Entity, t: u64) -> bool {
        self.live(e) && self.arch(self.arch_index_of(e)).has(t)
    }

    /// The bytes of the component of type `t` on entity `e`, if the entity is
    /// live and has one.
    pub open spec fn value(self, e: Entity, t: u64) -> Option<Seq<u8>> {
        if self.has_component(e, t) {
            let a = self.arch(self.arch_index_of(e));
            Some(a.cell(a.col_of(t), self.row_of(e)))
        } else {
            None
        }
    }

    /// The added-this-cycle bit of component `t` on entity `e`.
    pub open spec fn added_flag(self, e: Entity, t: u64) -> bool {
        &&& self.has_component(e, t)
        &&& {
            let a = self.arch(self.arch_index_of(e));
            a.added_bit(a.col_of(t), self.row_of(e))
        }
    }

    /// The mutated-this-cycle bit of component `t` on entity `e`.
    pub open spec fn mutated_flag(self, e: Entity, t: u64) -> bool {
        &&& self.has_component(e, t)
        &&& {
            let a = self.arch(self.arch_index_of(e));
            a.mutated_bit(a.col_of(t), self.row_of(e))
        }
    }

    /// The entities logged as having lost a component of type `t`.
    pub open spec fn removed_log(self, t: u64) -> Seq<Entity> {
        log_get(self.removed_components@, t)
    }

    /// Whether an archetype for exactly this id set exists.
    pub open spec fn has_archetype(self, ids: Set<u64>) -> bool {
        exists|a: int| 0 <= a < self.n_archetypes() && id_set(self.arch(a).types_seq()) == ids
    }

    /// Incoming type descriptions must agree with every description the world
    /// already stores for the same id: ids name types injectively.
    pub open spec fn types_consistent(self, ts: Seq<TypeInfo>) -> bool {
        forall|a: int, c: int, k: int|
            0 <= a < self.n_archetypes() && 0 <= c < self.arch(a).ncols() && 0 <= k < ts.len()
                && (#[trigger] self.arch(a).type_at(c)).id == (#[trigger] ts[k]).id ==> self.arch(
                a,
            ).type_at(c) == ts[k]
    }

    /// Every archetype is well formed.
    pub open spec fn inv_archetypes(self) -> bool {
        forall|a: int| 0 <= a < self.n_archetypes() ==> (#[trigger] self.arch(a)).wf()
    }

    /// The index maps exactly the archetypes' sorted id vectors, each to its
    /// position.
    pub open spec fn inv_index(self) -> bool {
        &&& forall|a: int|
            0 <= a < self.n_archetypes() ==> index_view(self.index).dom().contains(
                #[trigger] ids_of(self.arch(a).types_seq()),
            ) && index_view(self.index)[ids_of(self.arch(a).types_seq())] as int == a
        &&& forall|k: Seq<u64>|
            #[trigger] index_view(self.index).dom().contains(k) ==> {
                let a = index_view(self.index)[k] as int;
                0 <= a < self.n_archetypes() && ids_of(self.arch(a).types_seq()) == k
            }
    }

    /// Every live directory slot points at a valid row holding its own id.
    pub open spec fn inv_directory(self) -> bool {
        forall|id: int|
            #[trigger] self.entities.id_live(id) ==> (self.entities.loc(id).archetype as int)
                < self.n_archetypes() && (self.entities.loc(id).index as int) < self.arch(
                self.entities.loc(id).archetype as int,
            ).rows() && self.arch(self.entities.loc(id).archetype as int).entity_at(
                self.entities.loc(id).index as int,
            ) as int == id
    }

    /// Every row's entity id names a live slot pointing back at that row.
    pub open spec fn inv_rows(self) -> bool {
        forall|a: int, r: int|
            0 <= a < self.n_archetypes() && 0 <= r < self.arch(a).rows()
                ==> self.entities.id_live((#[trigger] self.arch(a).entity_at(r)) as int)
                && self.entities.loc(self.arch(a).entity_at(r) as int).archetype as int == a
                && self.entities.loc(self.arch(a).entity_at(r) as int).index as int == r
    }

    /// One id, one description: any two columns anywhere agreeing on the id
    /// agree on the whole description.
    pub open spec fn inv_global_types(self) -> bool {
        forall|a1: int, c1: int, a2: int, c2: int|
            0 <= a1 < self.n_archetypes() && 0 <= c1 < self.arch(a1).ncols() && 0 <= a2
                < self.n_archetypes() && 0 <= c2 < self.arch(a2).ncols() && (#[trigger] self.arch(
                a1,
            ).type_at(c1)).id == (#[trigger] self.arch(a2).type_at(c2)).id ==> self.arch(
                a1,
            ).type_at(c1) == self.arch(a2).type_at(c2)
    }

    /// The world invariant, holding before and after every operation.
    pub open spec fn wf(self) -> bool {
        &&& self.entities.wf()
        &&& self.n_archetypes() >= 1
        &&& self.arch(0).types_seq().len() == 0
        &&& self.inv_archetypes()
        &&& self.inv_index()
        &&& self.inv_directory()
        &&& self.inv_rows()
        &&& self.inv_global_types()
        &&& log_keys_distinct(self.removed_components@)
        &&& self.archetype_generation as int == self.n_archetypes() - 1
    }

    /// Create an empty world: no entities, one archetype for the empty
    /// component set, an empty removal log.
    pub fn new() -> (w: World)
        ensures
            w.wf(),
            w.archetype_generation == 0,
            w.n_archetypes() == 1,
            w.entities.n_slots() == 0,
            w.entities.free@.len() == 0,
            forall|e: Entity| !w.live(e),
            forall|t: u64| w.removed_log(t) == Seq::<Entity>::empty(),
            forall|ids: Set<u64>| w.has_archetype(ids) <==> ids == Set::<u64>::empty(),
    {
        let mut archetypes: Vec<Archetype> = Vec::new();
        let empty_types: Vec<TypeInfo> = Vec::new();
        archetypes.push(Archetype::new(empty_types));
        let mut index = index_new();
        let empty_key: Vec<u64> = Vec::new();
        index_insert(&mut index, empty_key, 0);
        let w = World {
            entities: Entities::new(),
            index,
            removed_components: Vec::new(),
            archetypes,
            archetype_generation: 0,
        };
        proof {
            assert(w.arch(0).types_seq().len() == 0);
            assert(ids_of(w.arch(0).types_seq()) =~= Seq::<u64>::empty());
            assert(index_view(w.index) == Map::<Seq<u64>, usize>::empty().insert(
                Seq::<u64>::empty(),
                0usize,
            ));
            assert(w.inv_index());
            assert forall|ids: Set<u64>| w.has_archetype(ids) <==> ids == Set::<u64>::empty() by {
                if w.has_archetype(ids) {
                    let a = choose|a: int|
                        0 <= a < w.n_archetypes() && id_set(w.arch(a).types_seq()) == ids;
                    assert(a == 0);
                    assert(id_set(w.arch(0).types_seq()) =~= Set::<u64>::empty());
                }
                if ids == Set::<u64>::empty() {
                    assert(id_set(w.arch(0).types_seq()) =~= Set::<u64>::empty());
                }
            }
        }
        w
    }

    /// Whether `entity` is (still) live.
    pub fn contains(&self, entity: Entity) -> (r: bool)
        ensures
            r == self.live(entity),
    {
        self.entities.contains(entity)
    }

    /// The value whose change indicates that the archetype list changed: it
    /// never decreases, and grows exactly when an archetype is created.
    pub fn archetypes_generation(&self) -> (r: ArchetypesGeneration)
        ensures
            r.0 == self.archetype_generation,
    {
        ArchetypesGeneration(self.archetype_generation)
    }

    /// The entity's current location, if it is live.
    pub fn get_entity_location(&self, entity: Entity) -> (r: Option<Location>)
        ensures
            r == if self.live(entity) {
                Some(self.entities.loc(entity.id as int))
            } else {
                None::<Location>
            },
    {
        self.entities.get_location(entity)
    }

    /// The archetype list, for external query planners: read-only.
    pub fn archetypes(&self) -> (r: &Vec<Archetype>)
        ensures
            r@ == self.archetypes@,
    {
        &self.archetypes
    }

    /// The entities a component of type `t` was removed from since the last
    /// `clear_trackers`.
    pub fn removed(&self, t: u64) -> (r: Vec<Entity>)
        requires
            self.wf(),
        ensures
            r@ == self.removed_log(t),
    {
        let n = self.removed_components.len();
        let mut i: usize = 0;
        while i < n
            invariant
                i <= n,
                n == self.removed_components@.len(),
                log_keys_distinct(self.removed_components@),
                forall|k: int| 0 <= k < i ==> self.removed_components@[k].0 != t,
            decreases n - i,
        {
            if self.removed_components[i].0 == t {
                proof {
                    assert(log_has(self.removed_components@, t));
                }
                let r = copy_vec(&self.removed_components[i].1);
                proof {
                    lemma_log_ix(self.removed_components@, t);
                    assert(log_ix(self.removed_components@, t) == i as int);
                }
                return r;
            }
            i += 1;
        }
        proof {
            if log_has(self.removed_components@, t) {
                let k = log_ix(self.removed_components@, t);
                assert(self.removed_components@[k].0 == t);
                assert(false);
            }
        }
        Vec::new()
    }
}

impl World {
    /// Look up the archetype storing exactly this sorted component set,
    /// creating it (and bumping the generation) if the set is new.
    fn ensure_archetype(&mut self, infos: Vec<TypeInfo>) -> (a: usize)
        requires
            old(self).wf(),
            strictly_sorted(infos@),
            old(self).types_consistent(infos@),
        ensures
            final(self).wf(),
            (a as int) < final(self).n_archetypes(),
            final(self).arch(a as int).types_seq() == infos@,
            final(self).entities == old(self).entities,
            final(self).removed_components == old(self).removed_components,
            old(self).has_archetype(id_set(infos@)) ==> *final(self) == *old(self),
            !old(self).has_archetype(id_set(infos@)) ==> final(self).n_archetypes() == old(self).n_archetypes() + 1 && a as int == old(self).n_archetypes() && final(self).arch(
                a as int,
            ).rows() == 0,
            forall|a2: int|
                0 <= a2 < old(self).n_archetypes() ==> final(self).arch(a2) == old(self).arch(a2),
            final(self).archetype_generation as int == old(self).archetype_generation as int + (
            if old(self).has_archetype(id_set(infos@)) {
                0int
            } else {
                1int
            }),
            forall|ids: Set<u64>|
                final(self).has_archetype(ids) <==> old(self).has_archetype(ids) || ids == id_set(
                    infos@,
                ),
    {
        let ghost iv0 = infos@;
        let key = ids_vec(&infos);
        let found = index_get(&self.index, &key);
        match found {
            Some(a) => {
                proof {
                    assert(index_view(self.index).dom().contains(ids_of(iv0)));
                    assert(0 <= (a as int) && (a as int) < self.n_archetypes());
                    let ts = self.arch(a as int).types_seq();
                    assert(ids_of(ts) == ids_of(iv0));
                    assert(ts.len() == iv0.len()) by {
                        assert(ids_of(ts).len() == ts.len());
                        assert(ids_of(iv0).len() == iv0.len());
                    }
                    assert forall|c: int| 0 <= c < ts.len() implies ts[c] == iv0[c] by {
                        assert(ids_of(ts)[c] == ts[c].id);
                        assert(ids_of(iv0)[c] == iv0[c].id);
                        assert(self.arch(a as int).type_at(c) == ts[c]);
                        assert(self.arch(a as int).type_at(c).id == iv0[c].id);
                    }
                    assert(ts =~= iv0);
                    assert(id_set(ts) =~= id_set(iv0));
                    assert(old(self).has_archetype(id_set(iv0)));
                    assert forall|ids: Set<u64>|
                        self.has_archetype(ids) <==> old(self).has_archetype(ids) || ids
                            == id_set(iv0) by {
                        if ids == id_set(iv0) {
                            assert(old(self).has_archetype(ids));
                        }
                    }
                }
                a
            },
            None => {
                let a = self.archetypes.len();
                proof {
                    if old(self).has_archetype(id_set(iv0)) {
                        let a2 = choose|a2: int|
                            0 <= a2 < old(self).n_archetypes() && id_set(
                                old(self).arch(a2).types_seq(),
                            ) == id_set(iv0);
                        assert(old(self).arch(a2).wf());
                        lemma_same_id_set_same_ids(old(self).arch(a2).types_seq(), iv0);
                        assert(index_view(self.index).dom().contains(
                            ids_of(old(self).arch(a2).types_seq()),
                        ));
                        assert(false);
                    }
                    assert(a == self.archetypes@.len());
                    assert(usize::MAX as int <= u64::MAX as int);
                }
                let new_arch = Archetype::new(infos);
                self.archetypes.push(new_arch);
                index_insert(&mut self.index, key, a);
                self.archetype_generation = self.archetype_generation + 1;
                proof {
                    let w = *self;
                    let n0 = old(self).n_archetypes();
                    assert(w.n_archetypes() == n0 + 1);
                    assert(w.arch(n0).types_seq() == iv0);
                    assert(forall|a2: int| 0 <= a2 < n0 ==> w.arch(a2) == old(self).arch(a2));
                    assert(index_view(w.index) == index_view(old(self).index).insert(
                        ids_of(iv0),
                        a,
                    ));
                    // the index invariant
                    assert forall|a2: int|
                        0 <= a2 < w.n_archetypes() implies index_view(w.index).dom().contains(
                        #[trigger] ids_of(w.arch(a2).types_seq()),
                    ) && index_view(w.index)[ids_of(w.arch(a2).types_seq())] as int == a2 by {
                        if a2 < n0 {
                            assert(ids_of(w.arch(a2).types_seq()) == ids_of(
                                old(self).arch(a2).types_seq(),
                            ));
                            assert(index_view(old(self).index).dom().contains(
                                ids_of(old(self).arch(a2).types_seq()),
                            ));
                            assert(ids_of(old(self).arch(a2).types_seq()) != ids_of(iv0));
                        } else {
                            assert(a2 == n0);
                        }
                    }
                    assert forall|k: Seq<u64>|
                        #[trigger] index_view(w.index).dom().contains(k) implies {
                        let a2 = index_view(w.index)[k] as int;
                        0 <= a2 < w.n_archetypes() && ids_of(w.arch(a2).types_seq()) == k
                    } by {
                        if k == ids_of(iv0) {
                            assert(index_view(w.index)[k] == a);
                        } else {
                            assert(index_view(old(self).index).dom().contains(k));
                            let a2 = index_view(old(self).index)[k] as int;
                            assert(0 <= a2 < n0);
                            assert(ids_of(old(self).arch(a2).types_seq()) == k);
                        }
                    }
                    assert(w.inv_index());
                    // directory and rows: untouched slots, old archetypes unchanged,
                    // the new archetype empty
                    assert forall|id: int| #[trigger] w.entities.id_live(id) implies (
                    w.entities.loc(id).archetype as int) < w.n_archetypes() && (w.entities.loc(
                        id,
                    ).index as int) < w.arch(w.entities.loc(id).archetype as int).rows()
                        && w.arch(w.entities.loc(id).archetype as int).entity_at(
                        w.entities.loc(id).index as int,
                    ) as int == id by {
                        assert(old(self).entities.id_live(id));
                        assert((w.entities.loc(id).archetype as int) < n0);
                    }
                    assert(w.inv_directory());
                    assert forall|a2: int, r: int|
                        0 <= a2 < w.n_archetypes() && 0 <= r < w.arch(a2).rows() implies
                        w.entities.id_live((#[trigger] w.arch(a2).entity_at(r)) as int)
                            && w.entities.loc(w.arch(a2).entity_at(r) as int).archetype as int
                            == a2 && w.entities.loc(w.arch(a2).entity_at(r) as int).index as int
                            == r by {
                        assert(a2 < n0);
                        assert(w.arch(a2) == old(self).arch(a2));
                    }
                    assert(w.inv_rows());
                    assert forall|a1: int, c1: int, a2: int, c2: int|
                        0 <= a1 < w.n_archetypes() && 0 <= c1 < w.arch(a1).ncols() && 0 <= a2
                            < w.n_archetypes() && 0 <= c2 < w.arch(a2).ncols() && (
                        #[trigger] w.arch(a1).type_at(c1)).id == (#[trigger] w.arch(a2).type_at(
                            c2,
                        )).id implies w.arch(a1).type_at(c1) == w.arch(a2).type_at(c2) by {
                        if a1 < n0 && a2 < n0 {
                            assert(old(self).arch(a1).type_at(c1) == old(self).arch(a2).type_at(
                                c2,
                            ));
                        } else if a1 < n0 && a2 == n0 {
                            assert(w.arch(a2).type_at(c2) == iv0[c2]);
                            assert(old(self).arch(a1).type_at(c1) == iv0[c2]);
                        } else if a1 == n0 && a2 < n0 {
                            assert(w.arch(a1).type_at(c1) == iv0[c1]);
                            assert(old(self).arch(a2).type_at(c2) == iv0[c1]);
                        } else {
                            assert(w.arch(a1).type_at(c1) == iv0[c1]);
                            assert(w.arch(a2).type_at(c2) == iv0[c2]);
                            if c1 != c2 {
                                assert(iv0[c1].id != iv0[c2].id);
                            }
                        }
                    }
                    assert(w.inv_global_types());
                    assert(w.arch(0).types_seq() == old(self).arch(0).types_seq());
                    assert(w.wf());
                    // the set of stored component sets grew by exactly this one
                    assert forall|ids: Set<u64>|
                        w.has_archetype(ids) <==> old(self).has_archetype(ids) || ids == id_set(
                            iv0,
                        ) by {
                        if w.has_archetype(ids) {
                            let a2 = choose|a2: int|
                                0 <= a2 < w.n_archetypes() && id_set(w.arch(a2).types_seq())
                                    == ids;
                            if a2 < n0 {
                                assert(old(self).has_archetype(ids));
                            } else {
                                assert(id_set(w.arch(n0).types_seq()) == ids);
                            }
                        }
                        if old(self).has_archetype(ids) {
                            let a2 = choose|a2: int|
                                0 <= a2 < old(self).n_archetypes() && id_set(
                                    old(self).arch(a2).types_seq(),
                                ) == ids;
                            assert(id_set(w.arch(a2).types_seq()) == ids);
                        }
                        if ids == id_set(iv0) {
                            assert(id_set(w.arch(n0).types_seq()) == ids);
                        }
                    }
                }
                a
            },
        }
    }
}

impl World {
    /// Entity views agree between two worlds: same liveness, and for every
    /// component type the same value and tracking bits.
    pub open spec fn same_entity_view(w1: World, w2: World, e: Entity) -> bool {
        &&& (w1.live(e) <==> w2.live(e))
        &&& forall|t: u64| #[trigger] w1.value(e, t) == w2.value(e, t)
        &&& forall|t: u64| #[trigger] w1.added_flag(e, t) == w2.added_flag(e, t)
        &&& forall|t: u64| #[trigger] w1.mutated_flag(e, t) == w2.mutated_flag(e, t)
    }

    /// Create an entity with the given components.
    ///
    /// The bundle's components are stored with the added bit set; the fresh
    /// handle is never one that was live before. A new archetype is created
    /// (bumping the generation) exactly when the bundle's type set is new.
    #[verifier::rlimit(100)]
    pub fn spawn(&mut self, bundle: Vec<Component>) -> (e: Entity)
        requires
            old(self).wf(),
            bundle_wf(bundle@),
            old(self).types_consistent(infos_of(bundle@)),
            old(self).entities.can_alloc(),
        ensures
            final(self).wf(),
            !old(self).live(e),
            final(self).live(e),
            forall|e2: Entity| e2 != e ==> (final(self).live(e2) <==> old(self).live(e2)),
            forall|e2: Entity|
                e2 != e ==> Self::same_entity_view(*old(self), *final(self), e2),
            forall|k: int|
                0 <= k < bundle@.len() ==> final(self).value(
                    e,
                    (#[trigger] bundle@[k]).info.id,
                ) == Some(bundle@[k].data@) && final(self).added_flag(e, bundle@[k].info.id)
                    && !final(self).mutated_flag(e, bundle@[k].info.id),
            forall|t: u64|
                !bundle_has_id(bundle@, t) ==> final(self).value(e, t) == None::<Seq<u8>>,
            id_set(final(self).types_of(e)) == bundle_id_set(bundle@),
            forall|t: u64| final(self).removed_log(t) == old(self).removed_log(t),
            final(self).archetype_generation as int == old(self).archetype_generation as int + (
            if old(self).has_archetype(bundle_id_set(bundle@)) {
                0int
            } else {
                1int
            }),
            forall|ids: Set<u64>|
                final(self).has_archetype(ids) <==> old(self).has_archetype(ids) || ids
                    == bundle_id_set(bundle@),
            forall|c: int|
                0 <= c < final(self).types_of(e).len() ==> infos_of(bundle@).contains(
                    #[trigger] final(self).types_of(e)[c],
                ),
            old(self).n_archetypes() <= final(self).n_archetypes() <= old(self).n_archetypes()
                + 1,
            forall|a2: int|
                0 <= a2 < old(self).n_archetypes() ==> #[trigger] final(self).arch(
                    a2,
                ).types_seq() == old(self).arch(a2).types_seq(),
            final(self).n_archetypes() == old(self).n_archetypes() + 1 ==> final(self).arch(
                old(self).n_archetypes(),
            ).types_seq() == final(self).types_of(e),
            final(self).entities.n_slots() <= old(self).entities.n_slots() + 1,
            forall|id: int|
                0 <= id < old(self).entities.n_slots() && id != e.id as int ==> final(self).entities.slot(id) == old(self).entities.slot(id),
            forall|id: int|
                0 <= id < old(self).entities.n_slots() ==> final(self).entities.slot(
                    id,
                ).generation == old(self).entities.slot(id).generation,
    {
        let ghost b0 = bundle@;
        let sorted = sort_bundle(bundle);
        let ghost sv = sorted@;
        proof {
            // every sorted component is one of the bundle's, so the incoming
            // descriptions stay consistent with the stored ones
            assert forall|a: int, c: int, k: int|
                0 <= a < old(self).n_archetypes() && 0 <= c < old(self).arch(a).ncols() && 0 <= k
                    < infos_of(sv).len() && (#[trigger] old(self).arch(a).type_at(c)).id == (
                #[trigger] infos_of(sv)[k]).id implies old(self).arch(a).type_at(c) == infos_of(
                sv,
            )[k] by {
                assert(sv.contains(sv[k]));
                let j = choose|j: int| 0 <= j < b0.len() && b0[j] == sv[k];
                assert(infos_of(b0)[j] == sv[k].info);
                assert(infos_of(sv)[k] == sv[k].info);
            }
            // the sorted bundle carries the same id set
            assert forall|t: u64| bundle_has_id(sv, t) <==> bundle_has_id(b0, t) by {
                if bundle_has_id(sv, t) {
                    let k = choose|k: int| 0 <= k < sv.len() && sv[k].info.id == t;
                    assert(sv.contains(sv[k]));
                    let j = choose|j: int| 0 <= j < b0.len() && b0[j] == sv[k];
                }
                if bundle_has_id(b0, t) {
                    let k = choose|k: int| 0 <= k < b0.len() && b0[k].info.id == t;
                    assert(b0.contains(b0[k]));
                    let j = choose|j: int| 0 <= j < sv.len() && sv[j] == b0[k];
                }
            }
            assert(bundle_id_set(sv) =~= bundle_id_set(b0));
            // and its infos' id set is that same set
            assert forall|t: u64| has_id(infos_of(sv), t) <==> bundle_has_id(sv, t) by {
                if has_id(infos_of(sv), t) {
                    let k = choose|k: int|
                        0 <= k < infos_of(sv).len() && infos_of(sv)[k].id == t;
                    assert(sv[k].info.id == t);
                }
                if bundle_has_id(sv, t) {
                    let k = choose|k: int| 0 <= k < sv.len() && sv[k].info.id == t;
                    assert(infos_of(sv)[k].id == t);
                }
            }
            assert(id_set(infos_of(sv)) =~= bundle_id_set(b0));
        }
        let infos = infos_vec(&sorted);
        let a = self.ensure_archetype(infos);
        let ghost w1 = *self;
        proof {
            // looking up or creating an archetype changes no entity's view
            assert forall|e2: Entity| Self::same_entity_view(*old(self), w1, e2) by {
                assert(w1.entities == old(self).entities);
                if old(self).live(e2) {
                    assert(old(self).entities.id_live(e2.id as int));
                    let l = old(self).entities.loc(e2.id as int);
                    assert((l.archetype as int) < old(self).n_archetypes());
                    assert(w1.arch(l.archetype as int) == old(self).arch(l.archetype as int));
                }
            }
        }
        let arch_len = self.archetypes[a].len();
        let e = self.entities.allocate(Location { archetype: a, index: arch_len });
        let ghost w2 = *self;
        let row;
        {
            let arch = &mut self.archetypes[a];
            row = arch.allocate(e.id);
        }
        let ghost w3 = *self;
        proof {
            assert(row == arch_len);
            assert(w3.arch(a as int).types_seq() == infos_of(sv));
            assert(w3.arch(a as int).ncols() == sv.len() as int);
            assert(w3.entities == w2.entities);
            assert(forall|a2: int|
                0 <= a2 < w3.n_archetypes() && a2 != a as int ==> w3.arch(a2) == w1.arch(a2));
            assert(w3.arch(a as int).entities@ == w1.arch(a as int).entities@.push(e.id));
            assert(w1.arch(a as int).rows() == row as int);
            assert(forall|c: int, r: int|
                0 <= c < w3.arch(a as int).ncols() && 0 <= r < row ==> w3.arch(a as int).cell(c, r)
                    == w1.arch(a as int).cell(c, r));
            assert(forall|c: int, r: int|
                0 <= c < w3.arch(a as int).ncols() && 0 <= r < row ==> w3.arch(
                    a as int,
                ).added_bit(c, r) == w1.arch(a as int).added_bit(c, r) && w3.arch(
                    a as int,
                ).mutated_bit(c, r) == w1.arch(a as int).mutated_bit(c, r));
        }
        let mut comps = sorted;
        let ghost n = sv.len() as int;
        while comps.len() > 0
            invariant
                comps@ == sv.take(comps@.len() as int),
                comps@.len() <= n,
                n == sv.len(),
                bundle_wf(sv),
                strictly_sorted(infos_of(sv)),
                (a as int) < self.n_archetypes(),
                row as int == w3.arch(a as int).rows() - 1,
                self.entities == w3.entities,
                self.index == w3.index,
                self.removed_components == w3.removed_components,
                self.archetype_generation == w3.archetype_generation,
                self.n_archetypes() == w3.n_archetypes(),
                forall|a2: int|
                    0 <= a2 < self.n_archetypes() && a2 != a as int ==> self.arch(a2) == w3.arch(
                        a2,
                    ),
                self.arch(a as int).wf(),
                self.arch(a as int).types_seq() == infos_of(sv),
                self.arch(a as int).ncols() == n,
                self.arch(a as int).rows() == w3.arch(a as int).rows(),
                self.arch(a as int).entities@ == w3.arch(a as int).entities@,
                forall|c: int, r: int|
                    0 <= c < n && 0 <= r < row ==> self.arch(a as int).cell(c, r) == w3.arch(
                        a as int,
                    ).cell(c, r),
                forall|c: int, r: int|
                    0 <= c < n && 0 <= r < row ==> self.arch(a as int).added_bit(c, r) == w3.arch(
                        a as int,
                    ).added_bit(c, r) && self.arch(a as int).mutated_bit(c, r) == w3.arch(
                        a as int,
                    ).mutated_bit(c, r),
                forall|c: int|
                    comps@.len() <= c < n ==> self.arch(a as int).cell(c, row as int) == sv[c].data@
                        && self.arch(a as int).added_bit(c, row as int) && !self.arch(
                        a as int,
                    ).mutated_bit(c, row as int),
                forall|c: int|
                    0 <= c < comps@.len() ==> !self.arch(a as int).added_bit(c, row as int)
                        && !self.arch(a as int).mutated_bit(c, row as int),
            decreases comps.len(),
        {
            let c = comps.len() - 1;
            let comp = match comps.pop() {
                Some(comp) => comp,
                None => {
                    proof {
                        assert(false);
                    }
                    unreached()
                },
            };
            proof {
                assert(comp == sv[c as int]);
                assert(comps@ == sv.take(c as int)) by {
                    assert(comps@ =~= sv.take(c as int));
                }
                assert(infos_of(sv)[c as int] == sv[c as int].info);
                assert(comp.data@.len() == self.arch(a as int).type_at(c as int).size);
            }
            let arch = &mut self.archetypes[a];
            arch.put(c, row, comp.data, true, false);
        }
        proof {
            let w = *self;
            let ai = a as int;
            assert(sv.take(0) =~= Seq::<Component>::empty());
            // bridge the loop's frame (relative to the post-allocate state)
            // back to the pre-allocate state
            assert(forall|a2: int|
                0 <= a2 < w.n_archetypes() && a2 != ai ==> w.arch(a2) == w1.arch(a2));
            assert(w.arch(ai).rows() == w1.arch(ai).rows() + 1);
            assert(w.arch(ai).types_seq() == w1.arch(ai).types_seq());
            assert(forall|r: int|
                0 <= r < row ==> w.arch(ai).entity_at(r) == w1.arch(ai).entity_at(r));
            assert(forall|c: int, r: int|
                0 <= c < n && 0 <= r < row ==> w.arch(ai).cell(c, r) == w1.arch(ai).cell(c, r));
            assert(forall|c: int, r: int|
                0 <= c < n && 0 <= r < row ==> w.arch(ai).added_bit(c, r) == w1.arch(
                    ai,
                ).added_bit(c, r) && w.arch(ai).mutated_bit(c, r) == w1.arch(ai).mutated_bit(
                    c,
                    r,
                ));
            // every column of the new row now holds its bundle component
            assert(forall|c: int|
                0 <= c < n ==> w.arch(ai).cell(c, row as int) == sv[c].data@ && w.arch(
                    ai,
                ).added_bit(c, row as int) && !w.arch(ai).mutated_bit(c, row as int));
            // directory facts
            assert(w.entities.live(e));
            assert(w.entities.loc(e.id as int) == Location { archetype: a, index: row });
            assert(w.arch(ai).entity_at(row as int) == e.id);
            // e's slot was dead before, so no old row mentions e.id
            assert forall|a2: int, r: int|
                0 <= a2 < w1.n_archetypes() && 0 <= r < w1.arch(a2).rows() implies w1.arch(
                a2,
            ).entity_at(r) != e.id by {
                if w1.arch(a2).entity_at(r) == e.id {
                    assert(w1.entities.id_live(e.id as int));
                    assert(false);
                }
            }
            // invariant: directory
            assert forall|id: int| #[trigger] w.entities.id_live(id) implies (w.entities.loc(
                id,
            ).archetype as int) < w.n_archetypes() && (w.entities.loc(id).index as int) < w.arch(
                w.entities.loc(id).archetype as int,
            ).rows() && w.arch(w.entities.loc(id).archetype as int).entity_at(
                w.entities.loc(id).index as int,
            ) as int == id by {
                if id == e.id as int {
                } else {
                    if id >= w1.entities.n_slots() {
                        assert(w.entities.n_slots() == w1.entities.n_slots() + 1);
                        assert(id == e.id as int);
                        assert(false);
                    }
                    assert(w.entities.slot(id) == w1.entities.slot(id));
                    assert(w1.entities.id_live(id));
                    assert(w.entities.loc(id) == w1.entities.loc(id));
                    let l = w1.entities.loc(id);
                    if l.archetype as int == ai {
                        assert(w.arch(ai).entity_at(l.index as int) == w1.arch(ai).entity_at(
                            l.index as int,
                        ));
                    } else {
                        assert(w.arch(l.archetype as int) == w1.arch(l.archetype as int));
                    }
                }
            }
            assert(w.inv_directory());
            // invariant: rows
            assert forall|a2: int, r: int|
                0 <= a2 < w.n_archetypes() && 0 <= r < w.arch(a2).rows() implies
                w.entities.id_live((#[trigger] w.arch(a2).entity_at(r)) as int) && w.entities.loc(
                w.arch(a2).entity_at(r) as int,
            ).archetype as int == a2 && w.entities.loc(w.arch(a2).entity_at(r) as int).index as int
                == r by {
                if a2 == ai && r == row as int {
                } else {
                    let id = if a2 == ai {
                        w1.arch(a2).entity_at(r)
                    } else {
                        w1.arch(a2).entity_at(r)
                    };
                    assert(w.arch(a2).entity_at(r) == w1.arch(a2).entity_at(r));
                    assert(id != e.id);
                    assert(w1.entities.id_live(id as int));
                    assert(w.entities.slot(id as int) == w1.entities.slot(id as int));
                }
            }
            assert(w.inv_rows());
            assert(w.inv_index()) by {
                assert(w.index == w1.index);
                assert forall|a2: int| 0 <= a2 < w.n_archetypes() implies #[trigger] w.arch(
                    a2,
                ).types_seq() == w1.arch(a2).types_seq() by {}
            }
            assert(w.inv_archetypes());
            assert(w.inv_global_types()) by {
                assert(forall|a2: int|
                    0 <= a2 < w.n_archetypes() ==> #[trigger] w.arch(a2).types_seq() == w1.arch(
                        a2,
                    ).types_seq());
            }
            assert(w.arch(0).types_seq() == w1.arch(0).types_seq());
            assert(w.wf());
            // e's component values are the bundle's
            assert forall|k: int| 0 <= k < b0.len() implies w.value(
                e,
                (#[trigger] b0[k]).info.id,
            ) == Some(b0[k].data@) && w.added_flag(e, b0[k].info.id) && !w.mutated_flag(
                e,
                b0[k].info.id,
            ) by {
                assert(b0.contains(b0[k]));
                let j = choose|j: int| 0 <= j < sv.len() && sv[j] == b0[k];
                let t = b0[k].info.id;
                assert(infos_of(sv)[j].id == t);
                assert(has_id(infos_of(sv), t));
                assert(w.arch(ai).has(t));
                w.arch(ai).lemma_col_of(t);
                assert(w.arch(ai).col_of(t) == j);
                assert(w.value(e, t) == Some(w.arch(ai).cell(j, row as int)));
            }
            // no other component types are present on e
            assert forall|t: u64| !bundle_has_id(b0, t) implies w.value(e, t) == None::<
                Seq<u8>,
            > by {
                if w.arch(ai).has(t) {
                    assert(has_id(infos_of(sv), t));
                }
            }
            // e's component set is the bundle's id set
            assert(id_set(w.types_of(e)) =~= bundle_id_set(b0));
            // frame: every other entity reads exactly as before
            assert forall|e2: Entity| e2 != e implies Self::same_entity_view(
                w1,
                w,
                e2,
            ) by {
                if e2.id == e.id {
                    assert(!w1.live(e2));
                    assert(w.entities.slot(e2.id as int).generation == e.generation);
                    if w.live(e2) {
                        assert(e2 == e);
                    }
                    assert(!w.live(e2));
                    assert forall|t: u64| #[trigger] w1.value(e2, t) == w.value(e2, t) by {}
                } else {
                    assert(w.entities.slot(e2.id as int) == w1.entities.slot(e2.id as int) || (
                    e2.id as int) >= w1.entities.n_slots());
                    assert(w1.live(e2) <==> w.live(e2));
                    if w1.live(e2) {
                        let l = w1.entities.loc(e2.id as int);
                        assert(w1.entities.id_live(e2.id as int));
                        assert((l.index as int) < w1.arch(l.archetype as int).rows());
                        assert forall|t: u64| #[trigger] w1.value(e2, t) == w.value(e2, t)
                            && w1.added_flag(e2, t) == w.added_flag(e2, t) && w1.mutated_flag(
                            e2,
                            t,
                        ) == w.mutated_flag(e2, t) by {
                            if l.archetype as int == ai {
                                assert((l.index as int) < row as int || l.index as int
                                    == row as int);
                                assert(w1.arch(ai).entity_at(l.index as int) == e2.id);
                                assert((l.index as int) != row as int);
                                if w1.arch(ai).has(t) {
                                    w1.arch(ai).lemma_col_of(t);
                                    assert(w.arch(ai).cell(
                                        w1.arch(ai).col_of(t),
                                        l.index as int,
                                    ) == w1.arch(ai).cell(w1.arch(ai).col_of(t), l.index as int));
                                }
                            } else {
                                assert(w.arch(l.archetype as int) == w1.arch(l.archetype as int));
                            }
                        }
                    } else {
                        assert(!w.live(e2));
                        assert forall|t: u64| #[trigger] w1.value(e2, t) == w.value(e2, t) by {}
                    }
                }
            }
            // chain the frame through the archetype lookup back to the start
            assert forall|e2: Entity| e2 != e implies Self::same_entity_view(
                *old(self),
                w,
                e2,
            ) by {
                assert(Self::same_entity_view(*old(self), w1, e2));
                assert(Self::same_entity_view(w1, w, e2));
                assert forall|t: u64| #[trigger] old(self).value(e2, t) == w.value(e2, t) by {
                    assert(old(self).value(e2, t) == w1.value(e2, t));
                    assert(w1.value(e2, t) == w.value(e2, t));
                }
                assert forall|t: u64| #[trigger] old(self).added_flag(e2, t) == w.added_flag(
                    e2,
                    t,
                ) by {
                    assert(old(self).added_flag(e2, t) == w1.added_flag(e2, t));
                    assert(w1.added_flag(e2, t) == w.added_flag(e2, t));
                }
                assert forall|t: u64| #[trigger] old(self).mutated_flag(e2, t) == w.mutated_flag(
                    e2,
                    t,
                ) by {
                    assert(old(self).mutated_flag(e2, t) == w1.mutated_flag(e2, t));
                    assert(w1.mutated_flag(e2, t) == w.mutated_flag(e2, t));
                }
            }
            // nothing else moved
            assert(forall|t: u64| w.removed_log(t) == w1.removed_log(t));
            assert(id_set(infos_of(sv)) == bundle_id_set(b0));
            assert forall|ids: Set<u64>|
                w.has_archetype(ids) <==> old(self).has_archetype(ids) || ids == bundle_id_set(
                    b0,
                ) by {
                assert(w.has_archetype(ids) <==> w1.has_archetype(ids));
                assert(w1.has_archetype(ids) <==> old(self).has_archetype(ids) || ids == id_set(
                    infos_of(sv),
                ));
            }
            assert forall|ids: Set<u64>|
                w.has_archetype(ids) <==> w1.has_archetype(ids) by {
                assert(forall|a2: int|
                    0 <= a2 < w.n_archetypes() ==> #[trigger] w.arch(a2).types_seq() == w1.arch(
                        a2,
                    ).types_seq());
                if w.has_archetype(ids) {
                    let a2 = choose|a2: int|
                        0 <= a2 < w.n_archetypes() && id_set(w.arch(a2).types_seq()) == ids;
                    assert(id_set(w1.arch(a2).types_seq()) == ids);
                }
                if w1.has_archetype(ids) {
                    let a2 = choose|a2: int|
                        0 <= a2 < w1.n_archetypes() && id_set(w1.arch(a2).types_seq()) == ids;
                    assert(id_set(w.arch(a2).types_seq()) == ids);
                }
            }
            assert(w.types_of(e) == infos_of(sv));
            assert forall|c: int| 0 <= c < w.types_of(e).len() implies infos_of(b0).contains(
                #[trigger] w.types_of(e)[c],
            ) by {
                assert(w.types_of(e)[c] == sv[c].info);
                assert(sv.contains(sv[c]));
                assert(b0.contains(sv[c]));
                let k = choose|k: int| 0 <= k < b0.len() && b0[k] == sv[c];
                assert(infos_of(b0)[k] == w.types_of(e)[c]);
            }
            assert(forall|a2: int|
                0 <= a2 < old(self).n_archetypes() ==> #[trigger] w.arch(a2).types_seq()
                    == old(self).arch(a2).types_seq());
            if w.n_archetypes() == old(self).n_archetypes() + 1 {
                assert(w.arch(old(self).n_archetypes()).types_seq() == infos_of(sv));
            }
        }
        e
    }

    /// Create an entity under a caller-provided handle.
    ///
    /// The handle's id must name the directory's next fresh slot or an
    /// existing one; if that slot is occupied the call is refused and nothing
    /// changes. Otherwise the slot takes the handle's generation and the
    /// bundle is stored exactly as `spawn` stores it. Ids beyond the next
    /// fresh slot are out by precondition: this directory issues ids densely
    /// and does not seat sparse handles.
    #[verifier::rlimit(100)]
    pub fn spawn_as_entity(&mut self, entity: Entity, bundle: Vec<Component>) -> (r: Result<
        (),
        NoSuchEntity,
    >)
        requires
            old(self).wf(),
            bundle_wf(bundle@),
            old(self).types_consistent(infos_of(bundle@)),
            entity.id as int <= old(self).entities.n_slots(),
            entity.id < u32::MAX,
        ensures
            final(self).wf(),
            match r {
                Ok(u) => !old(self).entities.id_live(entity.id as int) && !old(self).live(entity)
                    && final(self).live(entity),
                Err(err) => old(self).entities.id_live(entity.id as int) && *final(self) == *old(self),
            },
            !old(self).entities.id_live(entity.id as int) ==> {
                &&& forall|e2: Entity|
                    e2 != entity ==> (final(self).live(e2) <==> old(self).live(e2))
                &&& forall|e2: Entity|
                    e2 != entity ==> Self::same_entity_view(*old(self), *final(self), e2)
                &&& forall|k: int|
                    0 <= k < bundle@.len() ==> final(self).value(
                        entity,
                        (#[trigger] bundle@[k]).info.id,
                    ) == Some(bundle@[k].data@) && final(self).added_flag(
                        entity,
                        bundle@[k].info.id,
                    ) && !final(self).mutated_flag(entity, bundle@[k].info.id)
                &&& forall|t: u64|
                    !bundle_has_id(bundle@, t) ==> final(self).value(entity, t) == None::<Seq<u8>>
                &&& id_set(final(self).types_of(entity)) == bundle_id_set(bundle@)
                &&& forall|t: u64| final(self).removed_log(t) == old(self).removed_log(t)
                &&& final(self).archetype_generation as int == old(self).archetype_generation as int + (if old(self).has_archetype(
                    bundle_id_set(bundle@),
                ) {
                    0int
                } else {
                    1int
                })
                &&& old(self).entities.n_slots() <= final(self).entities.n_slots() <= old(self).entities.n_slots() + 1
                &&& forall|ids: Set<u64>|
                    final(self).has_archetype(ids) <==> old(self).has_archetype(ids) || ids
                        == bundle_id_set(bundle@)
            },
    {
        if (entity.id as usize) < self.entities.slots.len() {
            if self.entities.slots[entity.id as usize].live {
                proof {
                    assert(old(self).entities.id_live(entity.id as int));
                }
                return Err(NoSuchEntity);
            }
        }
        let e = entity;
        proof {
            assert(!old(self).entities.id_live(e.id as int));
            assert(!old(self).live(e));
        }
        let ghost b0 = bundle@;
        let sorted = sort_bundle(bundle);
        let ghost sv = sorted@;
        proof {
            // every sorted component is one of the bundle's, so the incoming
            // descriptions stay consistent with the stored ones
            assert forall|a: int, c: int, k: int|
                0 <= a < old(self).n_archetypes() && 0 <= c < old(self).arch(a).ncols() && 0 <= k
                    < infos_of(sv).len() && (#[trigger] old(self).arch(a).type_at(c)).id == (
                #[trigger] infos_of(sv)[k]).id implies old(self).arch(a).type_at(c) == infos_of(
                sv,
            )[k] by {
                assert(sv.contains(sv[k]));
                let j = choose|j: int| 0 <= j < b0.len() && b0[j] == sv[k];
                assert(infos_of(b0)[j] == sv[k].info);
                assert(infos_of(sv)[k] == sv[k].info);
            }
            // the sorted bundle carries the same id set
            assert forall|t: u64| bundle_has_id(sv, t) <==> bundle_has_id(b0, t) by {
                if bundle_has_id(sv, t) {
                    let k = choose|k: int| 0 <= k < sv.len() && sv[k].info.id == t;
                    assert(sv.contains(sv[k]));
                    let j = choose|j: int| 0 <= j < b0.len() && b0[j] == sv[k];
                }
                if bundle_has_id(b0, t) {
                    let k = choose|k: int| 0 <= k < b0.len() && b0[k].info.id == t;
                    assert(b0.contains(b0[k]));
                    let j = choose|j: int| 0 <= j < sv.len() && sv[j] == b0[k];
                }
            }
            assert(bundle_id_set(sv) =~= bundle_id_set(b0));
            // and its infos' id set is that same set
            assert forall|t: u64| has_id(infos_of(sv), t) <==> bundle_has_id(sv, t) by {
                if has_id(infos_of(sv), t) {
                    let k = choose|k: int|
                        0 <= k < infos_of(sv).len() && infos_of(sv)[k].id == t;
                    assert(sv[k].info.id == t);
                }
                if bundle_has_id(sv, t) {
                    let k = choose|k: int| 0 <= k < sv.len() && sv[k].info.id == t;
                    assert(infos_of(sv)[k].id == t);
                }
            }
            assert(id_set(infos_of(sv)) =~= bundle_id_set(b0));
        }
        let infos = infos_vec(&sorted);
        let a = self.ensure_archetype(infos);
        let ghost w1 = *self;
        proof {
            // looking up or creating an archetype changes no entity's view
            assert forall|e2: Entity| Self::same_entity_view(*old(self), w1, e2) by {
                assert(w1.entities == old(self).entities);
                if old(self).live(e2) {
                    assert(old(self).entities.id_live(e2.id as int));
                    let l = old(self).entities.loc(e2.id as int);
                    assert((l.archetype as int) < old(self).n_archetypes());
                    assert(w1.arch(l.archetype as int) == old(self).arch(l.archetype as int));
                }
            }
        }
        let arch_len = self.archetypes[a].len();
        proof {
            assert(!w1.entities.id_live(e.id as int));
        }
        self.entities.adopt(e, Location { archetype: a, index: arch_len });
        let ghost w2 = *self;
        let row;
        {
            let arch = &mut self.archetypes[a];
            row = arch.allocate(e.id);
        }
        let ghost w3 = *self;
        proof {
            assert(row == arch_len);
            assert(w3.arch(a as int).types_seq() == infos_of(sv));
            assert(w3.arch(a as int).ncols() == sv.len() as int);
            assert(w3.entities == w2.entities);
            assert(forall|a2: int|
                0 <= a2 < w3.n_archetypes() && a2 != a as int ==> w3.arch(a2) == w1.arch(a2));
            assert(w3.arch(a as int).entities@ == w1.arch(a as int).entities@.push(e.id));
            assert(w1.arch(a as int).rows() == row as int);
            assert(forall|c: int, r: int|
                0 <= c < w3.arch(a as int).ncols() && 0 <= r < row ==> w3.arch(a as int).cell(c, r)
                    == w1.arch(a as int).cell(c, r));
            assert(forall|c: int, r: int|
                0 <= c < w3.arch(a as int).ncols() && 0 <= r < row ==> w3.arch(
                    a as int,
                ).added_bit(c, r) == w1.arch(a as int).added_bit(c, r) && w3.arch(
                    a as int,
                ).mutated_bit(c, r) == w1.arch(a as int).mutated_bit(c, r));
        }
        let mut comps = sorted;
        let ghost n = sv.len() as int;
        while comps.len() > 0
            invariant
                comps@ == sv.take(comps@.len() as int),
                comps@.len() <= n,
                n == sv.len(),
                bundle_wf(sv),
                strictly_sorted(infos_of(sv)),
                (a as int) < self.n_archetypes(),
                row as int == w3.arch(a as int).rows() - 1,
                self.entities == w3.entities,
                self.index == w3.index,
                self.removed_components == w3.removed_components,
                self.archetype_generation == w3.archetype_generation,
                self.n_archetypes() == w3.n_archetypes(),
                forall|a2: int|
                    0 <= a2 < self.n_archetypes() && a2 != a as int ==> self.arch(a2) == w3.arch(
                        a2,
                    ),
                self.arch(a as int).wf(),
                self.arch(a as int).types_seq() == infos_of(sv),
                self.arch(a as int).ncols() == n,
                self.arch(a as int).rows() == w3.arch(a as int).rows(),
                self.arch(a as int).entities@ == w3.arch(a as int).entities@,
                forall|c: int, r: int|
                    0 <= c < n && 0 <= r < row ==> self.arch(a as int).cell(c, r) == w3.arch(
                        a as int,
                    ).cell(c, r),
                forall|c: int, r: int|
                    0 <= c < n && 0 <= r < row ==> self.arch(a as int).added_bit(c, r) == w3.arch(
                        a as int,
                    ).added_bit(c, r) && self.arch(a as int).mutated_bit(c, r) == w3.arch(
                        a as int,
                    ).mutated_bit(c, r),
                forall|c: int|
                    comps@.len() <= c < n ==> self.arch(a as int).cell(c, row as int) == sv[c].data@
                        && self.arch(a as int).added_bit(c, row as int) && !self.arch(
                        a as int,
                    ).mutated_bit(c, row as int),
                forall|c: int|
                    0 <= c < comps@.len() ==> !self.arch(a as int).added_bit(c, row as int)
                        && !self.arch(a as int).mutated_bit(c, row as int),
            decreases comps.len(),
        {
            let c = comps.len() - 1;
            let comp = match comps.pop() {
                Some(comp) => comp,
                None => {
                    proof {
                        assert(false);
                    }
                    unreached()
                },
            };
            proof {
                assert(comp == sv[c as int]);
                assert(comps@ == sv.take(c as int)) by {
                    assert(comps@ =~= sv.take(c as int));
                }
                assert(infos_of(sv)[c as int] == sv[c as int].info);
                assert(comp.data@.len() == self.arch(a as int).type_at(c as int).size);
            }
            let arch = &mut self.archetypes[a];
            arch.put(c, row, comp.data, true, false);
        }
        proof {
            let w = *self;
            let ai = a as int;
            assert(sv.take(0) =~= Seq::<Component>::empty());
            // bridge the loop's frame (relative to the post-allocate state)
            // back to the pre-allocate state
            assert(forall|a2: int|
                0 <= a2 < w.n_archetypes() && a2 != ai ==> w.arch(a2) == w1.arch(a2));
            assert(w.arch(ai).rows() == w1.arch(ai).rows() + 1);
            assert(w.arch(ai).types_seq() == w1.arch(ai).types_seq());
            assert(forall|r: int|
                0 <= r < row ==> w.arch(ai).entity_at(r) == w1.arch(ai).entity_at(r));
            assert(forall|c: int, r: int|
                0 <= c < n && 0 <= r < row ==> w.arch(ai).cell(c, r) == w1.arch(ai).cell(c, r));
            assert(forall|c: int, r: int|
                0 <= c < n && 0 <= r < row ==> w.arch(ai).added_bit(c, r) == w1.arch(
                    ai,
                ).added_bit(c, r) && w.arch(ai).mutated_bit(c, r) == w1.arch(ai).mutated_bit(
                    c,
                    r,
                ));
            // every column of the new row now holds its bundle component
            assert(forall|c: int|
                0 <= c < n ==> w.arch(ai).cell(c, row as int) == sv[c].data@ && w.arch(
                    ai,
                ).added_bit(c, row as int) && !w.arch(ai).mutated_bit(c, row as int));
            // directory facts
            assert(w.entities.live(e));
            assert(w.entities.loc(e.id as int) == Location { archetype: a, index: row });
            assert(w.arch(ai).entity_at(row as int) == e.id);
            // e's slot was dead before, so no old row mentions e.id
            assert forall|a2: int, r: int|
                0 <= a2 < w1.n_archetypes() && 0 <= r < w1.arch(a2).rows() implies w1.arch(
                a2,
            ).entity_at(r) != e.id by {
                if w1.arch(a2).entity_at(r) == e.id {
                    assert(w1.entities.id_live(e.id as int));
                    assert(false);
                }
            }
            // invariant: directory
            assert forall|id: int| #[trigger] w.entities.id_live(id) implies (w.entities.loc(
                id,
            ).archetype as int) < w.n_archetypes() && (w.entities.loc(id).index as int) < w.arch(
                w.entities.loc(id).archetype as int,
            ).rows() && w.arch(w.entities.loc(id).archetype as int).entity_at(
                w.entities.loc(id).index as int,
            ) as int == id by {
                if id == e.id as int {
                } else {
                    if id >= w1.entities.n_slots() {
                        assert(w.entities.n_slots() == w1.entities.n_slots() + 1);
                        assert(id == e.id as int);
                        assert(false);
                    }
                    assert(w.entities.slot(id) == w1.entities.slot(id));
                    assert(w1.entities.id_live(id));
                    assert(w.entities.loc(id) == w1.entities.loc(id));
                    let l = w1.entities.loc(id);
                    if l.archetype as int == ai {
                        assert(w.arch(ai).entity_at(l.index as int) == w1.arch(ai).entity_at(
                            l.index as int,
                        ));
                    } else {
                        assert(w.arch(l.archetype as int) == w1.arch(l.archetype as int));
                    }
                }
            }
            assert(w.inv_directory());
            // invariant: rows
            assert forall|a2: int, r: int|
                0 <= a2 < w.n_archetypes() && 0 <= r < w.arch(a2).rows() implies
                w.entities.id_live((#[trigger] w.arch(a2).entity_at(r)) as int) && w.entities.loc(
                w.arch(a2).entity_at(r) as int,
            ).archetype as int == a2 && w.entities.loc(w.arch(a2).entity_at(r) as int).index as int
                == r by {
                if a2 == ai && r == row as int {
                } else {
                    let id = if a2 == ai {
                        w1.arch(a2).entity_at(r)
                    } else {
                        w1.arch(a2).entity_at(r)
                    };
                    assert(w.arch(a2).entity_at(r) == w1.arch(a2).entity_at(r));
                    assert(id != e.id);
                    assert(w1.entities.id_live(id as int));
                    assert(w.entities.slot(id as int) == w1.entities.slot(id as int));
                }
            }
            assert(w.inv_rows());
            assert(w.inv_index()) by {
                assert(w.index == w1.index);
                assert forall|a2: int| 0 <= a2 < w.n_archetypes() implies #[trigger] w.arch(
                    a2,
                ).types_seq() == w1.arch(a2).types_seq() by {}
            }
            assert(w.inv_archetypes());
            assert(w.inv_global_types()) by {
                assert(forall|a2: int|
                    0 <= a2 < w.n_archetypes() ==> #[trigger] w.arch(a2).types_seq() == w1.arch(
                        a2,
                    ).types_seq());
            }
            assert(w.arch(0).types_seq() == w1.arch(0).types_seq());
            assert(w.wf());
            // e's component values are the bundle's
            assert forall|k: int| 0 <= k < b0.len() implies w.value(
                e,
                (#[trigger] b0[k]).info.id,
            ) == Some(b0[k].data@) && w.added_flag(e, b0[k].info.id) && !w.mutated_flag(
                e,
                b0[k].info.id,
            ) by {
                assert(b0.contains(b0[k]));
                let j = choose|j: int| 0 <= j < sv.len() && sv[j] == b0[k];
                let t = b0[k].info.id;
                assert(infos_of(sv)[j].id == t);
                assert(has_id(infos_of(sv), t));
                assert(w.arch(ai).has(t));
                w.arch(ai).lemma_col_of(t);
                assert(w.arch(ai).col_of(t) == j);
                assert(w.value(e, t) == Some(w.arch(ai).cell(j, row as int)));
            }
            // no other component types are present on e
            assert forall|t: u64| !bundle_has_id(b0, t) implies w.value(e, t) == None::<
                Seq<u8>,
            > by {
                if w.arch(ai).has(t) {
                    assert(has_id(infos_of(sv), t));
                }
            }
            // e's component set is the bundle's id set
            assert(id_set(w.types_of(e)) =~= bundle_id_set(b0));
            // frame: every other entity reads exactly as before
            assert forall|e2: Entity| e2 != e implies Self::same_entity_view(
                w1,
                w,
                e2,
            ) by {
                if e2.id == e.id {
                    assert(!w1.live(e2));
                    assert(w.entities.slot(e2.id as int).generation == e.generation);
                    if w.live(e2) {
                        assert(e2 == e);
                    }
                    assert(!w.live(e2));
                    assert forall|t: u64| #[trigger] w1.value(e2, t) == w.value(e2, t) by {}
                } else {
                    assert(w.entities.slot(e2.id as int) == w1.entities.slot(e2.id as int) || (
                    e2.id as int) >= w1.entities.n_slots());
                    assert(w1.live(e2) <==> w.live(e2));
                    if w1.live(e2) {
                        let l = w1.entities.loc(e2.id as int);
                        assert(w1.entities.id_live(e2.id as int));
                        assert((l.index as int) < w1.arch(l.archetype as int).rows());
                        assert forall|t: u64| #[trigger] w1.value(e2, t) == w.value(e2, t)
                            && w1.added_flag(e2, t) == w.added_flag(e2, t) && w1.mutated_flag(
                            e2,
                            t,
                        ) == w.mutated_flag(e2, t) by {
                            if l.archetype as int == ai {
                                assert((l.index as int) < row as int || l.index as int
                                    == row as int);
                                assert(w1.arch(ai).entity_at(l.index as int) == e2.id);
                                assert((l.index as int) != row as int);
                                if w1.arch(ai).has(t) {
                                    w1.arch(ai).lemma_col_of(t);
                                    assert(w.arch(ai).cell(
                                        w1.arch(ai).col_of(t),
                                        l.index as int,
                                    ) == w1.arch(ai).cell(w1.arch(ai).col_of(t), l.index as int));
                                }
                            } else {
                                assert(w.arch(l.archetype as int) == w1.arch(l.archetype as int));
                            }
                        }
                    } else {
                        assert(!w.live(e2));
                        assert forall|t: u64| #[trigger] w1.value(e2, t) == w.value(e2, t) by {}
                    }
                }
            }
            // chain the frame through the archetype lookup back to the start
            assert forall|e2: Entity| e2 != e implies Self::same_entity_view(
                *old(self),
                w,
                e2,
            ) by {
                assert(Self::same_entity_view(*old(self), w1, e2));
                assert(Self::same_entity_view(w1, w, e2));
                assert forall|t: u64| #[trigger] old(self).value(e2, t) == w.value(e2, t) by {
                    assert(old(self).value(e2, t) == w1.value(e2, t));
                    assert(w1.value(e2, t) == w.value(e2, t));
                }
                assert forall|t: u64| #[trigger] old(self).added_flag(e2, t) == w.added_flag(
                    e2,
                    t,
                ) by {
                    assert(old(self).added_flag(e2, t) == w1.added_flag(e2, t));
                    assert(w1.added_flag(e2, t) == w.added_flag(e2, t));
                }
                assert forall|t: u64| #[trigger] old(self).mutated_flag(e2, t) == w.mutated_flag(
                    e2,
                    t,
                ) by {
                    assert(old(self).mutated_flag(e2, t) == w1.mutated_flag(e2, t));
                    assert(w1.mutated_flag(e2, t) == w.mutated_flag(e2, t));
                }
            }
            // nothing else moved
            assert(forall|t: u64| w.removed_log(t) == w1.removed_log(t));
            assert(id_set(infos_of(sv)) == bundle_id_set(b0));
            assert forall|ids: Set<u64>|
                w.has_archetype(ids) <==> old(self).has_archetype(ids) || ids == bundle_id_set(
                    b0,
                ) by {
                assert(w.has_archetype(ids) <==> w1.has_archetype(ids));
                assert(w1.has_archetype(ids) <==> old(self).has_archetype(ids) || ids == id_set(
                    infos_of(sv),
                ));
            }
            assert forall|ids: Set<u64>|
                w.has_archetype(ids) <==> w1.has_archetype(ids) by {
                assert(forall|a2: int|
                    0 <= a2 < w.n_archetypes() ==> #[trigger] w.arch(a2).types_seq() == w1.arch(
                        a2,
                    ).types_seq());
                if w.has_archetype(ids) {
                    let a2 = choose|a2: int|
                        0 <= a2 < w.n_archetypes() && id_set(w.arch(a2).types_seq()) == ids;
                    assert(id_set(w1.arch(a2).types_seq()) == ids);
                }
                if w1.has_archetype(ids) {
                    let a2 = choose|a2: int|
                        0 <= a2 < w1.n_archetypes() && id_set(w1.arch(a2).types_seq()) == ids;
                    assert(id_set(w.arch(a2).types_seq()) == ids);
                }
            }
            assert(w.types_of(e) == infos_of(sv));
            assert forall|c: int| 0 <= c < w.types_of(e).len() implies infos_of(b0).contains(
                #[trigger] w.types_of(e)[c],
            ) by {
                assert(w.types_of(e)[c] == sv[c].info);
                assert(sv.contains(sv[c]));
                assert(b0.contains(sv[c]));
                let k = choose|k: int| 0 <= k < b0.len() && b0[k] == sv[c];
                assert(infos_of(b0)[k] == w.types_of(e)[c]);
            }
            assert(forall|a2: int|
                0 <= a2 < old(self).n_archetypes() ==> #[trigger] w.arch(a2).types_seq()
                    == old(self).arch(a2).types_seq());
            if w.n_archetypes() == old(self).n_archetypes() + 1 {
                assert(w.arch(old(self).n_archetypes()).types_seq() == infos_of(sv));
            }
        }
        Ok(())
    }
}

impl World {
    /// A copy of the bytes of entity's component of type id `t`.
    ///
    /// Reads hand out copies rather than guarded references: with the world
    /// behind `&self`/`&mut self`, aliasing into the columns is ruled out
    /// statically, so no dynamic per-column borrow count is needed.
    pub fn get(&self, entity: Entity, t: u64) -> (r: Result<Vec<u8>, ComponentError>)
        requires
            self.wf(),
        ensures
            match r {
                Ok(v) => self.live(entity) && self.value(entity, t) == Some(v@),
                Err(ComponentError::NoSuchEntity) => !self.live(entity),
                Err(ComponentError::MissingComponent(t2)) => t2 == t && self.live(entity)
                    && self.value(entity, t) == None::<Seq<u8>>,
            },
    {
        let l = match self.entities.get_location(entity) {
            None => {
                return Err(ComponentError::NoSuchEntity);
            },
            Some(l) => l,
        };
        proof {
            assert(self.entities.id_live(entity.id as int));
        }
        let arch = &self.archetypes[l.archetype];
        match arch.find_col(t) {
            None => Err(ComponentError::MissingComponent(t)),
            Some(c) => Ok(arch.cell_bytes(c, l.index)),
        }
    }

    /// Like `get`, and additionally raises the component's mutated bit: the
    /// caller intends to write the component back through `insert`.
    pub fn get_mut(&mut self, entity: Entity, t: u64) -> (r: Result<Vec<u8>, ComponentError>)
        requires
            old(self).wf(),
        ensures
            final(self).wf(),
            match r {
                Ok(v) => old(self).live(entity) && old(self).value(entity, t) == Some(v@)
                    && final(self).mutated_flag(entity, t),
                Err(ComponentError::NoSuchEntity) => !old(self).live(entity) && *final(self)
                    == *old(self),
                Err(ComponentError::MissingComponent(t2)) => t2 == t && old(self).live(entity)
                    && old(self).value(entity, t) == None::<Seq<u8>> && *final(self) == *old(self),
            },
            forall|e2: Entity| final(self).live(e2) <==> old(self).live(e2),
            forall|e2: Entity, t2: u64|
                #[trigger] final(self).value(e2, t2) == old(self).value(e2, t2),
            forall|e2: Entity, t2: u64|
                #[trigger] final(self).added_flag(e2, t2) == old(self).added_flag(e2, t2),
            forall|e2: Entity, t2: u64|
                !(e2 == entity && t2 == t) ==> #[trigger] final(self).mutated_flag(e2, t2) == old(self).mutated_flag(e2, t2),
            forall|t2: u64| final(self).removed_log(t2) == old(self).removed_log(t2),
            final(self).archetype_generation == old(self).archetype_generation,
            final(self).entities == old(self).entities,
            forall|ids: Set<u64>|
                final(self).has_archetype(ids) <==> old(self).has_archetype(ids),
    {
        let l = match self.entities.get_location(entity) {
            None => {
                return Err(ComponentError::NoSuchEntity);
            },
            Some(l) => l,
        };
        proof {
            assert(self.entities.id_live(entity.id as int));
        }
        let c = match self.archetypes[l.archetype].find_col(t) {
            None => {
                return Err(ComponentError::MissingComponent(t));
            },
            Some(c) => c,
        };
        let bytes = self.archetypes[l.archetype].cell_bytes(c, l.index);
        {
            let arch = &mut self.archetypes[l.archetype];
            arch.mark_mutated(c, l.index);
        }
        proof {
            let w = *self;
            let ai = l.archetype as int;
            assert(forall|a2: int|
                0 <= a2 < w.n_archetypes() && a2 != ai ==> w.arch(a2) == old(self).arch(a2));
            assert(w.entities == old(self).entities);
            assert(w.inv_directory()) by {
                assert forall|id: int| #[trigger] w.entities.id_live(id) implies (w.entities.loc(
                    id,
                ).archetype as int) < w.n_archetypes() && (w.entities.loc(id).index as int)
                    < w.arch(w.entities.loc(id).archetype as int).rows() && w.arch(
                    w.entities.loc(id).archetype as int,
                ).entity_at(w.entities.loc(id).index as int) as int == id by {
                    assert(old(self).entities.id_live(id));
                    let l2 = w.entities.loc(id);
                    if l2.archetype as int == ai {
                        assert(w.arch(ai).entities@ == old(self).arch(ai).entities@);
                    }
                }
            }
            assert(w.inv_rows()) by {
                assert forall|a2: int, r: int|
                    0 <= a2 < w.n_archetypes() && 0 <= r < w.arch(a2).rows() implies
                    w.entities.id_live((#[trigger] w.arch(a2).entity_at(r)) as int)
                        && w.entities.loc(w.arch(a2).entity_at(r) as int).archetype as int == a2
                        && w.entities.loc(w.arch(a2).entity_at(r) as int).index as int == r by {
                    assert(w.arch(a2).entity_at(r) == old(self).arch(a2).entity_at(r));
                }
            }
            assert(w.inv_index()) by {
                assert(forall|a2: int|
                    0 <= a2 < w.n_archetypes() ==> #[trigger] w.arch(a2).types_seq() == old(self).arch(a2).types_seq());
            }
            assert(w.inv_global_types()) by {
                assert forall|a1: int, c1: int, a2: int, c2: int|
                    0 <= a1 < w.n_archetypes() && 0 <= c1 < w.arch(a1).ncols() && 0 <= a2
                        < w.n_archetypes() && 0 <= c2 < w.arch(a2).ncols() && (#[trigger] w.arch(
                    a1,
                ).type_at(c1)).id == (#[trigger] w.arch(a2).type_at(c2)).id implies w.arch(
                    a1,
                ).type_at(c1) == w.arch(a2).type_at(c2) by {
                    assert(w.arch(a1).types_seq() == old(self).arch(a1).types_seq());
                    assert(w.arch(a2).types_seq() == old(self).arch(a2).types_seq());
                    assert(w.arch(a1).type_at(c1) == old(self).arch(a1).type_at(c1));
                    assert(w.arch(a2).type_at(c2) == old(self).arch(a2).type_at(c2));
                }
            }
            assert(w.wf());
            assert(w.mutated_flag(entity, t)) by {
                old(self).arch(ai).lemma_col_of(t);
            }
            assert forall|e2: Entity, t2: u64| #[trigger] w.value(e2, t2) == old(self).value(
                e2,
                t2,
            ) by {
                if old(self).live(e2) {
                    let l2 = old(self).entities.loc(e2.id as int);
                    assert(old(self).entities.id_live(e2.id as int));
                    if l2.archetype as int == ai {
                        if old(self).arch(ai).has(t2) {
                            old(self).arch(ai).lemma_col_of(t2);
                        }
                    } else {
                        assert(w.arch(l2.archetype as int) == old(self).arch(l2.archetype as int));
                    }
                }
            }
            assert forall|e2: Entity, t2: u64| #[trigger] w.added_flag(e2, t2) == old(self).added_flag(e2, t2) by {
                if old(self).live(e2) {
                    let l2 = old(self).entities.loc(e2.id as int);
                    assert(old(self).entities.id_live(e2.id as int));
                    if l2.archetype as int != ai {
                        assert(w.arch(l2.archetype as int) == old(self).arch(l2.archetype as int));
                    }
                }
            }
            assert forall|e2: Entity, t2: u64|
                !(e2 == entity && t2 == t) implies #[trigger] w.mutated_flag(e2, t2) == old(self).mutated_flag(e2, t2) by {
                if old(self).live(e2) {
                    let l2 = old(self).entities.loc(e2.id as int);
                    assert(old(self).entities.id_live(e2.id as int));
                    if l2.archetype as int == ai {
                        if old(self).arch(ai).has(t2) {
                            old(self).arch(ai).lemma_col_of(t2);
                            let c2 = old(self).arch(ai).col_of(t2);
                            if e2.id == entity.id {
                                assert(e2 == entity);
                                assert(t2 != t);
                                old(self).arch(ai).lemma_col_of(t);
                                assert(c2 != c as int);
                            } else {
                                assert(l2.index as int != l.index as int) by {
                                    if l2.index as int == l.index as int {
                                        assert(old(self).arch(ai).entity_at(
                                            l2.index as int,
                                        ) as int == e2.id as int);
                                        assert(old(self).arch(ai).entity_at(
                                            l.index as int,
                                        ) as int == entity.id as int);
                                    }
                                }
                            }
                        }
                    } else {
                        assert(w.arch(l2.archetype as int) == old(self).arch(l2.archetype as int));
                    }
                }
            }
            assert forall|ids: Set<u64>|
                w.has_archetype(ids) <==> old(self).has_archetype(ids) by {
                assert(forall|a2: int|
                    0 <= a2 < w.n_archetypes() ==> #[trigger] w.arch(a2).types_seq() == old(self).arch(a2).types_seq());
                if w.has_archetype(ids) {
                    let a2 = choose|a2: int|
                        0 <= a2 < w.n_archetypes() && id_set(w.arch(a2).types_seq()) == ids;
                    assert(id_set(old(self).arch(a2).types_seq()) == ids);
                }
                if old(self).has_archetype(ids) {
                    let a2 = choose|a2: int|
                        0 <= a2 < old(self).n_archetypes() && id_set(
                            old(self).arch(a2).types_seq(),
                        ) == ids;
                    assert(id_set(w.arch(a2).types_seq()) == ids);
                }
            }
        }
        Ok(bytes)
    }
}

impl World {
    /// A world that differs only in its removal log keeps its invariant,
    /// every entity view, and its stored component sets.
    proof fn lemma_log_only_differs(w1: World, w2: World)
        requires
            w1.wf(),
            w2.entities == w1.entities,
            w2.index == w1.index,
            w2.archetypes == w1.archetypes,
            w2.archetype_generation == w1.archetype_generation,
            log_keys_distinct(w2.removed_components@),
        ensures
            w2.wf(),
            forall|e: Entity| Self::same_entity_view(w1, w2, e),
            forall|ids: Set<u64>| w2.has_archetype(ids) <==> w1.has_archetype(ids),
    {
        assert(w2.n_archetypes() == w1.n_archetypes());
        assert(forall|a: int| 0 <= a < w2.n_archetypes() ==> #[trigger] w2.arch(a) == w1.arch(a));
        assert forall|id: int| #[trigger] w2.entities.id_live(id) implies (w2.entities.loc(
            id,
        ).archetype as int) < w2.n_archetypes() && (w2.entities.loc(id).index as int) < w2.arch(
            w2.entities.loc(id).archetype as int,
        ).rows() && w2.arch(w2.entities.loc(id).archetype as int).entity_at(
            w2.entities.loc(id).index as int,
        ) as int == id by {
            assert(w1.entities.id_live(id));
        }
        assert forall|a2: int, r: int|
            0 <= a2 < w2.n_archetypes() && 0 <= r < w2.arch(a2).rows() implies w2.entities.id_live(
            (#[trigger] w2.arch(a2).entity_at(r)) as int,
        ) && w2.entities.loc(w2.arch(a2).entity_at(r) as int).archetype as int == a2
            && w2.entities.loc(w2.arch(a2).entity_at(r) as int).index as int == r by {
            assert(w2.arch(a2).entity_at(r) == w1.arch(a2).entity_at(r));
        }
        assert forall|a2: int| 0 <= a2 < w2.n_archetypes() implies index_view(
            w2.index,
        ).dom().contains(#[trigger] ids_of(w2.arch(a2).types_seq())) && index_view(
            w2.index,
        )[ids_of(w2.arch(a2).types_seq())] as int == a2 by {
            assert(w2.arch(a2).types_seq() == w1.arch(a2).types_seq());
        }
        assert forall|k: Seq<u64>| #[trigger] index_view(w2.index).dom().contains(k) implies {
            let a2 = index_view(w2.index)[k] as int;
            0 <= a2 < w2.n_archetypes() && ids_of(w2.arch(a2).types_seq()) == k
        } by {
            assert(index_view(w1.index).dom().contains(k));
        }
        assert forall|a1: int, c1: int, a2: int, c2: int|
            0 <= a1 < w2.n_archetypes() && 0 <= c1 < w2.arch(a1).ncols() && 0 <= a2
                < w2.n_archetypes() && 0 <= c2 < w2.arch(a2).ncols() && (#[trigger] w2.arch(
            a1,
        ).type_at(c1)).id == (#[trigger] w2.arch(a2).type_at(c2)).id implies w2.arch(a1).type_at(
            c1,
        ) == w2.arch(a2).type_at(c2) by {
            assert(w2.arch(a1).type_at(c1) == w1.arch(a1).type_at(c1));
            assert(w2.arch(a2).type_at(c2) == w1.arch(a2).type_at(c2));
        }
        assert(w2.arch(0).types_seq() == w1.arch(0).types_seq());
        assert(w2.wf());
        assert forall|e: Entity| Self::same_entity_view(w1, w2, e) by {
            assert(w1.live(e) <==> w2.live(e));
            assert forall|t: u64| #[trigger] w1.value(e, t) == w2.value(e, t) by {
                if w1.live(e) {
                    assert(w2.arch(w1.arch_index_of(e)) == w1.arch(w1.arch_index_of(e)));
                }
            }
            assert forall|t: u64| #[trigger] w1.added_flag(e, t) == w2.added_flag(e, t) by {
                if w1.live(e) {
                    assert(w2.arch(w1.arch_index_of(e)) == w1.arch(w1.arch_index_of(e)));
                }
            }
            assert forall|t: u64| #[trigger] w1.mutated_flag(e, t) == w2.mutated_flag(e, t) by {
                if w1.live(e) {
                    assert(w2.arch(w1.arch_index_of(e)) == w1.arch(w1.arch_index_of(e)));
                }
            }
        }
        assert forall|ids: Set<u64>| w2.has_archetype(ids) <==> w1.has_archetype(ids) by {
            if w2.has_archetype(ids) {
                let a2 = choose|a2: int|
                    0 <= a2 < w2.n_archetypes() && id_set(w2.arch(a2).types_seq()) == ids;
                assert(id_set(w1.arch(a2).types_seq()) == ids);
            }
            if w1.has_archetype(ids) {
                let a2 = choose|a2: int|
                    0 <= a2 < w1.n_archetypes() && id_set(w1.arch(a2).types_seq()) == ids;
                assert(id_set(w2.arch(a2).types_seq()) == ids);
            }
        }
    }

    /// Destroy an entity and all its components.
    ///
    /// The entity's slot generation is bumped, so stale handles with its id
    /// are rejected from then on; the entity is appended to the removal log of
    /// every component type it had. No other entity's view changes, though the
    /// archetype's last row is swapped into the freed row.
    #[verifier::rlimit(100)]
    pub fn despawn(&mut self, entity: Entity) -> (r: Result<(), NoSuchEntity>)
        requires
            old(self).wf(),
        ensures
            final(self).wf(),
            match r {
                Ok(u) => old(self).live(entity),
                Err(err) => !old(self).live(entity) && *final(self) == *old(self),
            },
            old(self).live(entity) ==> {
                &&& forall|e2: Entity| e2.id == entity.id ==> !final(self).live(e2)
                &&& forall|e2: Entity|
                    e2.id != entity.id ==> (final(self).live(e2) <==> old(self).live(e2))
                &&& forall|e2: Entity|
                    e2 != entity ==> Self::same_entity_view(*old(self), *final(self), e2)
                &&& final(self).entities.slot(entity.id as int).generation != entity.generation
                &&& final(self).entities.n_slots() == old(self).entities.n_slots()
                &&& final(self).entities.free@ == old(self).entities.free@.push(entity.id)
                &&& final(self).entities.can_alloc()
                &&& forall|t: u64|
                    final(self).removed_log(t) == if has_id(old(self).types_of(entity), t) {
                        old(self).removed_log(t).push(entity)
                    } else {
                        old(self).removed_log(t)
                    }
                &&& final(self).archetype_generation == old(self).archetype_generation
                &&& forall|ids: Set<u64>|
                    final(self).has_archetype(ids) <==> old(self).has_archetype(ids)
                &&& final(self).n_archetypes() == old(self).n_archetypes()
                &&& final(self).index == old(self).index
                &&& final(self).arch(old(self).arch_index_of(entity)).rows() == old(self).arch(
                    old(self).arch_index_of(entity),
                ).rows() - 1
                &&& forall|a2: int|
                    0 <= a2 < old(self).n_archetypes() && a2 != old(self).arch_index_of(entity)
                        ==> final(self).arch(a2).rows() == old(self).arch(a2).rows()
                &&& forall|a2: int|
                    0 <= a2 < old(self).n_archetypes() ==> #[trigger] final(self).arch(
                        a2,
                    ).types_seq() == old(self).arch(a2).types_seq()
                &&& old(self).row_of(entity) != old(self).arch(
                    old(self).arch_index_of(entity),
                ).rows() - 1 ==> {
                    let mid = old(self).arch(old(self).arch_index_of(entity)).entity_at(
                        old(self).arch(old(self).arch_index_of(entity)).rows() - 1,
                    );
                    &&& final(self).entities.id_live(mid as int)
                    &&& final(self).entities.loc(mid as int).archetype as int == old(self).arch_index_of(entity)
                    &&& final(self).entities.loc(mid as int).index as int == old(self).row_of(
                        entity,
                    )
                }
            },
    {
        let l = match self.entities.free_entity(entity) {
            None => {
                return Err(NoSuchEntity);
            },
            Some(l) => l,
        };
        let ghost w0 = *old(self);
        let ghost w1 = *self;
        proof {
            assert(w0.live(entity));
            assert(w0.entities.id_live(entity.id as int));
            assert(l == w0.entities.loc(entity.id as int));
            assert((l.archetype as int) < w0.n_archetypes());
            assert((l.index as int) < w0.arch(l.archetype as int).rows());
        }
        let ghost ai = l.archetype as int;
        let ghost ri = l.index as int;
        let ghost old_rows = w0.arch(ai).rows();
        let ghost mid_g = w0.arch(ai).entity_at(old_rows - 1);
        let moved;
        {
            let arch = &mut self.archetypes[l.archetype];
            moved = arch.swap_remove_row(l.index);
        }
        let ghost w2 = *self;
        proof {
            assert(w2.entities == w1.entities);
            assert(forall|a2: int|
                0 <= a2 < w2.n_archetypes() && a2 != ai ==> w2.arch(a2) == w0.arch(a2));
            if ri != old_rows - 1 {
                assert(moved == Some(mid_g));
                assert(w0.entities.id_live(mid_g as int));
                assert(w0.entities.loc(mid_g as int).index as int == old_rows - 1);
                assert(mid_g != entity.id) by {
                    if mid_g == entity.id {
                        assert(w0.entities.loc(entity.id as int).index as int == ri);
                    }
                }
                assert(w2.entities.slot(mid_g as int) == w0.entities.slot(mid_g as int));
                assert(w2.entities.id_live(mid_g as int));
            } else {
                assert(moved == None::<u32>);
            }
        }
        match moved {
            Some(mid) => {
                self.entities.fix_row(mid, l.index);
            },
            None => {},
        }
        let ghost w3 = *self;
        proof {
            let w = w3;
            assert(w.n_archetypes() == w0.n_archetypes());
            assert(forall|a2: int|
                0 <= a2 < w.n_archetypes() && a2 != ai ==> w.arch(a2) == w0.arch(a2));
            assert(forall|a2: int|
                0 <= a2 < w.n_archetypes() ==> #[trigger] w.arch(a2).types_seq() == w0.arch(
                    a2,
                ).types_seq());
            assert(w.arch(ai).rows() == old_rows - 1);
            // which slots changed: entity's (freed) and possibly the moved one
            assert forall|id: int|
                0 <= id < w.entities.n_slots() && id != entity.id as int && id != mid_g as int
                    implies w.entities.slot(id) == w0.entities.slot(id) by {}
            // the directory invariant
            assert forall|id: int| #[trigger] w.entities.id_live(id) implies (w.entities.loc(
                id,
            ).archetype as int) < w.n_archetypes() && (w.entities.loc(id).index as int) < w.arch(
                w.entities.loc(id).archetype as int,
            ).rows() && w.arch(w.entities.loc(id).archetype as int).entity_at(
                w.entities.loc(id).index as int,
            ) as int == id by {
                if ri != old_rows - 1 && id == mid_g as int {
                    assert(w.entities.loc(id) == Location { archetype: l.archetype, index: l.index });
                    assert(w.arch(ai).entity_at(ri) as int == mid_g as int);
                } else {
                    assert(id != entity.id as int);
                    assert(w.entities.slot(id) == w0.entities.slot(id));
                    assert(w0.entities.id_live(id));
                    let l2 = w0.entities.loc(id);
                    if l2.archetype as int == ai {
                        assert(w0.arch(ai).entity_at(l2.index as int) as int == id);
                        assert(l2.index as int != ri) by {
                            if l2.index as int == ri {
                                assert(w0.arch(ai).entity_at(ri) as int == entity.id as int);
                            }
                        }
                        assert(l2.index as int != old_rows - 1) by {
                            if l2.index as int == old_rows - 1 {
                                assert(id == mid_g as int);
                                assert(ri != old_rows - 1 || ri == old_rows - 1);
                                if ri != old_rows - 1 {
                                    assert(w.entities.loc(mid_g as int).index as int == ri);
                                } else {
                                    assert(false);
                                }
                            }
                        }
                        assert(w.arch(ai).entity_at(l2.index as int) == w0.arch(ai).entity_at(
                            l2.index as int,
                        ));
                    } else {
                        assert(w.arch(l2.archetype as int) == w0.arch(l2.archetype as int));
                    }
                }
            }
            assert(w.inv_directory());
            // the rows invariant
            assert forall|a2: int, r: int|
                0 <= a2 < w.n_archetypes() && 0 <= r < w.arch(a2).rows() implies
                w.entities.id_live((#[trigger] w.arch(a2).entity_at(r)) as int) && w.entities.loc(
                w.arch(a2).entity_at(r) as int,
            ).archetype as int == a2 && w.entities.loc(w.arch(a2).entity_at(r) as int).index as int
                == r by {
                if a2 == ai && r == ri && ri < old_rows - 1 {
                    assert(moved == Some(mid_g));
                    assert(w.arch(ai).entity_at(r) == mid_g);
                } else {
                    assert(w.arch(a2).entity_at(r) == w0.arch(a2).entity_at(r));
                    let id = w0.arch(a2).entity_at(r);
                    assert(w0.entities.id_live(id as int));
                    assert(w0.entities.loc(id as int).archetype as int == a2);
                    assert(w0.entities.loc(id as int).index as int == r);
                    assert(id != entity.id) by {
                        if id == entity.id {
                            assert(a2 == ai && r == ri);
                        }
                    }
                    assert(id as int != entity.id as int);
                    if ri != old_rows - 1 && id == mid_g {
                        assert(w0.entities.loc(id as int).archetype as int == ai);
                        assert(w0.entities.loc(id as int).index as int == old_rows - 1);
                        assert(a2 == ai && r == old_rows - 1);
                        assert(false);
                    }
                    assert(w.entities.slot(id as int) == w0.entities.slot(id as int));
                }
            }
            assert(w.inv_rows());
            assert(w.inv_index()) by {
                assert forall|a2: int| 0 <= a2 < w.n_archetypes() implies index_view(
                    w.index,
                ).dom().contains(#[trigger] ids_of(w.arch(a2).types_seq())) && index_view(
                    w.index,
                )[ids_of(w.arch(a2).types_seq())] as int == a2 by {
                    assert(w.arch(a2).types_seq() == w0.arch(a2).types_seq());
                }
            }
            assert(w.inv_global_types()) by {
                assert forall|a1: int, c1: int, a2: int, c2: int|
                    0 <= a1 < w.n_archetypes() && 0 <= c1 < w.arch(a1).ncols() && 0 <= a2
                        < w.n_archetypes() && 0 <= c2 < w.arch(a2).ncols() && (#[trigger] w.arch(
                    a1,
                ).type_at(c1)).id == (#[trigger] w.arch(a2).type_at(c2)).id implies w.arch(
                    a1,
                ).type_at(c1) == w.arch(a2).type_at(c2) by {
                    assert(w.arch(a1).type_at(c1) == w0.arch(a1).type_at(c1));
                    assert(w.arch(a2).type_at(c2) == w0.arch(a2).type_at(c2));
                }
            }
            assert(w.wf());
            // no other entity's view changes
            assert forall|e2: Entity| e2 != entity implies Self::same_entity_view(
                w0,
                w,
                e2,
            ) by {
                if e2.id == entity.id {
                    assert(!w0.live(e2));
                    assert(!w.live(e2));
                } else {
                    if ri != old_rows - 1 && e2.id == mid_g {
                        assert(w.entities.slot(e2.id as int).live == w0.entities.slot(
                            e2.id as int,
                        ).live);
                        assert(w.entities.slot(e2.id as int).generation == w0.entities.slot(
                            e2.id as int,
                        ).generation);
                    } else {
                        assert(w.entities.slot(e2.id as int) == w0.entities.slot(e2.id as int)
                            || e2.id as int >= w.entities.n_slots());
                    }
                    assert(w.live(e2) <==> w0.live(e2));
                    if w0.live(e2) {
                        let l2 = w0.entities.loc(e2.id as int);
                        assert(w0.entities.id_live(e2.id as int));
                        if ri != old_rows - 1 && e2.id == mid_g {
                            // its row moved; its bytes moved with it
                            assert(l2.archetype as int == ai && l2.index as int == old_rows - 1);
                            assert(w.entities.loc(e2.id as int).index as int == ri);
                            assert forall|t: u64| #[trigger] w0.value(e2, t) == w.value(e2, t)
                                && w0.added_flag(e2, t) == w.added_flag(e2, t) && w0.mutated_flag(
                                e2,
                                t,
                            ) == w.mutated_flag(e2, t) by {
                                if w0.arch(ai).has(t) {
                                    w0.arch(ai).lemma_col_of(t);
                                    let c = w0.arch(ai).col_of(t);
                                    assert(w.arch(ai).cell(c, ri) == w0.arch(ai).cell(
                                        c,
                                        old_rows - 1,
                                    ));
                                }
                            }
                        } else {
                            assert(w.entities.loc(e2.id as int) == l2);
                            assert forall|t: u64| #[trigger] w0.value(e2, t) == w.value(e2, t)
                                && w0.added_flag(e2, t) == w.added_flag(e2, t) && w0.mutated_flag(
                                e2,
                                t,
                            ) == w.mutated_flag(e2, t) by {
                                if l2.archetype as int == ai {
                                    assert(w0.arch(ai).entity_at(l2.index as int) as int
                                        == e2.id as int);
                                    assert(l2.index as int != ri);
                                    assert(l2.index as int != old_rows - 1) by {
                                        if l2.index as int == old_rows - 1 {
                                            assert(e2.id == mid_g);
                                            assert(ri == old_rows - 1);
                                            assert(false);
                                        }
                                    }
                                    if w0.arch(ai).has(t) {
                                        w0.arch(ai).lemma_col_of(t);
                                        let c = w0.arch(ai).col_of(t);
                                        assert(w.arch(ai).cell(c, l2.index as int) == w0.arch(
                                            ai,
                                        ).cell(c, l2.index as int));
                                    }
                                } else {
                                    assert(w.arch(l2.archetype as int) == w0.arch(
                                        l2.archetype as int,
                                    ));
                                }
                            }
                        }
                    }
                }
            }
            assert forall|ids: Set<u64>|
                w.has_archetype(ids) <==> w0.has_archetype(ids) by {
                if w.has_archetype(ids) {
                    let a2 = choose|a2: int|
                        0 <= a2 < w.n_archetypes() && id_set(w.arch(a2).types_seq()) == ids;
                    assert(id_set(w0.arch(a2).types_seq()) == ids);
                }
                if w0.has_archetype(ids) {
                    let a2 = choose|a2: int|
                        0 <= a2 < w0.n_archetypes() && id_set(w0.arch(a2).types_seq()) == ids;
                    assert(id_set(w.arch(a2).types_seq()) == ids);
                }
            }
        }
        // log the removal of each of the entity's component types
        let ghost tys = w0.types_of(entity);
        let nt = self.archetypes[l.archetype].types.len();
        proof {
            assert(nt == tys.len());
            assert(strictly_sorted(tys));
        }
        let mut c: usize = 0;
        while c < nt
            invariant
                c <= nt,
                nt == tys.len(),
                strictly_sorted(tys),
                (l.archetype as int) < self.n_archetypes(),
                self.entities == w3.entities,
                self.index == w3.index,
                self.archetypes == w3.archetypes,
                self.archetype_generation == w3.archetype_generation,
                self.arch(l.archetype as int).types_seq() == tys,
                log_keys_distinct(self.removed_components@),
                forall|t: u64|
                    (exists|k: int| 0 <= k < c && tys[k].id == t) ==> log_get(
                        self.removed_components@,
                        t,
                    ) == log_get(w3.removed_components@, t).push(entity),
                forall|t: u64|
                    !(exists|k: int| 0 <= k < c && tys[k].id == t) ==> log_get(
                        self.removed_components@,
                        t,
                    ) == log_get(w3.removed_components@, t),
            decreases nt - c,
        {
            let t = self.archetypes[l.archetype].types[c].id;
            proof {
                assert(tys[c as int].id == t);
                assert(!(exists|k: int| 0 <= k < c && tys[k].id == t)) by {
                    if exists|k: int| 0 <= k < c && tys[k].id == t {
                        let k = choose|k: int| 0 <= k < c && tys[k].id == t;
                        assert(tys[k].id < tys[c as int].id);
                    }
                }
            }
            log_push(&mut self.removed_components, t, entity);
            proof {
                assert forall|t2: u64| (exists|k: int| 0 <= k < c + 1 && tys[k].id == t2)
                    implies log_get(self.removed_components@, t2) == log_get(
                    w3.removed_components@,
                    t2,
                ).push(entity) by {
                    let k = choose|k: int| 0 <= k < c + 1 && tys[k].id == t2;
                    if k == c as int {
                    } else {
                        assert(t2 != t) by {
                            if t2 == t {
                                assert(tys[k].id < tys[c as int].id);
                            }
                        }
                    }
                }
                assert forall|t2: u64| !(exists|k: int| 0 <= k < c + 1 && tys[k].id == t2)
                    implies log_get(self.removed_components@, t2) == log_get(
                    w3.removed_components@,
                    t2,
                ) by {
                    assert(t2 != t) by {
                        if t2 == t {
                            assert(0 <= c < c + 1 && tys[c as int].id == t2);
                        }
                    }
                }
            }
            c += 1;
        }
        proof {
            let w = *self;
            Self::lemma_log_only_differs(w3, w);
            assert(w.wf());
            assert forall|t: u64| w.removed_log(t) == (if has_id(tys, t) {
                w0.removed_log(t).push(entity)
            } else {
                w0.removed_log(t)
            }) by {
                if has_id(tys, t) {
                    let k = choose|k: int| 0 <= k < tys.len() && tys[k].id == t;
                    assert(exists|k2: int| 0 <= k2 < nt && tys[k2].id == t);
                }
            }
            // the view frame survives the log pushes: values ignore the log
            assert forall|e2: Entity| e2 != entity implies Self::same_entity_view(
                w0,
                w,
                e2,
            ) by {
                assert(Self::same_entity_view(w0, w3, e2));
                assert(w.entities == w3.entities);
                assert(w.archetypes == w3.archetypes);
                assert forall|t: u64| #[trigger] w0.value(e2, t) == w.value(e2, t) by {
                    assert(w0.value(e2, t) == w3.value(e2, t));
                }
                assert forall|t: u64| #[trigger] w0.added_flag(e2, t) == w.added_flag(e2, t) by {
                    assert(w0.added_flag(e2, t) == w3.added_flag(e2, t));
                }
                assert forall|t: u64| #[trigger] w0.mutated_flag(e2, t) == w.mutated_flag(
                    e2,
                    t,
                ) by {
                    assert(w0.mutated_flag(e2, t) == w3.mutated_flag(e2, t));
                }
            }
            assert forall|ids: Set<u64>|
                w.has_archetype(ids) <==> w0.has_archetype(ids) by {
                assert(w.has_archetype(ids) <==> w3.has_archetype(ids)) by {
                    if w.has_archetype(ids) {
                        let a2 = choose|a2: int|
                            0 <= a2 < w.n_archetypes() && id_set(w.arch(a2).types_seq()) == ids;
                        assert(id_set(w3.arch(a2).types_seq()) == ids);
                    }
                    if w3.has_archetype(ids) {
                        let a2 = choose|a2: int|
                            0 <= a2 < w3.n_archetypes() && id_set(w3.arch(a2).types_seq()) == ids;
                        assert(id_set(w.arch(a2).types_seq()) == ids);
                    }
                }
            }
        }
        Ok(())
    }
}

impl World {
    /// Whether every component type of the bundle is already on the entity.
    pub open spec fn bundle_subsumed(self, e: Entity, b: Seq<Component>) -> bool {
        forall|t: u64| bundle_has_id(b, t) ==> has_id(self.types_of(e), t)
    }

    /// Add `bundle`'s components to `entity`.
    ///
    /// Components the entity already has are overwritten in place: their
    /// mutated bit is raised, their added bit kept. Genuinely new components
    /// migrate the entity to the archetype of the united component set and are
    /// stored with both bits raised. No other entity's view changes.
    #[verifier::rlimit(100)]
    #[verifier::loop_isolation(false)]
    pub fn insert(&mut self, entity: Entity, bundle: Vec<Component>) -> (r: Result<
        (),
        NoSuchEntity,
    >)
        requires
            old(self).wf(),
            bundle_wf(bundle@),
            old(self).types_consistent(infos_of(bundle@)),
        ensures
            final(self).wf(),
            match r {
                Ok(u) => old(self).live(entity),
                Err(err) => !old(self).live(entity) && *final(self) == *old(self),
            },
            old(self).live(entity) ==> {
                &&& forall|e2: Entity| final(self).live(e2) <==> old(self).live(e2)
                &&& forall|k: int|
                    0 <= k < bundle@.len() ==> final(self).value(
                        entity,
                        (#[trigger] bundle@[k]).info.id,
                    ) == Some(bundle@[k].data@) && final(self).mutated_flag(
                        entity,
                        bundle@[k].info.id,
                    )
                &&& old(self).bundle_subsumed(entity, bundle@) ==> forall|k: int|
                    0 <= k < bundle@.len() ==> final(self).added_flag(
                        entity,
                        (#[trigger] bundle@[k]).info.id,
                    ) == old(self).added_flag(entity, bundle@[k].info.id)
                &&& !old(self).bundle_subsumed(entity, bundle@) ==> forall|k: int|
                    0 <= k < bundle@.len() ==> final(self).added_flag(
                        entity,
                        (#[trigger] bundle@[k]).info.id,
                    )
                &&& forall|t: u64|
                    !bundle_has_id(bundle@, t) ==> final(self).value(entity, t) == old(self).value(
                        entity,
                        t,
                    ) && final(self).added_flag(entity, t) == old(self).added_flag(entity, t)
                        && final(self).mutated_flag(entity, t) == old(self).mutated_flag(entity, t)
                &&& id_set(final(self).types_of(entity)) == id_set(
                    old(self).types_of(entity),
                ).union(bundle_id_set(bundle@))
                &&& old(self).bundle_subsumed(entity, bundle@) ==> final(self).arch_index_of(
                    entity,
                ) == old(self).arch_index_of(entity)
                &&& final(self).entities.n_slots() == old(self).entities.n_slots()
                &&& final(self).entities.free@ == old(self).entities.free@
                &&& forall|e2: Entity|
                    e2 != entity ==> Self::same_entity_view(*old(self), *final(self), e2)
                &&& forall|t: u64| final(self).removed_log(t) == old(self).removed_log(t)
                &&& final(self).archetype_generation as int == old(self).archetype_generation as int + (if old(self).has_archetype(
                    id_set(old(self).types_of(entity)).union(bundle_id_set(bundle@)),
                ) {
                    0int
                } else {
                    1int
                })
                &&& forall|ids: Set<u64>|
                    final(self).has_archetype(ids) <==> old(self).has_archetype(ids) || ids
                        == id_set(old(self).types_of(entity)).union(bundle_id_set(bundle@))
            },
    {
        let l = match self.entities.get_location(entity) {
            None => {
                return Err(NoSuchEntity);
            },
            Some(l) => l,
        };
        let ghost w0 = *old(self);
        let ghost b0 = bundle@;
        proof {
            assert(w0.entities.id_live(entity.id as int));
        }
        let src = l.archetype;
        let ghost ai = src as int;
        let ghost ri = l.index as int;
        let ghost src_types = w0.arch(ai).types_seq();
        let sorted = sort_bundle(bundle);
        let ghost sv = sorted@;
        proof {
            // sorted components are the bundle's
            assert forall|t: u64| bundle_has_id(sv, t) <==> bundle_has_id(b0, t) by {
                if bundle_has_id(sv, t) {
                    let k = choose|k: int| 0 <= k < sv.len() && sv[k].info.id == t;
                    assert(sv.contains(sv[k]));
                    let j = choose|j: int| 0 <= j < b0.len() && b0[j] == sv[k];
                }
                if bundle_has_id(b0, t) {
                    let k = choose|k: int| 0 <= k < b0.len() && b0[k].info.id == t;
                    assert(b0.contains(b0[k]));
                    let j = choose|j: int| 0 <= j < sv.len() && sv[j] == b0[k];
                }
            }
            assert(bundle_id_set(sv) =~= bundle_id_set(b0));
        }
        // the target component set: the entity's set united with the bundle's
        let mut target_types = copy_vec(&self.archetypes[src].types);
        let nk = sorted.len();
        let mut k: usize = 0;
        while k < nk
            invariant
                k <= nk,
                strictly_sorted(target_types@),
                forall|c2: int|
                    0 <= c2 < target_types@.len() ==> src_types.contains(#[trigger] target_types@[c2])
                        || infos_of(sv).contains(target_types@[c2]),
                forall|x: TypeInfo| src_types.contains(x) ==> target_types@.contains(x),
                forall|j: int| 0 <= j < k ==> has_id(target_types@, (#[trigger] sv[j]).info.id),
            decreases nk - k,
        {
            let t = sorted[k].info;
            match crate::types::find_id(&target_types, t.id) {
                Some(c) => {
                    proof {
                        assert(has_id(target_types@, sv[k as int].info.id));
                    }
                },
                None => {
                    proof {
                        assert(!has_id(target_types@, t.id));
                    }
                    let ghost before = target_types@;
                    crate::types::sorted_insert_info(&mut target_types, t);
                    proof {
                        assert forall|c2: int|
                            0 <= c2 < target_types@.len() implies src_types.contains(
                            #[trigger] target_types@[c2],
                        ) || infos_of(sv).contains(target_types@[c2]) by {
                            assert(target_types@.contains(target_types@[c2]));
                            if target_types@[c2] == t {
                                assert(infos_of(sv)[k as int] == t);
                            } else {
                                assert(before.contains(target_types@[c2]));
                                let c3 = choose|c3: int|
                                    0 <= c3 < before.len() && before[c3] == target_types@[c2];
                            }
                        }
                        assert forall|x: TypeInfo| src_types.contains(x)
                            implies target_types@.contains(x) by {
                            assert(before.contains(x));
                        }
                        assert(has_id(target_types@, sv[k as int].info.id));
                    }
                },
            }
            k += 1;
        }
        let ghost tt = target_types@;
        proof {
            assert(k == nk);
            // membership of the union set, by ids
            assert forall|t: u64| has_id(tt, t) <==> has_id(src_types, t) || bundle_has_id(
                sv,
                t,
            ) by {
                if has_id(tt, t) {
                    let c = choose|c: int| 0 <= c < tt.len() && tt[c].id == t;
                    if src_types.contains(tt[c]) {
                        let c2 = choose|c2: int| 0 <= c2 < src_types.len() && src_types[c2] == tt[c];
                        assert(has_id(src_types, t));
                    } else {
                        assert(infos_of(sv).contains(tt[c]));
                        let j = choose|j: int|
                            0 <= j < infos_of(sv).len() && infos_of(sv)[j] == tt[c];
                        assert(sv[j].info.id == t);
                        assert(bundle_has_id(sv, t));
                    }
                }
                if has_id(src_types, t) {
                    let c = choose|c: int| 0 <= c < src_types.len() && src_types[c].id == t;
                    assert(src_types.contains(src_types[c]));
                    assert(tt.contains(src_types[c]));
                    let c2 = choose|c2: int| 0 <= c2 < tt.len() && tt[c2] == src_types[c];
                    assert(has_id(tt, t));
                }
                if bundle_has_id(sv, t) {
                    let j = choose|j: int| 0 <= j < sv.len() && sv[j].info.id == t;
                    assert(has_id(tt, sv[j].info.id));
                }
            }
            assert(id_set(tt) =~= id_set(src_types).union(bundle_id_set(b0)));
            // the target set is consistent with the stored descriptions
            assert forall|a2: int, c2: int, k2: int|
                0 <= a2 < w0.n_archetypes() && 0 <= c2 < w0.arch(a2).ncols() && 0 <= k2 < tt.len()
                    && (#[trigger] w0.arch(a2).type_at(c2)).id == (#[trigger] tt[k2]).id
                implies w0.arch(a2).type_at(c2) == tt[k2] by {
                assert(tt.contains(tt[k2]));
                if src_types.contains(tt[k2]) {
                    let c3 = choose|c3: int| 0 <= c3 < src_types.len() && src_types[c3] == tt[k2];
                    assert(w0.arch(ai).type_at(c3) == tt[k2]);
                } else {
                    assert(infos_of(sv).contains(tt[k2]));
                    let j = choose|j: int| 0 <= j < infos_of(sv).len() && infos_of(sv)[j] == tt[k2];
                    assert(sv[j].info == tt[k2]);
                    assert(sv.contains(sv[j]));
                    assert(b0.contains(sv[j]));
                    let j2 = choose|j2: int| 0 <= j2 < b0.len() && b0[j2] == sv[j];
                    assert(infos_of(b0)[j2] == tt[k2]);
                }
            }
            // every element of the target set is the unique one of its id
            assert forall|x: TypeInfo| src_types.contains(x) implies tt.contains(x) by {}
        }
        let a = self.ensure_archetype(target_types);
        let ghost w1 = *self;
        proof {
            assert forall|e2: Entity| Self::same_entity_view(w0, w1, e2) by {
                assert(w1.entities == w0.entities);
                if w0.live(e2) {
                    assert(w0.entities.id_live(e2.id as int));
                    let l2 = w0.entities.loc(e2.id as int);
                    assert((l2.archetype as int) < w0.n_archetypes());
                    assert(w1.arch(l2.archetype as int) == w0.arch(l2.archetype as int));
                }
            }
            assert(w1.arch(ai) == w0.arch(ai));
        }
        if a == src {
            // the bundle only overwrites: update cells in place
            let mut comps = sorted;
            let ghost n = sv.len() as int;
            while comps.len() > 0
                invariant
                    comps@ == sv.take(comps@.len() as int),
                    comps@.len() <= n,
                    n == sv.len(),
                    bundle_wf(sv),
                    (ai) < self.n_archetypes(),
                    ri < self.arch(ai).rows(),
                    self.entities == w1.entities,
                    self.index == w1.index,
                    self.removed_components == w1.removed_components,
                    self.archetype_generation == w1.archetype_generation,
                    self.n_archetypes() == w1.n_archetypes(),
                    forall|a2: int|
                        0 <= a2 < self.n_archetypes() && a2 != ai ==> self.arch(a2) == w1.arch(a2),
                    self.arch(ai).wf(),
                    self.arch(ai).types_seq() == src_types,
                    self.arch(ai).rows() == w1.arch(ai).rows(),
                    self.arch(ai).entities@ == w1.arch(ai).entities@,
                    forall|c: int, r: int|
                        0 <= c < self.arch(ai).ncols() && 0 <= r < self.arch(ai).rows() && r != ri
                            ==> self.arch(ai).cell(c, r) == w1.arch(ai).cell(c, r) && self.arch(
                            ai,
                        ).added_bit(c, r) == w1.arch(ai).added_bit(c, r) && self.arch(
                            ai,
                        ).mutated_bit(c, r) == w1.arch(ai).mutated_bit(c, r),
                    forall|c: int|
                        0 <= c < self.arch(ai).ncols() && !(exists|j: int|
                            comps@.len() <= j < n && (#[trigger] sv[j]).info.id == src_types[c].id)
                            ==> self.arch(ai).cell(c, ri) == w1.arch(ai).cell(c, ri) && self.arch(
                            ai,
                        ).added_bit(c, ri) == w1.arch(ai).added_bit(c, ri) && self.arch(
                            ai,
                        ).mutated_bit(c, ri) == w1.arch(ai).mutated_bit(c, ri),
                    forall|j: int|
                        comps@.len() <= j < n ==> has_id(src_types, (#[trigger] sv[j]).info.id)
                            && self.arch(ai).cell(
                            self.arch(ai).col_of(sv[j].info.id),
                            ri,
                        ) == sv[j].data@ && self.arch(ai).added_bit(
                            self.arch(ai).col_of(sv[j].info.id),
                            ri,
                        ) == w1.arch(ai).added_bit(self.arch(ai).col_of(sv[j].info.id), ri)
                            && self.arch(ai).mutated_bit(self.arch(ai).col_of(sv[j].info.id), ri),
                decreases comps.len(),
            {
                let cl = comps.len() - 1;
                let comp = match comps.pop() {
                    Some(comp) => comp,
                    None => {
                        proof {
                            assert(false);
                        }
                        unreached()
                    },
                };
                proof {
                    assert(comp == sv[cl as int]);
                    assert(comps@ =~= sv.take(cl as int));
                }
                let c = match self.archetypes[src].find_col(comp.info.id) {
                    Some(c) => c,
                    None => {
                        proof {
                            // every bundle id is in the (equal) target set
                            assert(has_id(tt, sv[cl as int].info.id));
                            assert(src_types == tt) by {
                                assert(self.arch(ai).types_seq() == src_types);
                                assert(w1.arch(ai).types_seq() == tt);
                            }
                            assert(false);
                        }
                        unreached()
                    },
                };
                proof {
                    self.arch(ai).lemma_col_of(comp.info.id);
                    // sizes agree: the stored description equals the bundle's
                    assert(sv.contains(sv[cl as int]));
                    assert(b0.contains(sv[cl as int]));
                    let j2 = choose|j2: int| 0 <= j2 < b0.len() && b0[j2] == sv[cl as int];
                    assert(infos_of(b0)[j2] == sv[cl as int].info);
                    assert(w0.arch(ai).type_at(c as int) == sv[cl as int].info);
                    assert(comp.data@.len() == self.arch(ai).type_at(c as int).size);
                }
                let ghost before = *self;
                {
                    let arch = &mut self.archetypes[src];
                    arch.put(c, l.index, comp.data, false, true);
                }
                proof {
                    let ac = self.arch(ai);
                    assert forall|j: int|
                        cl as int <= j < n implies has_id(
                        src_types,
                        (#[trigger] sv[j]).info.id,
                    ) && ac.cell(ac.col_of(sv[j].info.id), ri) == sv[j].data@ && ac.added_bit(
                        ac.col_of(sv[j].info.id),
                        ri,
                    ) == w1.arch(ai).added_bit(ac.col_of(sv[j].info.id), ri) && ac.mutated_bit(
                        ac.col_of(sv[j].info.id),
                        ri,
                    ) by {
                        ac.lemma_col_of(sv[j].info.id);
                        if j == cl as int {
                            assert(ac.col_of(sv[j].info.id) == c as int);
                        } else {
                            let cj = ac.col_of(sv[j].info.id);
                            assert(cj != c as int) by {
                                if cj == c as int {
                                    assert(sv[j].info.id == sv[cl as int].info.id);
                                }
                            }
                            assert(before.arch(ai).col_of(sv[j].info.id) == cj) by {
                                before.arch(ai).lemma_col_of(sv[j].info.id);
                            }
                        }
                    }
                    assert forall|c2: int|
                        0 <= c2 < ac.ncols() && !(exists|j: int|
                            cl as int <= j < n && (#[trigger] sv[j]).info.id == src_types[c2].id)
                            implies ac.cell(c2, ri) == w1.arch(ai).cell(c2, ri) && ac.added_bit(
                        c2,
                        ri,
                    ) == w1.arch(ai).added_bit(c2, ri) && ac.mutated_bit(c2, ri) == w1.arch(
                        ai,
                    ).mutated_bit(c2, ri) by {
                        assert(c2 != c as int) by {
                            if c2 == c as int {
                                assert(sv[cl as int].info.id == src_types[c2].id);
                            }
                        }
                    }
                }
            }
            proof {
                let w = *self;
                assert(sv.take(0) =~= Seq::<Component>::empty());
                // the world invariant: only cells and bits changed
                assert(w.inv_directory()) by {
                    assert forall|id: int| #[trigger] w.entities.id_live(id) implies (
                    w.entities.loc(id).archetype as int) < w.n_archetypes() && (w.entities.loc(
                        id,
                    ).index as int) < w.arch(w.entities.loc(id).archetype as int).rows()
                        && w.arch(w.entities.loc(id).archetype as int).entity_at(
                        w.entities.loc(id).index as int,
                    ) as int == id by {
                        assert(w1.entities.id_live(id));
                        let l2 = w1.entities.loc(id);
                        if l2.archetype as int == ai {
                            assert(w.arch(ai).entities@ == w1.arch(ai).entities@);
                        }
                    }
                }
                assert(w.inv_rows()) by {
                    assert forall|a2: int, r: int|
                        0 <= a2 < w.n_archetypes() && 0 <= r < w.arch(a2).rows() implies
                        w.entities.id_live((#[trigger] w.arch(a2).entity_at(r)) as int)
                            && w.entities.loc(w.arch(a2).entity_at(r) as int).archetype as int
                            == a2 && w.entities.loc(w.arch(a2).entity_at(r) as int).index as int
                            == r by {
                        assert(w.arch(a2).entity_at(r) == w1.arch(a2).entity_at(r));
                    }
                }
                assert(w.inv_index()) by {
                    assert forall|a2: int| 0 <= a2 < w.n_archetypes() implies index_view(
                        w.index,
                    ).dom().contains(#[trigger] ids_of(w.arch(a2).types_seq())) && index_view(
                        w.index,
                    )[ids_of(w.arch(a2).types_seq())] as int == a2 by {
                        assert(w.arch(a2).types_seq() == w1.arch(a2).types_seq());
                    }
                }
                assert(w.inv_global_types()) by {
                    assert forall|a1: int, c1: int, a2: int, c2: int|
                        0 <= a1 < w.n_archetypes() && 0 <= c1 < w.arch(a1).ncols() && 0 <= a2
                            < w.n_archetypes() && 0 <= c2 < w.arch(a2).ncols() && (
                        #[trigger] w.arch(a1).type_at(c1)).id == (#[trigger] w.arch(a2).type_at(
                            c2,
                        )).id implies w.arch(a1).type_at(c1) == w.arch(a2).type_at(c2) by {
                        assert(w.arch(a1).type_at(c1) == w1.arch(a1).type_at(c1));
                        assert(w.arch(a2).type_at(c2) == w1.arch(a2).type_at(c2));
                    }
                }
                assert(w.arch(0).types_seq() == w1.arch(0).types_seq());
                assert(w.inv_archetypes()) by {
                    assert forall|a2: int| 0 <= a2 < w.n_archetypes() implies (#[trigger] w.arch(
                        a2,
                    )).wf() by {
                        if a2 != ai {
                            assert(w.arch(a2) == w1.arch(a2));
                        }
                    }
                }
                assert(w.wf());
                // the entity subsumes the bundle here: fast path taken
                assert(src_types == tt) by {
                    assert(w1.arch(ai).types_seq() == tt);
                }
                assert(w0.bundle_subsumed(entity, b0)) by {
                    assert forall|t: u64| bundle_has_id(b0, t) implies has_id(
                        w0.types_of(entity),
                        t,
                    ) by {
                        assert(bundle_has_id(sv, t));
                        assert(has_id(tt, t));
                    }
                }
                // the bundle's values landed, everything else kept
                assert forall|kk: int| 0 <= kk < b0.len() implies w.value(
                    entity,
                    (#[trigger] b0[kk]).info.id,
                ) == Some(b0[kk].data@) && w.mutated_flag(entity, b0[kk].info.id) && w.added_flag(
                    entity,
                    b0[kk].info.id,
                ) == w0.added_flag(entity, b0[kk].info.id) by {
                    assert(b0.contains(b0[kk]));
                    let j = choose|j: int| 0 <= j < sv.len() && sv[j] == b0[kk];
                    let t = b0[kk].info.id;
                    assert(sv[j].info.id == t);
                    assert(has_id(src_types, t));
                    assert(w.arch(ai).has(t));
                    w.arch(ai).lemma_col_of(t);
                    w1.arch(ai).lemma_col_of(t);
                    assert(w.arch(ai).col_of(t) == w1.arch(ai).col_of(t)) by {
                        assert(w.arch(ai).types_seq() == w1.arch(ai).types_seq());
                        assert(w.arch(ai).type_at(w.arch(ai).col_of(t)).id == t);
                    }
                    assert(w.value(entity, t) == Some(w.arch(ai).cell(w.arch(ai).col_of(t), ri)));
                    assert(w.arch(ai).cell(w.arch(ai).col_of(sv[j].info.id), ri) == sv[j].data@);
                }
                assert forall|t: u64| !bundle_has_id(b0, t) implies w.value(entity, t)
                    == w0.value(entity, t) && w.added_flag(entity, t) == w0.added_flag(entity, t)
                    && w.mutated_flag(entity, t) == w0.mutated_flag(entity, t) by {
                    assert(!bundle_has_id(sv, t));
                    if w0.arch(ai).has(t) {
                        w0.arch(ai).lemma_col_of(t);
                        let c = w0.arch(ai).col_of(t);
                        assert(w.arch(ai).col_of(t) == c) by {
                            w.arch(ai).lemma_col_of(t);
                            assert(w.arch(ai).type_at(w.arch(ai).col_of(t)).id == t);
                        }
                        assert(!(exists|j: int|
                            0 <= j < n && (#[trigger] sv[j]).info.id == src_types[c].id)) by {
                            if exists|j: int| 0 <= j < n && (#[trigger] sv[j]).info.id
                                == src_types[c].id {
                                let j = choose|j: int|
                                    0 <= j < n && (#[trigger] sv[j]).info.id == src_types[c].id;
                                assert(bundle_has_id(sv, t));
                            }
                        }
                        assert(w.arch(ai).cell(c, ri) == w1.arch(ai).cell(c, ri));
                    }
                }
                assert(src_types == tt) by {
                    assert(w1.arch(ai).types_seq() == tt);
                }
                assert(w.types_of(entity) == src_types);
                assert(id_set(tt) == id_set(src_types).union(bundle_id_set(b0))) by {
                    assert(id_set(tt) =~= id_set(src_types).union(bundle_id_set(b0)));
                }
                assert(id_set(w.types_of(entity)) == id_set(src_types).union(bundle_id_set(b0)));
                // other entities are untouched
                assert forall|e2: Entity| e2 != entity implies Self::same_entity_view(
                    w0,
                    w,
                    e2,
                ) by {
                    assert(Self::same_entity_view(w0, w1, e2));
                    assert(w.live(e2) <==> w1.live(e2));
                    assert forall|t: u64|
                        w1.value(e2, t) == w.value(e2, t) && w1.added_flag(e2, t) == w.added_flag(
                            e2,
                            t,
                        ) && #[trigger] w1.mutated_flag(e2, t) == w.mutated_flag(e2, t) by {
                        if w1.live(e2) {
                            let l2 = w1.entities.loc(e2.id as int);
                            assert(w1.entities.id_live(e2.id as int));
                            if l2.archetype as int == ai {
                                assert(l2.index as int != ri) by {
                                    if l2.index as int == ri {
                                        assert(w1.arch(ai).entity_at(ri) as int == e2.id as int);
                                        assert(w1.arch(ai).entity_at(ri) as int
                                            == entity.id as int);
                                    }
                                }
                                if w1.arch(ai).has(t) {
                                    w1.arch(ai).lemma_col_of(t);
                                    let c = w1.arch(ai).col_of(t);
                                    assert(w.arch(ai).col_of(t) == c) by {
                                        w.arch(ai).lemma_col_of(t);
                                        assert(w.arch(ai).type_at(w.arch(ai).col_of(t)).id == t);
                                    }
                                    assert(w.arch(ai).cell(c, l2.index as int) == w1.arch(
                                        ai,
                                    ).cell(c, l2.index as int));
                                }
                            } else {
                                assert(w.arch(l2.archetype as int) == w1.arch(l2.archetype as int));
                            }
                        } else {
                            assert(!w.live(e2));
                        }
                    }
                    assert forall|t: u64| #[trigger] w0.value(e2, t) == w.value(e2, t) by {
                        assert(w1.mutated_flag(e2, t) == w.mutated_flag(e2, t));
                        assert(w0.value(e2, t) == w1.value(e2, t));
                        assert(w1.value(e2, t) == w.value(e2, t));
                    }
                    assert forall|t: u64| #[trigger] w0.added_flag(e2, t) == w.added_flag(
                        e2,
                        t,
                    ) by {
                        assert(w1.mutated_flag(e2, t) == w.mutated_flag(e2, t));
                        assert(w0.added_flag(e2, t) == w1.added_flag(e2, t));
                        assert(w1.added_flag(e2, t) == w.added_flag(e2, t));
                    }
                    assert forall|t: u64| #[trigger] w0.mutated_flag(e2, t) == w.mutated_flag(
                        e2,
                        t,
                    ) by {
                        assert(w0.mutated_flag(e2, t) == w1.mutated_flag(e2, t));
                        assert(w1.mutated_flag(e2, t) == w.mutated_flag(e2, t));
                    }
                }
                // archetype bookkeeping
                assert(w.arch_index_of(entity) == w0.arch_index_of(entity));
                assert(forall|t: u64| w.removed_log(t) == w0.removed_log(t));
                assert(w.archetype_generation == w1.archetype_generation);
                assert(w0.has_archetype(id_set(tt))) by {
                    assert(id_set(w0.arch(ai).types_seq()) == id_set(tt)) by {
                        assert(id_set(src_types) =~= id_set(tt));
                    }
                }
                assert forall|ids: Set<u64>|
                    w.has_archetype(ids) <==> w0.has_archetype(ids) || ids == id_set(
                        src_types,
                    ).union(bundle_id_set(b0)) by {
                    assert(w.has_archetype(ids) <==> w1.has_archetype(ids)) by {
                        assert(forall|a2: int|
                            0 <= a2 < w.n_archetypes() ==> #[trigger] w.arch(a2).types_seq()
                                == w1.arch(a2).types_seq());
                        if w.has_archetype(ids) {
                            let a2 = choose|a2: int|
                                0 <= a2 < w.n_archetypes() && id_set(w.arch(a2).types_seq())
                                    == ids;
                            assert(id_set(w1.arch(a2).types_seq()) == ids);
                        }
                        if w1.has_archetype(ids) {
                            let a2 = choose|a2: int|
                                0 <= a2 < w1.n_archetypes() && id_set(w1.arch(a2).types_seq())
                                    == ids;
                            assert(id_set(w.arch(a2).types_seq()) == ids);
                        }
                    }
                    assert(id_set(tt) == id_set(src_types).union(bundle_id_set(b0)));
                }
            }
            return Ok(());
        }
        // migration: move the entity's row to the archetype of the union set
        proof {
            assert(a as int != ai);
            assert(w1.arch(a as int).types_seq() == tt);
            assert(w1.arch(ai).types_seq() == src_types);
            // had the entity's set subsumed the bundle, the lookup would have
            // found the source archetype itself
            assert(!w0.bundle_subsumed(entity, b0)) by {
                if w0.bundle_subsumed(entity, b0) {
                    assert forall|t: u64| has_id(tt, t) <==> has_id(src_types, t) by {
                        if bundle_has_id(sv, t) {
                            assert(bundle_has_id(b0, t));
                            assert(has_id(w0.types_of(entity), t));
                        }
                    }
                    assert(id_set(tt) =~= id_set(src_types));
                    assert(strictly_sorted(src_types));
                    crate::types::lemma_same_id_set_same_ids(tt, src_types);
                    assert(ids_of(w1.arch(a as int).types_seq()) == ids_of(
                        w1.arch(ai).types_seq(),
                    ));
                    assert(index_view(w1.index)[ids_of(w1.arch(a as int).types_seq())] as int
                        == a as int);
                    assert(index_view(w1.index)[ids_of(w1.arch(ai).types_seq())] as int == ai);
                    assert(false);
                }
            }
            // the helper's preconditions
            assert(w1.live(entity));
            assert(w1.types_of(entity) == src_types);
            assert forall|t: u64|
                has_id(w1.arch(a as int).types_seq(), t) <==> has_id(
                    w1.types_of(entity),
                    t,
                ) || bundle_has_id(sv, t) by {
                assert(has_id(tt, t) <==> has_id(src_types, t) || bundle_has_id(sv, t));
            }
            assert forall|k2: int, c2: int|
                0 <= k2 < sv.len() && 0 <= c2 < w1.arch(a as int).ncols() && (#[trigger] w1.arch(
                a as int,
            ).type_at(c2)).id == (#[trigger] sv[k2]).info.id implies w1.arch(a as int).type_at(
                c2,
            ) == sv[k2].info by {
                assert(w1.arch(a as int).type_at(c2) == tt[c2]);
                assert(tt.contains(tt[c2]));
                if src_types.contains(tt[c2]) {
                    let c3 = choose|c3: int| 0 <= c3 < src_types.len() && src_types[c3] == tt[c2];
                    assert(w0.arch(ai).type_at(c3) == tt[c2]);
                    assert(sv.contains(sv[k2]));
                    assert(b0.contains(sv[k2]));
                    let j2 = choose|j2: int| 0 <= j2 < b0.len() && b0[j2] == sv[k2];
                    assert(infos_of(b0)[j2] == sv[k2].info);
                    assert(w0.arch(ai).type_at(c3) == infos_of(b0)[j2]);
                } else {
                    assert(infos_of(sv).contains(tt[c2]));
                    let j3 = choose|j3: int|
                        0 <= j3 < infos_of(sv).len() && infos_of(sv)[j3] == tt[c2];
                    assert(sv[j3].info == tt[c2]);
                    assert(j3 == k2) by {
                        if j3 != k2 {
                            assert(sv[j3].info.id != sv[k2].info.id);
                        }
                    }
                }
            }
        }
        self.migrate_on_insert(entity, l, a, sorted);
        let ghost wend = *self;
        proof {
            // chain the helper's frame back to the original world
            assert forall|e2: Entity| e2 != entity implies Self::same_entity_view(
                w0,
                wend,
                e2,
            ) by {
                assert(Self::same_entity_view(w0, w1, e2));
                assert(Self::same_entity_view(w1, wend, e2));
                assert forall|t: u64| #[trigger] w0.value(e2, t) == wend.value(e2, t) by {
                    assert(w0.value(e2, t) == w1.value(e2, t));
                    assert(w1.value(e2, t) == wend.value(e2, t));
                }
                assert forall|t: u64| #[trigger] w0.added_flag(e2, t) == wend.added_flag(
                    e2,
                    t,
                ) by {
                    assert(w0.added_flag(e2, t) == w1.added_flag(e2, t));
                    assert(w1.added_flag(e2, t) == wend.added_flag(e2, t));
                }
                assert forall|t: u64| #[trigger] w0.mutated_flag(e2, t) == wend.mutated_flag(
                    e2,
                    t,
                ) by {
                    assert(w0.mutated_flag(e2, t) == w1.mutated_flag(e2, t));
                    assert(w1.mutated_flag(e2, t) == wend.mutated_flag(e2, t));
                }
            }
            // the entity's values: from the sorted bundle back to the input
            assert forall|kk: int| 0 <= kk < b0.len() implies wend.value(
                entity,
                (#[trigger] b0[kk]).info.id,
            ) == Some(b0[kk].data@) && wend.mutated_flag(entity, b0[kk].info.id)
                && wend.added_flag(entity, b0[kk].info.id) by {
                assert(b0.contains(b0[kk]));
                let j = choose|j: int| 0 <= j < sv.len() && sv[j] == b0[kk];
                assert(sv[j].info.id == b0[kk].info.id);
                assert(wend.value(entity, sv[j].info.id) == Some(sv[j].data@));
            }
            assert forall|t: u64| !bundle_has_id(b0, t) implies wend.value(entity, t)
                == w0.value(entity, t) && wend.added_flag(entity, t) == w0.added_flag(entity, t)
                && wend.mutated_flag(entity, t) == w0.mutated_flag(entity, t) by {
                assert(!bundle_has_id(sv, t));
                assert(wend.value(entity, t) == w1.value(entity, t));
                assert(w1.value(entity, t) == w0.value(entity, t));
            }
            assert(wend.types_of(entity) == tt);
            assert(id_set(wend.types_of(entity)) == id_set(w0.types_of(entity)).union(
                bundle_id_set(b0),
            )) by {
                assert(id_set(tt) =~= id_set(src_types).union(bundle_id_set(b0)));
            }
            assert forall|ids: Set<u64>|
                wend.has_archetype(ids) <==> w0.has_archetype(ids) || ids == id_set(
                    w0.types_of(entity),
                ).union(bundle_id_set(b0)) by {
                assert(wend.has_archetype(ids) <==> w1.has_archetype(ids));
                assert(w1.has_archetype(ids) <==> w0.has_archetype(ids) || ids == id_set(tt));
                assert(id_set(tt) == id_set(src_types).union(bundle_id_set(b0))) by {
                    assert(id_set(tt) =~= id_set(src_types).union(bundle_id_set(b0)));
                }
            }
            assert(wend.archetype_generation as int == w0.archetype_generation as int + (
            if w0.has_archetype(id_set(w0.types_of(entity)).union(bundle_id_set(b0))) {
                0int
            } else {
                1int
            })) by {
                assert(id_set(tt) == id_set(src_types).union(bundle_id_set(b0))) by {
                    assert(id_set(tt) =~= id_set(src_types).union(bundle_id_set(b0)));
                }
            }
        }
        Ok(())
    }
}

impl World {
    /// Remove the components of the given types from `entity`, handing their
    /// values back in the order asked for.
    ///
    /// If the entity lacks any of the types, nothing is removed and
    /// `MissingComponent` names such a type. The removed values are returned;
    /// the entity is logged, for each removed type, in the removal log.
    #[verifier::rlimit(100)]
    #[verifier::loop_isolation(false)]
    pub fn remove(&mut self, entity: Entity, infos: Vec<TypeInfo>) -> (r: Result<
        Vec<Component>,
        ComponentError,
    >)
        requires
            old(self).wf(),
            forall|i: int, j: int| 0 <= i < j < infos@.len() ==> infos@[i].id != infos@[j].id,
            old(self).types_consistent(infos@),
        ensures
            final(self).wf(),
            match r {
                Ok(cs) => {
                    &&& old(self).live(entity)
                    &&& forall|k: int|
                        0 <= k < infos@.len() ==> has_id(
                            old(self).types_of(entity),
                            (#[trigger] infos@[k]).id,
                        )
                    &&& cs@.len() == infos@.len()
                    &&& forall|k: int|
                        0 <= k < infos@.len() ==> (#[trigger] cs@[k]).info == infos@[k] && Some(
                            cs@[k].data@,
                        ) == old(self).value(entity, infos@[k].id)
                    &&& forall|k: int|
                        0 <= k < infos@.len() ==> final(self).value(
                            entity,
                            (#[trigger] infos@[k]).id,
                        ) == None::<Seq<u8>>
                    &&& forall|t: u64|
                        !has_id(infos@, t) ==> final(self).value(entity, t) == old(self).value(
                            entity,
                            t,
                        ) && final(self).added_flag(entity, t) == old(self).added_flag(entity, t)
                            && final(self).mutated_flag(entity, t) == old(self).mutated_flag(
                            entity,
                            t,
                        )
                    &&& id_set(final(self).types_of(entity)) == id_set(
                        old(self).types_of(entity),
                    ).difference(id_set(infos@))
                    &&& final(self).entities.n_slots() == old(self).entities.n_slots()
                    &&& final(self).entities.free@ == old(self).entities.free@
                    &&& forall|e2: Entity|
                        e2 != entity ==> Self::same_entity_view(*old(self), *final(self), e2)
                    &&& forall|e2: Entity| final(self).live(e2) <==> old(self).live(e2)
                    &&& forall|t: u64|
                        final(self).removed_log(t) == if has_id(infos@, t) {
                            old(self).removed_log(t).push(entity)
                        } else {
                            old(self).removed_log(t)
                        }
                    &&& final(self).archetype_generation as int == old(self).archetype_generation as int + (if old(self).has_archetype(
                        id_set(old(self).types_of(entity)).difference(id_set(infos@)),
                    ) {
                        0int
                    } else {
                        1int
                    })
                    &&& forall|ids: Set<u64>|
                        final(self).has_archetype(ids) <==> old(self).has_archetype(ids) || ids
                            == id_set(old(self).types_of(entity)).difference(id_set(infos@))
                },
                Err(ComponentError::NoSuchEntity) => !old(self).live(entity) && *final(self)
                    == *old(self),
                Err(ComponentError::MissingComponent(t)) => old(self).live(entity) && has_id(
                    infos@,
                    t,
                ) && !has_id(old(self).types_of(entity), t) && *final(self) == *old(self),
            },
    {
        let l = match self.entities.get_location(entity) {
            None => {
                return Err(ComponentError::NoSuchEntity);
            },
            Some(l) => l,
        };
        let ghost w0 = *old(self);
        proof {
            assert(w0.entities.id_live(entity.id as int));
        }
        let src = l.archetype;
        let ghost ai = src as int;
        let ghost src_types = w0.arch(ai).types_seq();
        // read every asked-for component, failing on the first missing type
        let mut cs: Vec<Component> = Vec::new();
        let nk = infos.len();
        let mut k: usize = 0;
        while k < nk
            invariant
                k <= nk,
                cs@.len() == k,
                forall|k2: int|
                    0 <= k2 < k ==> has_id(src_types, (#[trigger] infos@[k2]).id),
                forall|k2: int|
                    0 <= k2 < k ==> (#[trigger] cs@[k2]).info == infos@[k2] && Some(
                        cs@[k2].data@,
                    ) == w0.value(entity, infos@[k2].id),
            decreases nk - k,
        {
            let t = infos[k];
            match self.archetypes[src].find_col(t.id) {
                None => {
                    proof {
                        assert(infos@[k as int].id == t.id);
                        assert(has_id(infos@, t.id));
                    }
                    return Err(ComponentError::MissingComponent(t.id));
                },
                Some(c) => {
                    proof {
                        self.arch(ai).lemma_col_of(t.id);
                        assert(self.arch(ai).type_at(c as int) == infos@[k as int]);
                        assert(w0.value(entity, t.id) == Some(
                            w0.arch(ai).cell(c as int, l.index as int),
                        ));
                    }
                    let data = self.archetypes[src].cell_bytes(c, l.index);
                    cs.push(Component { info: t, data });
                },
            }
            k += 1;
        }
        // the remaining component set, still sorted
        let src_copy = copy_vec(&self.archetypes[src].types);
        let mut target_types: Vec<TypeInfo> = Vec::new();
        let nc = src_copy.len();
        let mut c: usize = 0;
        while c < nc
            invariant
                c <= nc,
                nc == src_types.len(),
                src_copy@ == src_types,
                strictly_sorted(target_types@),
                forall|k2: int|
                    0 <= k2 < target_types@.len() ==> (exists|j: int|
                        0 <= j < c && (#[trigger] target_types@[k2]) == src_types[j]) && !has_id(
                        infos@,
                        target_types@[k2].id,
                    ),
                forall|j: int|
                    0 <= j < c && !has_id(infos@, (#[trigger] src_types[j]).id)
                        ==> target_types@.contains(src_types[j]),
            decreases nc - c,
        {
            let ty = src_copy[c];
            let ghost before_tt = target_types@;
            match crate::types::find_id(&infos, ty.id) {
                Some(x) => {
                    proof {
                        assert(has_id(infos@, src_types[c as int].id));
                        assert forall|k2: int|
                            0 <= k2 < target_types@.len() implies (exists|j: int|
                            0 <= j < c + 1 && (#[trigger] target_types@[k2]) == src_types[j])
                            && !has_id(infos@, target_types@[k2].id) by {
                            let j = choose|j: int|
                                0 <= j < c && target_types@[k2] == src_types[j];
                            assert(0 <= j < c + 1 && target_types@[k2] == src_types[j]);
                        }
                    }
                },
                None => {
                    proof {
                        let m = target_types@.len() as int;
                        if m > 0 {
                            let j = choose|j: int|
                                0 <= j < c && target_types@[m - 1] == src_types[j];
                            assert(src_types[j].id < src_types[c as int].id);
                        }
                    }
                    target_types.push(ty);
                    proof {
                        let new = target_types@;
                        let m = new.len() - 1;
                        assert(new[m] == src_types[c as int]);
                        assert forall|a2: int, b2: int| 0 <= a2 < b2 < new.len() implies new[a2].id
                            < new[b2].id by {
                            assert(new[a2] == before_tt[a2]);
                            if b2 == m {
                                let j = choose|j: int|
                                    0 <= j < c && new[a2] == src_types[j];
                                assert(src_types[j].id < src_types[c as int].id);
                            } else {
                                assert(new[b2] == before_tt[b2]);
                            }
                        }
                        assert forall|k2: int|
                            0 <= k2 < new.len() implies (exists|j: int|
                            0 <= j < c + 1 && (#[trigger] new[k2]) == src_types[j]) && !has_id(
                            infos@,
                            new[k2].id,
                        ) by {
                            if k2 == m {
                                assert(new[k2] == src_types[c as int]);
                            } else {
                                assert(new[k2] == before_tt[k2]);
                                let j = choose|j: int|
                                    0 <= j < c && before_tt[k2] == src_types[j];
                                assert(0 <= j < c + 1 && new[k2] == src_types[j]);
                            }
                        }
                        assert forall|j: int|
                            0 <= j < c + 1 && !has_id(infos@, (#[trigger] src_types[j]).id)
                                implies new.contains(src_types[j]) by {
                            if j == c as int {
                                assert(new[m] == src_types[j]);
                            } else {
                                assert(before_tt.contains(src_types[j]));
                                let k2 = choose|k2: int|
                                    0 <= k2 < before_tt.len() && before_tt[k2] == src_types[j];
                                assert(new[k2] == src_types[j]);
                            }
                        }
                    }
                },
            }
            c += 1;
        }
        let ghost tt = target_types@;
        proof {
            // membership of the remaining set
            assert forall|t: u64| has_id(tt, t) <==> has_id(src_types, t) && !has_id(
                infos@,
                t,
            ) by {
                if has_id(tt, t) {
                    let k2 = choose|k2: int| 0 <= k2 < tt.len() && tt[k2].id == t;
                    let j = choose|j: int| 0 <= j < nc && tt[k2] == src_types[j];
                    assert(src_types[j].id == t);
                }
                if has_id(src_types, t) && !has_id(infos@, t) {
                    let j = choose|j: int| 0 <= j < src_types.len() && src_types[j].id == t;
                    assert(!has_id(infos@, src_types[j].id));
                    assert(tt.contains(src_types[j]));
                    let k2 = choose|k2: int| 0 <= k2 < tt.len() && tt[k2] == src_types[j];
                    assert(has_id(tt, t));
                }
            }
            assert(id_set(tt) =~= id_set(src_types).difference(id_set(infos@)));
            // consistency of the remaining set with the stored descriptions
            assert forall|a2: int, c2: int, k2: int|
                0 <= a2 < w0.n_archetypes() && 0 <= c2 < w0.arch(a2).ncols() && 0 <= k2 < tt.len()
                    && (#[trigger] w0.arch(a2).type_at(c2)).id == (#[trigger] tt[k2]).id
                implies w0.arch(a2).type_at(c2) == tt[k2] by {
                let j = choose|j: int| 0 <= j < nc && tt[k2] == src_types[j];
                assert(w0.arch(ai).type_at(j) == tt[k2]);
            }
        }
        let a = self.ensure_archetype(target_types);
        let ghost w1 = *self;
        proof {
            assert forall|e2: Entity| Self::same_entity_view(w0, w1, e2) by {
                assert(w1.entities == w0.entities);
                if w0.live(e2) {
                    assert(w0.entities.id_live(e2.id as int));
                    let l2 = w0.entities.loc(e2.id as int);
                    assert((l2.archetype as int) < w0.n_archetypes());
                    assert(w1.arch(l2.archetype as int) == w0.arch(l2.archetype as int));
                }
            }
            assert(w1.arch(ai) == w0.arch(ai));
            assert(w1.arch(a as int).types_seq() == tt);
            // the remaining set differs from the full set when something is
            // removed, so the target archetype is a different one
            if nk > 0 {
                assert(has_id(infos@, infos@[0].id));
                assert(has_id(src_types, infos@[0].id));
                assert(!has_id(tt, infos@[0].id));
                assert(a as int != ai) by {
                    if a as int == ai {
                        assert(w1.arch(ai).types_seq() == src_types);
                        assert(has_id(tt, infos@[0].id));
                    }
                }
            }
        }
        if nk == 0 {
            proof {
                assert(id_set(tt) == id_set(src_types)) by {
                    assert(id_set(tt) =~= id_set(src_types));
                }
                assert(w0.has_archetype(id_set(tt))) by {
                    assert(id_set(w0.arch(ai).types_seq()) == id_set(tt));
                }
                assert(*self == w0);
                assert forall|ids: Set<u64>|
                    self.has_archetype(ids) <==> w0.has_archetype(ids) || ids == id_set(
                        src_types,
                    ).difference(id_set(infos@)) by {
                    if ids == id_set(src_types).difference(id_set(infos@)) {
                        assert(ids == id_set(tt)) by {
                            assert(id_set(tt) =~= id_set(src_types).difference(id_set(infos@)));
                        }
                    }
                }
            }
            return Ok(cs);
        }
        proof {
            // the helper's preconditions
            assert(w1.live(entity));
            assert(w1.types_of(entity) == src_types);
            assert forall|t: u64|
                has_id(w1.arch(a as int).types_seq(), t) implies has_id(
                w1.types_of(entity),
                t,
            ) by {
                assert(has_id(tt, t));
            }
        }
        self.migrate_on_remove(entity, l, a);
        let ghost wend = *self;
        proof {
            // chain the frame through the lookup back to the start
            assert forall|e2: Entity| e2 != entity implies Self::same_entity_view(
                w0,
                wend,
                e2,
            ) by {
                assert(Self::same_entity_view(w0, w1, e2));
                assert(Self::same_entity_view(w1, wend, e2));
                assert forall|t: u64| #[trigger] w0.value(e2, t) == wend.value(e2, t) by {
                    assert(w0.value(e2, t) == w1.value(e2, t));
                    assert(w1.value(e2, t) == wend.value(e2, t));
                }
                assert forall|t: u64| #[trigger] w0.added_flag(e2, t) == wend.added_flag(
                    e2,
                    t,
                ) by {
                    assert(w0.added_flag(e2, t) == w1.added_flag(e2, t));
                    assert(w1.added_flag(e2, t) == wend.added_flag(e2, t));
                }
                assert forall|t: u64| #[trigger] w0.mutated_flag(e2, t) == wend.mutated_flag(
                    e2,
                    t,
                ) by {
                    assert(w0.mutated_flag(e2, t) == w1.mutated_flag(e2, t));
                    assert(w1.mutated_flag(e2, t) == wend.mutated_flag(e2, t));
                }
            }
            // the entity's removed components are gone, the rest kept
            assert forall|k2: int| 0 <= k2 < infos@.len() implies wend.value(
                entity,
                (#[trigger] infos@[k2]).id,
            ) == None::<Seq<u8>> by {
                assert(!has_id(tt, infos@[k2].id)) by {
                    assert(has_id(infos@, infos@[k2].id));
                }
                assert(!has_id(w1.arch(a as int).types_seq(), infos@[k2].id));
            }
            assert forall|t: u64| !has_id(infos@, t) implies wend.value(entity, t) == w0.value(
                entity,
                t,
            ) && wend.added_flag(entity, t) == w0.added_flag(entity, t) && wend.mutated_flag(
                entity,
                t,
            ) == w0.mutated_flag(entity, t) by {
                if has_id(src_types, t) {
                    assert(has_id(tt, t));
                    assert(has_id(w1.arch(a as int).types_seq(), t));
                    assert(wend.value(entity, t) == w1.value(entity, t));
                    assert(w1.value(entity, t) == w0.value(entity, t));
                } else {
                    assert(!has_id(tt, t));
                    assert(!has_id(w1.arch(a as int).types_seq(), t));
                    assert(wend.value(entity, t) == None::<Seq<u8>>);
                    assert(w0.value(entity, t) == None::<Seq<u8>>);
                    assert(!wend.added_flag(entity, t) && !w0.added_flag(entity, t));
                    assert(!wend.mutated_flag(entity, t) && !w0.mutated_flag(entity, t));
                }
            }
            assert(wend.types_of(entity) == tt);
            assert(id_set(wend.types_of(entity)) == id_set(w0.types_of(entity)).difference(
                id_set(infos@),
            )) by {
                assert(id_set(tt) =~= id_set(src_types).difference(id_set(infos@)));
            }
            // the removal log gained exactly the asked-for types
            assert forall|t: u64| wend.removed_log(t) == (if has_id(infos@, t) {
                w0.removed_log(t).push(entity)
            } else {
                w0.removed_log(t)
            }) by {
                assert(wend.removed_log(t) == (if has_id(w1.types_of(entity), t) && !has_id(
                    w1.arch(a as int).types_seq(),
                    t,
                ) {
                    w1.removed_log(t).push(entity)
                } else {
                    w1.removed_log(t)
                }));
                assert(w1.removed_log(t) == w0.removed_log(t));
                if has_id(infos@, t) {
                    let k2 = choose|k2: int| 0 <= k2 < infos@.len() && infos@[k2].id == t;
                    assert(has_id(src_types, t));
                    assert(!has_id(tt, t));
                } else {
                    if has_id(src_types, t) {
                        assert(has_id(tt, t));
                    }
                }
            }
            // generation and stored sets
            assert forall|ids: Set<u64>|
                wend.has_archetype(ids) <==> w0.has_archetype(ids) || ids == id_set(
                    src_types,
                ).difference(id_set(infos@)) by {
                assert(wend.has_archetype(ids) <==> w1.has_archetype(ids));
                assert(w1.has_archetype(ids) <==> w0.has_archetype(ids) || ids == id_set(tt));
                assert(id_set(tt) == id_set(src_types).difference(id_set(infos@))) by {
                    assert(id_set(tt) =~= id_set(src_types).difference(id_set(infos@)));
                }
            }
            assert(wend.archetype_generation as int == w0.archetype_generation as int + (
            if w0.has_archetype(id_set(w0.types_of(entity)).difference(id_set(infos@))) {
                0int
            } else {
                1int
            })) by {
                assert(id_set(tt) == id_set(src_types).difference(id_set(infos@))) by {
                    assert(id_set(tt) =~= id_set(src_types).difference(id_set(infos@)));
                }
            }
        }
        Ok(cs)
    }
}

/// A read-only view of one entity: all its components, in column order.
pub struct EntityRef {
    /// The entity's components, sorted by type id.
    pub components: Vec<Component>,
}

impl World {
    /// Zero every tracking bit and empty the removal log; values, entities
    /// and archetypes are untouched.
    #[verifier::rlimit(100)]
    #[verifier::loop_isolation(false)]
    pub fn clear_trackers(&mut self)
        requires
            old(self).wf(),
        ensures
            final(self).wf(),
            forall|e2: Entity| final(self).live(e2) <==> old(self).live(e2),
            forall|e2: Entity, t: u64|
                #[trigger] final(self).value(e2, t) == old(self).value(e2, t),
            forall|e2: Entity, t: u64| !(#[trigger] final(self).added_flag(e2, t)),
            forall|e2: Entity, t: u64| !(#[trigger] final(self).mutated_flag(e2, t)),
            forall|t: u64| final(self).removed_log(t) == Seq::<Entity>::empty(),
            final(self).archetype_generation == old(self).archetype_generation,
            final(self).entities == old(self).entities,
            final(self).index == old(self).index,
            final(self).n_archetypes() == old(self).n_archetypes(),
            forall|a: int|
                0 <= a < old(self).n_archetypes() ==> final(self).arch(a).rows() == old(self).arch(a).rows() && final(self).arch(a).entities@ == old(self).arch(a).entities@ && final(self).arch(a).types_seq() == old(self).arch(a).types_seq(),
            forall|ids: Set<u64>|
                final(self).has_archetype(ids) <==> old(self).has_archetype(ids),
    {
        let ghost w0 = *old(self);
        let n = self.archetypes.len();
        let mut a: usize = 0;
        while a < n
            invariant
                a <= n,
                n == w0.n_archetypes(),
                self.entities == w0.entities,
                self.index == w0.index,
                self.removed_components == w0.removed_components,
                self.archetype_generation == w0.archetype_generation,
                self.archetypes@.len() == n,
                forall|a2: int|
                    a <= a2 < n ==> (#[trigger] self.archetypes@[a2]) == w0.archetypes@[a2],
                forall|a2: int|
                    0 <= a2 < a ==> Archetype::trackers_cleared(
                        #[trigger] self.archetypes@[a2],
                        w0.archetypes@[a2],
                    ),
            decreases n - a,
        {
            proof {
                assert(self.archetypes@[a as int] == w0.archetypes@[a as int]);
                assert(w0.arch(a as int).wf());
            }
            let arch = &mut self.archetypes[a];
            arch.clear_trackers();
            a += 1;
        }
        self.removed_components = Vec::new();
        proof {
            let w = *self;
            assert forall|a2: int| 0 <= a2 < n implies Archetype::trackers_cleared(
                #[trigger] w.archetypes@[a2],
                w0.archetypes@[a2],
            ) by {
                assert(Archetype::trackers_cleared(self.archetypes@[a2], w0.archetypes@[a2]));
            }
            assert(w.inv_directory()) by {
                assert forall|id: int| #[trigger] w.entities.id_live(id) implies (w.entities.loc(
                    id,
                ).archetype as int) < w.n_archetypes() && (w.entities.loc(id).index as int)
                    < w.arch(w.entities.loc(id).archetype as int).rows() && w.arch(
                    w.entities.loc(id).archetype as int,
                ).entity_at(w.entities.loc(id).index as int) as int == id by {
                    assert(w0.entities.id_live(id));
                    let l2 = w0.entities.loc(id);
                    assert(Archetype::trackers_cleared(
                        w.archetypes@[l2.archetype as int],
                        w0.archetypes@[l2.archetype as int],
                    ));
                }
            }
            assert(w.inv_rows()) by {
                assert forall|a2: int, r: int|
                    0 <= a2 < w.n_archetypes() && 0 <= r < w.arch(a2).rows() implies
                    w.entities.id_live((#[trigger] w.arch(a2).entity_at(r)) as int)
                        && w.entities.loc(w.arch(a2).entity_at(r) as int).archetype as int == a2
                        && w.entities.loc(w.arch(a2).entity_at(r) as int).index as int == r by {
                    assert(Archetype::trackers_cleared(w.archetypes@[a2], w0.archetypes@[a2]));
                    assert(w.arch(a2).entity_at(r) == w0.arch(a2).entity_at(r));
                }
            }
            assert(w.inv_index()) by {
                assert forall|a2: int| 0 <= a2 < w.n_archetypes() implies index_view(
                    w.index,
                ).dom().contains(#[trigger] ids_of(w.arch(a2).types_seq())) && index_view(
                    w.index,
                )[ids_of(w.arch(a2).types_seq())] as int == a2 by {
                    assert(Archetype::trackers_cleared(w.archetypes@[a2], w0.archetypes@[a2]));
                    assert(w.arch(a2).types_seq() == w0.arch(a2).types_seq());
                }
                assert forall|kk: Seq<u64>| #[trigger] index_view(w.index).dom().contains(
                    kk,
                ) implies {
                    let a2 = index_view(w.index)[kk] as int;
                    0 <= a2 < w.n_archetypes() && ids_of(w.arch(a2).types_seq()) == kk
                } by {
                    assert(index_view(w0.index).dom().contains(kk));
                    let a2 = index_view(w0.index)[kk] as int;
                    assert(ids_of(w0.arch(a2).types_seq()) == kk);
                    assert(Archetype::trackers_cleared(w.archetypes@[a2], w0.archetypes@[a2]));
                }
            }
            assert(w.inv_archetypes()) by {
                assert forall|a2: int| 0 <= a2 < w.n_archetypes() implies (#[trigger] w.arch(
                    a2,
                )).wf() by {
                    assert(Archetype::trackers_cleared(w.archetypes@[a2], w0.archetypes@[a2]));
                }
            }
            assert(w.inv_global_types()) by {
                assert forall|a1: int, c1: int, a2: int, c2: int|
                    0 <= a1 < w.n_archetypes() && 0 <= c1 < w.arch(a1).ncols() && 0 <= a2
                        < w.n_archetypes() && 0 <= c2 < w.arch(a2).ncols() && (#[trigger] w.arch(
                    a1,
                ).type_at(c1)).id == (#[trigger] w.arch(a2).type_at(c2)).id implies w.arch(
                    a1,
                ).type_at(c1) == w.arch(a2).type_at(c2) by {
                    assert(Archetype::trackers_cleared(w.archetypes@[a1], w0.archetypes@[a1]));
                    assert(Archetype::trackers_cleared(w.archetypes@[a2], w0.archetypes@[a2]));
                    assert(w.arch(a1).type_at(c1) == w0.arch(a1).type_at(c1));
                    assert(w.arch(a2).type_at(c2) == w0.arch(a2).type_at(c2));
                }
            }
            assert(Archetype::trackers_cleared(w.archetypes@[0], w0.archetypes@[0]));
            assert(w.arch(0).types_seq() == w0.arch(0).types_seq());
            assert(w.wf());
            assert forall|e2: Entity, t: u64| #[trigger] w.value(e2, t) == w0.value(e2, t) by {
                if w0.live(e2) {
                    assert(w0.entities.id_live(e2.id as int));
                    let l2 = w0.entities.loc(e2.id as int);
                    assert(Archetype::trackers_cleared(
                        w.archetypes@[l2.archetype as int],
                        w0.archetypes@[l2.archetype as int],
                    ));
                    if w0.arch(l2.archetype as int).has(t) {
                        w0.arch(l2.archetype as int).lemma_col_of(t);
                        w.arch(l2.archetype as int).lemma_col_of(t);
                        assert(w.arch(l2.archetype as int).col_of(t) == w0.arch(
                            l2.archetype as int,
                        ).col_of(t)) by {
                            assert(w.arch(l2.archetype as int).types_seq() == w0.arch(
                                l2.archetype as int,
                            ).types_seq());
                            assert(w.arch(l2.archetype as int).type_at(
                                w.arch(l2.archetype as int).col_of(t),
                            ).id == t);
                        }
                    }
                }
            }
            assert forall|e2: Entity, t: u64| !(#[trigger] w.added_flag(e2, t)) by {
                if w.live(e2) {
                    assert(w.entities.id_live(e2.id as int));
                    let l2 = w.entities.loc(e2.id as int);
                    assert(Archetype::trackers_cleared(
                        w.archetypes@[l2.archetype as int],
                        w0.archetypes@[l2.archetype as int],
                    ));
                    if w.arch(l2.archetype as int).has(t) {
                        w.arch(l2.archetype as int).lemma_col_of(t);
                    }
                }
            }
            assert forall|e2: Entity, t: u64| !(#[trigger] w.mutated_flag(e2, t)) by {
                if w.live(e2) {
                    assert(w.entities.id_live(e2.id as int));
                    let l2 = w.entities.loc(e2.id as int);
                    assert(Archetype::trackers_cleared(
                        w.archetypes@[l2.archetype as int],
                        w0.archetypes@[l2.archetype as int],
                    ));
                    if w.arch(l2.archetype as int).has(t) {
                        w.arch(l2.archetype as int).lemma_col_of(t);
                    }
                }
            }
            assert forall|ids: Set<u64>| w.has_archetype(ids) <==> w0.has_archetype(ids) by {
                if w.has_archetype(ids) {
                    let a2 = choose|a2: int|
                        0 <= a2 < w.n_archetypes() && id_set(w.arch(a2).types_seq()) == ids;
                    assert(Archetype::trackers_cleared(w.archetypes@[a2], w0.archetypes@[a2]));
                    assert(id_set(w0.arch(a2).types_seq()) == ids);
                }
                if w0.has_archetype(ids) {
                    let a2 = choose|a2: int|
                        0 <= a2 < w0.n_archetypes() && id_set(w0.arch(a2).types_seq()) == ids;
                    assert(Archetype::trackers_cleared(w.archetypes@[a2], w0.archetypes@[a2]));
                    assert(id_set(w.arch(a2).types_seq()) == ids);
                }
            }
        }
    }

    /// Make sure the archetype for exactly this component set exists, bumping
    /// the generation if it is new. Room for `additional` entities comes from
    /// the column vectors as rows are added; the observable state is
    /// untouched.
    pub fn reserve(&mut self, infos: Vec<TypeInfo>, additional: u32)
        requires
            old(self).wf(),
            forall|i: int, j: int| 0 <= i < j < infos@.len() ==> infos@[i].id != infos@[j].id,
            old(self).types_consistent(infos@),
        ensures
            final(self).wf(),
            forall|e2: Entity| final(self).live(e2) <==> old(self).live(e2),
            forall|e2: Entity| Self::same_entity_view(*old(self), *final(self), e2),
            forall|t: u64| final(self).removed_log(t) == old(self).removed_log(t),
            final(self).has_archetype(id_set(infos@)),
            final(self).archetype_generation as int == old(self).archetype_generation as int + (
            if old(self).has_archetype(id_set(infos@)) {
                0int
            } else {
                1int
            }),
            forall|ids: Set<u64>|
                final(self).has_archetype(ids) <==> old(self).has_archetype(ids) || ids == id_set(
                    infos@,
                ),
    {
        let ghost iv0 = infos@;
        let sorted = crate::types::sort_infos(infos);
        proof {
            assert(id_set(sorted@) =~= id_set(iv0));
            // the sorted descriptions are the given ones, so still consistent
            assert forall|a2: int, c2: int, k2: int|
                0 <= a2 < old(self).n_archetypes() && 0 <= c2 < old(self).arch(a2).ncols() && 0
                    <= k2 < sorted@.len() && (#[trigger] old(self).arch(a2).type_at(c2)).id == (
                #[trigger] sorted@[k2]).id implies old(self).arch(a2).type_at(c2)
                == sorted@[k2] by {
                assert(sorted@.contains(sorted@[k2]));
                assert(iv0.contains(sorted@[k2]));
                let k3 = choose|k3: int| 0 <= k3 < iv0.len() && iv0[k3] == sorted@[k2];
            }
        }
        let a = self.ensure_archetype(sorted);
        let ghost spare: u32 = additional;
        proof {
            let w = *self;
            assert forall|e2: Entity| Self::same_entity_view(*old(self), w, e2) by {
                assert(w.entities == old(self).entities);
                if old(self).live(e2) {
                    assert(old(self).entities.id_live(e2.id as int));
                    let l2 = old(self).entities.loc(e2.id as int);
                    assert((l2.archetype as int) < old(self).n_archetypes());
                    assert(w.arch(l2.archetype as int) == old(self).arch(l2.archetype as int));
                }
            }
            assert(w.has_archetype(id_set(iv0))) by {
                assert(id_set(w.arch(a as int).types_seq()) == id_set(iv0));
            }
            assert forall|ids: Set<u64>|
                w.has_archetype(ids) <==> old(self).has_archetype(ids) || ids == id_set(iv0) by {
                assert(w.has_archetype(ids) <==> old(self).has_archetype(ids) || ids == id_set(
                    sorted@,
                ));
            }
        }
    }

    /// Add one component to `entity`; see `insert`.
    pub fn insert_one(&mut self, entity: Entity, component: Component) -> (r: Result<
        (),
        NoSuchEntity,
    >)
        requires
            old(self).wf(),
            component.wf(),
            old(self).types_consistent(seq![component.info]),
        ensures
            final(self).wf(),
            match r {
                Ok(u) => old(self).live(entity),
                Err(err) => !old(self).live(entity) && *final(self) == *old(self),
            },
            old(self).live(entity) ==> {
                &&& final(self).value(entity, component.info.id) == Some(component.data@)
                &&& final(self).mutated_flag(entity, component.info.id)
                &&& old(self).has_component(entity, component.info.id) ==> final(self).added_flag(
                    entity,
                    component.info.id,
                ) == old(self).added_flag(entity, component.info.id) && final(self).arch_index_of(
                    entity,
                ) == old(self).arch_index_of(entity)
                &&& !old(self).has_component(entity, component.info.id) ==> final(self).added_flag(
                    entity,
                    component.info.id,
                )
                &&& forall|t: u64|
                    t != component.info.id ==> final(self).value(entity, t) == old(self).value(
                        entity,
                        t,
                    ) && final(self).added_flag(entity, t) == old(self).added_flag(entity, t)
                        && final(self).mutated_flag(entity, t) == old(self).mutated_flag(entity, t)
                &&& id_set(final(self).types_of(entity)) == id_set(
                    old(self).types_of(entity),
                ).insert(component.info.id)
                &&& forall|e2: Entity|
                    e2 != entity ==> Self::same_entity_view(*old(self), *final(self), e2)
                &&& forall|e2: Entity| final(self).live(e2) <==> old(self).live(e2)
                &&& forall|t: u64| final(self).removed_log(t) == old(self).removed_log(t)
                &&& final(self).archetype_generation as int == old(self).archetype_generation as int + (if old(self).has_archetype(
                    id_set(old(self).types_of(entity)).insert(component.info.id),
                ) {
                    0int
                } else {
                    1int
                })
                &&& forall|ids: Set<u64>|
                    final(self).has_archetype(ids) <==> old(self).has_archetype(ids) || ids
                        == id_set(old(self).types_of(entity)).insert(component.info.id)
            },
    {
        let ghost ci = component.info;
        let ghost cd = component.data@;
        let bundle: Vec<Component> = vec![component];
        proof {
            assert(bundle@.len() == 1);
            assert(bundle@[0].info == ci && bundle@[0].data@ == cd);
            assert(bundle_wf(bundle@));
            assert(infos_of(bundle@) =~= seq![ci]);
        }
        let ghost b = bundle@;
        let r = self.insert(entity, bundle);
        proof {
            if old(self).live(entity) {
                assert(self.value(entity, ci.id) == Some(cd));
                assert forall|t: u64| bundle_has_id(b, t) <==> t == ci.id by {
                    if bundle_has_id(b, t) {
                        let k = choose|k: int| 0 <= k < b.len() && b[k].info.id == t;
                        assert(k == 0);
                    }
                    if t == ci.id {
                        assert(b[0].info.id == t);
                    }
                }
                assert forall|t: u64| t != ci.id implies self.value(entity, t) == old(self).value(
                    entity,
                    t,
                ) && self.added_flag(entity, t) == old(self).added_flag(entity, t)
                    && self.mutated_flag(entity, t) == old(self).mutated_flag(entity, t) by {
                    assert(!bundle_has_id(b, t));
                }
                assert(bundle_id_set(b) =~= Set::<u64>::empty().insert(ci.id));
                assert(id_set(old(self).types_of(entity)).union(bundle_id_set(b)) =~= id_set(
                    old(self).types_of(entity),
                ).insert(ci.id));
                if old(self).has_component(entity, ci.id) {
                    assert(old(self).bundle_subsumed(entity, b)) by {
                        assert forall|t: u64| bundle_has_id(b, t) implies has_id(
                            old(self).types_of(entity),
                            t,
                        ) by {
                            assert(t == ci.id);
                        }
                    }
                    assert(self.added_flag(entity, b[0].info.id) == old(self).added_flag(
                        entity,
                        b[0].info.id,
                    ));
                } else {
                    assert(!old(self).bundle_subsumed(entity, b)) by {
                        if old(self).bundle_subsumed(entity, b) {
                            assert(bundle_has_id(b, ci.id));
                            assert(has_id(old(self).types_of(entity), ci.id));
                        }
                    }
                    assert(self.added_flag(entity, b[0].info.id));
                }
            }
        }
        r
    }

    /// Remove one component from `entity`, handing its value back; see
    /// `remove`.
    pub fn remove_one(&mut self, entity: Entity, info: TypeInfo) -> (r: Result<
        Component,
        ComponentError,
    >)
        requires
            old(self).wf(),
            old(self).types_consistent(seq![info]),
        ensures
            final(self).wf(),
            match r {
                Ok(c) => {
                    &&& old(self).live(entity)
                    &&& c.info == info
                    &&& Some(c.data@) == old(self).value(entity, info.id)
                    &&& final(self).value(entity, info.id) == None::<Seq<u8>>
                    &&& forall|t: u64|
                        t != info.id ==> final(self).value(entity, t) == old(self).value(entity, t)
                            && final(self).added_flag(entity, t) == old(self).added_flag(entity, t)
                            && final(self).mutated_flag(entity, t) == old(self).mutated_flag(
                            entity,
                            t,
                        )
                    &&& id_set(final(self).types_of(entity)) == id_set(
                        old(self).types_of(entity),
                    ).remove(info.id)
                    &&& forall|e2: Entity|
                        e2 != entity ==> Self::same_entity_view(*old(self), *final(self), e2)
                    &&& forall|e2: Entity| final(self).live(e2) <==> old(self).live(e2)
                    &&& final(self).removed_log(info.id) == old(self).removed_log(info.id).push(
                        entity,
                    )
                    &&& forall|t: u64|
                        t != info.id ==> final(self).removed_log(t) == old(self).removed_log(t)
                    &&& final(self).archetype_generation as int == old(self).archetype_generation as int + (if old(self).has_archetype(
                        id_set(old(self).types_of(entity)).remove(info.id),
                    ) {
                        0int
                    } else {
                        1int
                    })
                    &&& forall|ids: Set<u64>|
                        final(self).has_archetype(ids) <==> old(self).has_archetype(ids) || ids
                            == id_set(old(self).types_of(entity)).remove(info.id)
                },
                Err(ComponentError::NoSuchEntity) => !old(self).live(entity) && *final(self)
                    == *old(self),
                Err(ComponentError::MissingComponent(t)) => t == info.id && old(self).live(entity)
                    && old(self).value(entity, info.id) == None::<Seq<u8>> && *final(self) == *old(self),
            },
    {
        let infos: Vec<TypeInfo> = vec![info];
        proof {
            assert(infos@.len() == 1 && infos@[0] == info);
            assert(infos@ =~= seq![info]);
        }
        let r = match self.remove(entity, infos) {
            Err(e) => {
                proof {
                    match e {
                        ComponentError::MissingComponent(t) => {
                            assert(has_id(seq![info], t));
                            let k = choose|k: int| 0 <= k < 1 && seq![info][k].id == t;
                            assert(t == info.id);
                            assert(!has_id(old(self).types_of(entity), info.id));
                            assert(old(self).value(entity, info.id) == None::<Seq<u8>>);
                        },
                        ComponentError::NoSuchEntity => {},
                    }
                }
                return Err(e);
            },
            Ok(mut cs) => {
                let c = match cs.pop() {
                    Some(c) => c,
                    None => {
                        proof {
                            assert(false);
                        }
                        unreached()
                    },
                };
                proof {
                    assert(c == cs@.push(c).last());
                    assert(self.value(entity, info.id) == None::<Seq<u8>>);
                    assert forall|t: u64| has_id(seq![info], t) <==> t == info.id by {
                        if has_id(seq![info], t) {
                            let k = choose|k: int| 0 <= k < 1 && seq![info][k].id == t;
                        }
                        if t == info.id {
                            assert(seq![info][0].id == t);
                        }
                    }
                    assert forall|t: u64| t != info.id implies self.value(entity, t) == old(self).value(entity, t) && self.added_flag(entity, t) == old(self).added_flag(
                        entity,
                        t,
                    ) && self.mutated_flag(entity, t) == old(self).mutated_flag(entity, t) by {
                        assert(!has_id(seq![info], t));
                    }
                    assert(has_id(seq![info], info.id));
                    assert forall|t: u64| t != info.id implies self.removed_log(t) == old(self).removed_log(t) by {
                        assert(!has_id(seq![info], t));
                    }
                    assert(id_set(seq![info]) =~= Set::<u64>::empty().insert(info.id));
                    assert(id_set(old(self).types_of(entity)).difference(id_set(seq![info]))
                        =~= id_set(old(self).types_of(entity)).remove(info.id));
                }
                Ok(c)
            },
        };
        r
    }

    /// A view of all the entity's components, sorted by type id.
    #[verifier::rlimit(100)]
    #[verifier::loop_isolation(false)]
    pub fn entity(&self, entity: Entity) -> (r: Result<EntityRef, NoSuchEntity>)
        requires
            self.wf(),
        ensures
            match r {
                Ok(view) => {
                    &&& self.live(entity)
                    &&& view.components@.len() == self.types_of(entity).len()
                    &&& forall|c: int|
                        0 <= c < view.components@.len() ==> (#[trigger] view.components@[c]).info
                            == self.types_of(entity)[c] && Some(view.components@[c].data@)
                            == self.value(entity, self.types_of(entity)[c].id)
                },
                Err(err) => !self.live(entity),
            },
    {
        let l = match self.entities.get_location(entity) {
            None => {
                return Err(NoSuchEntity);
            },
            Some(l) => l,
        };
        proof {
            assert(self.entities.id_live(entity.id as int));
        }
        let row = self.archetypes[l.archetype].read_row(l.index);
        let mut components: Vec<Component> = Vec::new();
        let n = row.len();
        let mut c: usize = 0;
        let ghost ai = l.archetype as int;
        let mut rest = row;
        proof {
            assert(rest@.len() == self.arch(ai).ncols());
        }
        while components.len() < n
            invariant
                components@.len() + rest@.len() == n,
                n == self.arch(ai).ncols(),
                self.wf(),
                self.live(entity),
                l == self.entities.loc(entity.id as int),
                ai == l.archetype as int,
                forall|c2: int|
                    0 <= c2 < components@.len() ==> (#[trigger] components@[c2]).info == self.arch(
                        ai,
                    ).type_at(c2) && components@[c2].data@ == self.arch(ai).cell(
                        c2,
                        l.index as int,
                    ),
                forall|c2: int|
                    0 <= c2 < rest@.len() ==> (#[trigger] rest@[c2]).info == self.arch(
                        ai,
                    ).type_at(components@.len() + c2) && rest@[c2].data@ == self.arch(ai).cell(
                        components@.len() + c2,
                        l.index as int,
                    ),
            decreases n - components.len(),
        {
            let entry = rest.remove(0);
            components.push(Component { info: entry.info, data: entry.data });
        }
        proof {
            assert forall|c2: int| 0 <= c2 < components@.len() implies Some(
                (#[trigger] components@[c2]).data@,
            ) == self.value(entity, self.types_of(entity)[c2].id) by {
                let t = self.arch(ai).type_at(c2).id;
                assert(has_id(self.arch(ai).types_seq(), t)) by {
                    assert(self.arch(ai).types_seq()[c2].id == t);
                }
                self.arch(ai).lemma_col_of(t);
                assert(self.arch(ai).col_of(t) == c2);
            }
        }
        Ok(EntityRef { components })
    }

    /// Prepare a view of a single entity; the storage-level answer to a
    /// one-entity query.
    pub fn query_one(&self, entity: Entity) -> (r: Result<EntityRef, NoSuchEntity>)
        requires
            self.wf(),
        ensures
            match r {
                Ok(view) => {
                    &&& self.live(entity)
                    &&& view.components@.len() == self.types_of(entity).len()
                    &&& forall|c: int|
                        0 <= c < view.components@.len() ==> (#[trigger] view.components@[c]).info
                            == self.types_of(entity)[c] && Some(view.components@[c].data@)
                            == self.value(entity, self.types_of(entity)[c].id)
                },
                Err(err) => !self.live(entity),
            },
    {
        self.entity(entity)
    }
}

impl Default for World {
    /// An empty world.
    fn default() -> (w: World)
        ensures
            w.wf(),
            w.archetype_generation == 0,
            forall|e: Entity| !w.live(e),
    {
        World::new()
    }
}

/// Iterator over all of a world's entities, in archetype-then-row order,
/// snapshotted at creation.
pub struct Iter {
    /// The remaining `(entity, view)` pairs, in order.
    pub items: Vec<(Entity, EntityRef)>,
}

impl Iter {
    /// The pairs not yet handed out.
    pub open spec fn remaining(self) -> Seq<(Entity, EntityRef)> {
        self.items@
    }

    /// Snapshot every live entity of the world, each exactly once, paired
    /// with a view of its components.
    #[verifier::rlimit(100)]
    #[verifier::loop_isolation(false)]
    pub fn new(world: &World) -> (it: Iter)
        requires
            world.wf(),
        ensures
            it.remaining() == it.items@,
            forall|i: int|
                0 <= i < it.items@.len() ==> world.live((#[trigger] it.items@[i]).0)
                    && it.items@[i].1.components@.len() == world.types_of(it.items@[i].0).len()
                    && (forall|c: int|
                    0 <= c < it.items@[i].1.components@.len() ==> (
                    #[trigger] it.items@[i].1.components@[c]).info == world.types_of(
                        it.items@[i].0,
                    )[c] && Some(it.items@[i].1.components@[c].data@) == world.value(
                        it.items@[i].0,
                        world.types_of(it.items@[i].0)[c].id,
                    )),
            forall|i: int, j: int|
                0 <= i < j < it.items@.len() ==> (#[trigger] it.items@[i]).0 != (
                #[trigger] it.items@[j]).0,
            forall|e: Entity|
                world.live(e) ==> exists|i: int|
                    0 <= i < it.items@.len() && (#[trigger] it.items@[i]).0 == e,
    {
        let mut items: Vec<(Entity, EntityRef)> = Vec::new();
        let n = world.archetypes.len();
        let mut a: usize = 0;
        while a < n
            invariant
                a <= n,
                n == world.n_archetypes(),
                forall|i: int|
                    0 <= i < items@.len() ==> world.live((#[trigger] items@[i]).0)
                        && (items@[i].0.id as int) < world.entities.n_slots()
                        && (world.entities.loc(items@[i].0.id as int).archetype as int) < a
                        && items@[i].1.components@.len() == world.types_of(items@[i].0).len() && (
                    forall|c: int|
                        0 <= c < items@[i].1.components@.len() ==> (
                        #[trigger] items@[i].1.components@[c]).info == world.types_of(
                            items@[i].0,
                        )[c] && Some(items@[i].1.components@[c].data@) == world.value(
                            items@[i].0,
                            world.types_of(items@[i].0)[c].id,
                        )),
                forall|i: int, j: int|
                    0 <= i < j < items@.len() ==> (#[trigger] items@[i]).0 != (
                    #[trigger] items@[j]).0,
                forall|e: Entity|
                    world.live(e) && (world.entities.loc(e.id as int).archetype as int) < a
                        ==> exists|i: int|
                        0 <= i < items@.len() && (#[trigger] items@[i]).0 == e,
            decreases n - a,
        {
            let rows = world.archetypes[a].len();
            let mut r: usize = 0;
            while r < rows
                invariant
                    r <= rows,
                    a < n,
                    rows == world.arch(a as int).rows(),
                    forall|i: int|
                        0 <= i < items@.len() ==> world.live((#[trigger] items@[i]).0)
                            && (items@[i].0.id as int) < world.entities.n_slots() && ((
                        world.entities.loc(items@[i].0.id as int).archetype as int) < a || (
                        world.entities.loc(items@[i].0.id as int).archetype as int == a
                            && world.entities.loc(items@[i].0.id as int).index < r))
                            && items@[i].1.components@.len() == world.types_of(
                            items@[i].0,
                        ).len() && (forall|c: int|
                            0 <= c < items@[i].1.components@.len() ==> (
                            #[trigger] items@[i].1.components@[c]).info == world.types_of(
                                items@[i].0,
                            )[c] && Some(items@[i].1.components@[c].data@) == world.value(
                                items@[i].0,
                                world.types_of(items@[i].0)[c].id,
                            )),
                    forall|i: int, j: int|
                        0 <= i < j < items@.len() ==> (#[trigger] items@[i]).0 != (
                        #[trigger] items@[j]).0,
                    forall|e: Entity|
                        world.live(e) && ((world.entities.loc(e.id as int).archetype as int) < a
                            || (world.entities.loc(e.id as int).archetype as int == a
                            && world.entities.loc(e.id as int).index < r)) ==> exists|i: int|
                            0 <= i < items@.len() && (#[trigger] items@[i]).0 == e,
                decreases rows - r,
            {
                let id = world.archetypes[a].entity_id(r);
                proof {
                    assert(world.entities.id_live(id as int));
                }
                let generation = world.entities.slots[id as usize].generation;
                let e = Entity { id, generation };
                proof {
                    assert(world.live(e));
                    assert(world.entities.loc(e.id as int).archetype as int == a as int);
                    assert(world.entities.loc(e.id as int).index as int == r as int);
                }
                let view = match world.entity(e) {
                    Ok(view) => view,
                    Err(err) => {
                        proof {
                            assert(false);
                        }
                        unreached()
                    },
                };
                let ghost before = items@;
                items.push((e, view));
                proof {
                    let m = items@.len() - 1;
                    assert(items@[m].0 == e && items@[m].1 == view);
                    assert forall|i: int, j: int|
                        0 <= i < j < items@.len() implies (#[trigger] items@[i]).0 != (
                        #[trigger] items@[j]).0 by {
                        if j == m {
                            assert(items@[i] == before[i]);
                            let li = world.entities.loc(before[i].0.id as int);
                            if before[i].0.id == e.id {
                                assert(li.archetype as int == a as int && (li.index as int)
                                    < r as int);
                            }
                        }
                    }
                    assert forall|e2: Entity|
                        world.live(e2) && ((world.entities.loc(
                            e2.id as int,
                        ).archetype as int) < a || (world.entities.loc(
                            e2.id as int,
                        ).archetype as int == a && world.entities.loc(e2.id as int).index < r
                            + 1)) implies exists|i: int|
                        0 <= i < items@.len() && (#[trigger] items@[i]).0 == e2 by {
                        let l2 = world.entities.loc(e2.id as int);
                        if l2.archetype as int == a as int && l2.index == r {
                            assert(world.entities.id_live(e2.id as int));
                            assert(world.arch(a as int).entity_at(r as int) as int
                                == e2.id as int);
                            assert(e2.id == id);
                            assert(e2.generation == generation);
                            assert(items@[m].0 == e2);
                        } else {
                            let i = choose|i: int|
                                0 <= i < before.len() && (#[trigger] before[i]).0 == e2;
                            assert(items@[i].0 == e2);
                        }
                    }
                }
                r += 1;
            }
            proof {
                assert forall|e2: Entity|
                    world.live(e2) && (world.entities.loc(e2.id as int).archetype as int) < a
                        + 1 implies exists|i: int|
                    0 <= i < items@.len() && (#[trigger] items@[i]).0 == e2 by {
                    let l2 = world.entities.loc(e2.id as int);
                    assert(world.entities.id_live(e2.id as int));
                    if l2.archetype as int == a as int {
                        assert((l2.index as int) < world.arch(a as int).rows());
                    }
                }
            }
            a += 1;
        }
        proof {
            assert forall|e2: Entity| world.live(e2) implies exists|i: int|
                0 <= i < items@.len() && (#[trigger] items@[i]).0 == e2 by {
                assert(world.entities.id_live(e2.id as int));
                assert((world.entities.loc(e2.id as int).archetype as int) < n);
            }
        }
        Iter { items }
    }

    /// The next `(entity, view)` pair, if one is left.
    pub fn next(&mut self) -> (r: Option<(Entity, EntityRef)>)
        ensures
            old(self).remaining().len() == 0 ==> r is None && *final(self) == *old(self),
            old(self).remaining().len() > 0 ==> r == Some(old(self).remaining()[0]) && final(self).remaining() == old(self).remaining().skip(1),
    {
        if self.items.len() > 0 {
            let out = self.items.remove(0);
            proof {
                assert(self.remaining() =~= old(self).remaining().skip(1));
            }
            Some(out)
        } else {
            None
        }
    }

    /// How many pairs are left.
    pub fn len(&self) -> (r: usize)
        ensures
            r == self.remaining().len(),
    {
        self.items.len()
    }
}

impl World {
    /// Snapshot-iterate over all entities; see [`Iter`].
    pub fn iter(&self) -> (it: Iter)
        requires
            self.wf(),
        ensures
            it.remaining() == it.items@,
            forall|i: int|
                0 <= i < it.items@.len() ==> self.live((#[trigger] it.items@[i]).0)
                    && it.items@[i].1.components@.len() == self.types_of(it.items@[i].0).len()
                    && (forall|c: int|
                    0 <= c < it.items@[i].1.components@.len() ==> (
                    #[trigger] it.items@[i].1.components@[c]).info == self.types_of(
                        it.items@[i].0,
                    )[c] && Some(it.items@[i].1.components@[c].data@) == self.value(
                        it.items@[i].0,
                        self.types_of(it.items@[i].0)[c].id,
                    )),
            forall|i: int, j: int|
                0 <= i < j < it.items@.len() ==> (#[trigger] it.items@[i]).0 != (
                #[trigger] it.items@[j]).0,
            forall|e: Entity|
                self.live(e) ==> exists|i: int|
                    0 <= i < it.items@.len() && (#[trigger] it.items@[i]).0 == e,
    {
        Iter::new(self)
    }
}

/// Entity spawning driven one bundle per `next` call.
///
/// Created by `World::spawn_batch`, which resolves the shared archetype up
/// front; each `next` spawns exactly one bundle into the world it is given,
/// so partial consumption leaves exactly the consumed entities spawned. A
/// batch must be driven to the end: call `next` until it gives `None`, or
/// call `finish`.
pub struct SpawnBatchIter {
    /// The bundles not yet spawned, in order.
    pub bundles: Vec<Vec<Component>>,
}

impl SpawnBatchIter {
    /// The bundles not yet spawned.
    pub open spec fn remaining(self) -> Seq<Vec<Component>> {
        self.bundles@
    }

    /// The batch fits this world: the remaining bundles are well formed and
    /// carry one shared component set in one shared order, their descriptions
    /// agree with the world's, the set's archetype is already stored, and the
    /// id space has room for all of them.
    pub open spec fn wf_for(self, w: World) -> bool {
        &&& forall|k: int|
            0 <= k < self.bundles@.len() ==> bundle_wf((#[trigger] self.bundles@[k])@)
        &&& forall|k1: int, k2: int|
            0 <= k1 < self.bundles@.len() && 0 <= k2 < self.bundles@.len() ==> infos_of(
                (#[trigger] self.bundles@[k1])@,
            ) == infos_of((#[trigger] self.bundles@[k2])@)
        &&& forall|k: int|
            0 <= k < self.bundles@.len() ==> w.types_consistent(
                infos_of((#[trigger] self.bundles@[k])@),
            )
        &&& self.bundles@.len() > 0 ==> w.has_archetype(bundle_id_set(self.bundles@[0]@))
        &&& w.entities.n_slots() + self.bundles@.len() <= u32::MAX as int
    }

    /// Spawn the next bundle into `w` and hand its fresh entity back; `None`
    /// once the batch is exhausted. No archetype is created here: the batch's
    /// archetype was resolved when the batch was made.
    #[verifier::rlimit(100)]
    pub fn next(&mut self, w: &mut World) -> (r: Option<Entity>)
        requires
            old(w).wf(),
            old(self).wf_for(*old(w)),
        ensures
            final(w).wf(),
            final(self).wf_for(*final(w)),
            old(self).bundles@.len() == 0 ==> r is None && *final(w) == *old(w) && *final(self)
                == *old(self),
            old(self).bundles@.len() > 0 ==> final(self).bundles@ == old(self).bundles@.skip(1)
                && match r {
                Some(e) => {
                    &&& !old(w).live(e)
                    &&& final(w).live(e)
                    &&& forall|e2: Entity| e2 != e ==> (final(w).live(e2) <==> old(w).live(e2))
                    &&& forall|e2: Entity|
                        e2 != e ==> World::same_entity_view(*old(w), *final(w), e2)
                    &&& forall|i: int|
                        0 <= i < old(self).bundles@[0]@.len() ==> final(w).value(
                            e,
                            (#[trigger] old(self).bundles@[0]@[i]).info.id,
                        ) == Some(old(self).bundles@[0]@[i].data@) && final(w).added_flag(
                            e,
                            old(self).bundles@[0]@[i].info.id,
                        ) && !final(w).mutated_flag(e, old(self).bundles@[0]@[i].info.id)
                    &&& forall|t: u64|
                        !bundle_has_id(old(self).bundles@[0]@, t) ==> final(w).value(e, t)
                            == None::<Seq<u8>>
                    &&& id_set(final(w).types_of(e)) == bundle_id_set(old(self).bundles@[0]@)
                    &&& forall|t: u64| final(w).removed_log(t) == old(w).removed_log(t)
                    &&& final(w).archetype_generation == old(w).archetype_generation
                    &&& forall|ids: Set<u64>|
                        final(w).has_archetype(ids) <==> old(w).has_archetype(ids)
                },
                None => false,
            },
    {
        if self.bundles.len() == 0 {
            return None;
        }
        let bundle = self.bundles.remove(0);
        let ghost b = bundle@;
        proof {
            assert(b == old(self).bundles@[0]@);
            assert(bundle_wf(b));
            assert(old(w).types_consistent(infos_of(b)));
            assert(old(w).entities.can_alloc());
        }
        let e = w.spawn(bundle);
        proof {
            assert(old(w).has_archetype(bundle_id_set(b)));
            assert(w.archetype_generation == old(w).archetype_generation);
            // no archetype was created, so every stored description is kept
            assert(w.n_archetypes() == old(w).n_archetypes());
            assert forall|ids: Set<u64>| w.has_archetype(ids) <==> old(w).has_archetype(
                ids,
            ) by {
                if ids == bundle_id_set(b) {
                    assert(old(w).has_archetype(ids));
                }
            }
            // the rest of the batch still fits the world
            assert forall|k: int|
                0 <= k < self.bundles@.len() implies w.types_consistent(
                infos_of((#[trigger] self.bundles@[k])@),
            ) by {
                assert(self.bundles@[k] == old(self).bundles@[k + 1]);
                assert(old(w).types_consistent(infos_of(old(self).bundles@[k + 1]@)));
                assert forall|a2: int, c2: int, k2: int|
                    0 <= a2 < w.n_archetypes() && 0 <= c2 < w.arch(a2).ncols() && 0 <= k2
                        < infos_of(self.bundles@[k]@).len() && (#[trigger] w.arch(a2).type_at(
                        c2,
                    )).id == (#[trigger] infos_of(self.bundles@[k]@)[k2]).id implies w.arch(
                    a2,
                ).type_at(c2) == infos_of(self.bundles@[k]@)[k2] by {
                    assert(w.arch(a2).types_seq() == old(w).arch(a2).types_seq());
                    assert(w.arch(a2).type_at(c2) == old(w).arch(a2).type_at(c2));
                }
            }
            if self.bundles@.len() > 0 {
                assert(w.has_archetype(bundle_id_set(self.bundles@[0]@))) by {
                    assert(self.bundles@[0] == old(self).bundles@[1]);
                    assert forall|t: u64|
                        bundle_has_id(old(self).bundles@[1]@, t) <==> bundle_has_id(b, t) by {
                        if bundle_has_id(old(self).bundles@[1]@, t) {
                            let k = choose|k: int|
                                0 <= k < old(self).bundles@[1]@.len() && old(
                                    self,
                                ).bundles@[1]@[k].info.id == t;
                            assert(infos_of(old(self).bundles@[1]@)[k].id == t);
                            assert(infos_of(b)[k].id == t);
                            assert(b[k].info.id == t);
                        }
                        if bundle_has_id(b, t) {
                            let k = choose|k: int| 0 <= k < b.len() && b[k].info.id == t;
                            assert(infos_of(b)[k].id == t);
                            assert(infos_of(old(self).bundles@[1]@)[k].id == t);
                            assert(old(self).bundles@[1]@[k].info.id == t);
                        }
                    }
                    assert(bundle_id_set(old(self).bundles@[1]@) =~= bundle_id_set(b));
                }
            }
        }
        Some(e)
    }

    /// Spawn every remaining bundle: a batch must run to completion, and this
    /// drives it there in one call.
    #[verifier::rlimit(100)]
    #[verifier::loop_isolation(false)]
    pub fn finish(&mut self, w: &mut World)
        requires
            old(w).wf(),
            old(self).wf_for(*old(w)),
        ensures
            final(w).wf(),
            final(self).bundles@.len() == 0,
            final(self).wf_for(*final(w)),
            forall|e2: Entity|
                old(w).live(e2) ==> final(w).live(e2) && World::same_entity_view(
                    *old(w),
                    *final(w),
                    e2,
                ),
            forall|t: u64| final(w).removed_log(t) == old(w).removed_log(t),
            final(w).archetype_generation == old(w).archetype_generation,
    {
        let ghost w0 = *old(w);
        while self.bundles.len() > 0
            invariant
                w.wf(),
                self.wf_for(*w),
                forall|e2: Entity|
                    w0.live(e2) ==> w.live(e2) && World::same_entity_view(w0, *w, e2),
                forall|t: u64| w.removed_log(t) == w0.removed_log(t),
                w.archetype_generation == w0.archetype_generation,
            decreases self.bundles@.len(),
        {
            let ghost w_pre = *w;
            let stepped = self.next(w);
            proof {
                let e = stepped->Some_0;
                assert forall|e2: Entity|
                    w0.live(e2) implies w.live(e2) && World::same_entity_view(w0, *w, e2) by {
                    assert(w_pre.live(e2) && World::same_entity_view(w0, w_pre, e2));
                    assert(e2 != e) by {
                        if e2 == e {
                            assert(w_pre.live(e));
                        }
                    }
                    assert(World::same_entity_view(w_pre, *w, e2));
                    assert forall|t: u64| #[trigger] w0.value(e2, t) == w.value(e2, t) by {
                        assert(w0.value(e2, t) == w_pre.value(e2, t));
                        assert(w_pre.value(e2, t) == w.value(e2, t));
                    }
                    assert forall|t: u64| #[trigger] w0.added_flag(e2, t) == w.added_flag(
                        e2,
                        t,
                    ) by {
                        assert(w0.added_flag(e2, t) == w_pre.added_flag(e2, t));
                        assert(w_pre.added_flag(e2, t) == w.added_flag(e2, t));
                    }
                    assert forall|t: u64| #[trigger] w0.mutated_flag(e2, t) == w.mutated_flag(
                        e2,
                        t,
                    ) by {
                        assert(w0.mutated_flag(e2, t) == w_pre.mutated_flag(e2, t));
                        assert(w_pre.mutated_flag(e2, t) == w.mutated_flag(e2, t));
                    }
                }
            }
        }
    }

    /// How many bundles are left to spawn.
    pub fn len(&self) -> (r: usize)
        ensures
            r == self.remaining().len(),
    {
        self.bundles.len()
    }
}

impl World {
    /// Prepare to spawn one entity per bundle; all bundles carry the same
    /// component types, in the same order.
    ///
    /// This resolves the shared archetype up front (bumping the generation if
    /// the set is new) and spawns nothing yet: each `next` of the returned
    /// iterator spawns one bundle, and the batch must be driven to the end.
    #[verifier::rlimit(100)]
    pub fn spawn_batch(&mut self, bundles: Vec<Vec<Component>>) -> (r: SpawnBatchIter)
        requires
            old(self).wf(),
            old(self).entities.n_slots() + bundles@.len() <= u32::MAX as int,
            forall|k: int| 0 <= k < bundles@.len() ==> bundle_wf((#[trigger] bundles@[k])@),
            forall|k: int|
                0 <= k < bundles@.len() ==> infos_of((#[trigger] bundles@[k])@) == infos_of(
                    bundles@[0]@,
                ),
            bundles@.len() > 0 ==> old(self).types_consistent(infos_of(bundles@[0]@)),
        ensures
            final(self).wf(),
            r.bundles@ == bundles@,
            r.wf_for(*final(self)),
            forall|e2: Entity| final(self).live(e2) <==> old(self).live(e2),
            forall|e2: Entity| Self::same_entity_view(*old(self), *final(self), e2),
            forall|t: u64| final(self).removed_log(t) == old(self).removed_log(t),
            final(self).entities == old(self).entities,
            final(self).archetype_generation as int == old(self).archetype_generation as int + (
            if bundles@.len() > 0 && !old(self).has_archetype(bundle_id_set(bundles@[0]@)) {
                1int
            } else {
                0int
            }),
            forall|ids: Set<u64>|
                final(self).has_archetype(ids) <==> old(self).has_archetype(ids) || (
                bundles@.len() > 0 && ids == bundle_id_set(bundles@[0]@)),
    {
        if bundles.len() > 0 {
            let ghost b0 = bundles@[0]@;
            let infos = infos_vec(&bundles[0]);
            proof {
                assert(infos@ == infos_of(b0));
                assert forall|i: int, j: int| 0 <= i < j < infos@.len() implies infos@[i].id
                    != infos@[j].id by {
                    assert(infos@[i] == b0[i].info && infos@[j] == b0[j].info);
                }
            }
            let sorted = crate::types::sort_infos(infos);
            proof {
                // the sorted descriptions are the first bundle's, so consistent
                assert forall|a2: int, c2: int, k2: int|
                    0 <= a2 < old(self).n_archetypes() && 0 <= c2 < old(self).arch(a2).ncols()
                        && 0 <= k2 < sorted@.len() && (#[trigger] old(self).arch(a2).type_at(
                        c2,
                    )).id == (#[trigger] sorted@[k2]).id implies old(self).arch(a2).type_at(c2)
                    == sorted@[k2] by {
                    assert(sorted@.contains(sorted@[k2]));
                    assert(infos_of(b0).contains(sorted@[k2]));
                    let k3 = choose|k3: int|
                        0 <= k3 < infos_of(b0).len() && infos_of(b0)[k3] == sorted@[k2];
                }
                // the sorted set is the first bundle's id set
                assert forall|t: u64| has_id(sorted@, t) <==> bundle_has_id(b0, t) by {
                    assert(has_id(sorted@, t) <==> has_id(infos_of(b0), t));
                    if has_id(infos_of(b0), t) {
                        let k = choose|k: int|
                            0 <= k < infos_of(b0).len() && infos_of(b0)[k].id == t;
                        assert(b0[k].info.id == t);
                    }
                    if bundle_has_id(b0, t) {
                        let k = choose|k: int| 0 <= k < b0.len() && b0[k].info.id == t;
                        assert(infos_of(b0)[k].id == t);
                    }
                }
                assert(id_set(sorted@) =~= bundle_id_set(b0));
            }
            let a = self.ensure_archetype(sorted);
            proof {
                let w = *self;
                assert forall|e2: Entity| Self::same_entity_view(*old(self), w, e2) by {
                    assert(w.entities == old(self).entities);
                    if old(self).live(e2) {
                        assert(old(self).entities.id_live(e2.id as int));
                        let l2 = old(self).entities.loc(e2.id as int);
                        assert((l2.archetype as int) < old(self).n_archetypes());
                        assert(w.arch(l2.archetype as int) == old(self).arch(
                            l2.archetype as int,
                        ));
                    }
                }
                assert(w.has_archetype(bundle_id_set(b0))) by {
                    assert(id_set(w.arch(a as int).types_seq()) == id_set(sorted@));
                }
                // the whole batch is consistent with the grown store
                assert forall|k: int|
                    0 <= k < bundles@.len() implies w.types_consistent(
                    infos_of((#[trigger] bundles@[k])@),
                ) by {
                    assert(infos_of(bundles@[k]@) == infos_of(b0));
                    assert forall|a2: int, c2: int, k2: int|
                        0 <= a2 < w.n_archetypes() && 0 <= c2 < w.arch(a2).ncols() && 0 <= k2
                            < infos_of(b0).len() && (#[trigger] w.arch(a2).type_at(c2)).id == (
                        #[trigger] infos_of(b0)[k2]).id implies w.arch(a2).type_at(c2)
                        == infos_of(b0)[k2] by {
                        if a2 < old(self).n_archetypes() {
                            assert(w.arch(a2) == old(self).arch(a2));
                        } else {
                            assert(a2 == old(self).n_archetypes());
                            assert(w.arch(a2).types_seq() == sorted@);
                            assert(sorted@.contains(sorted@[c2]));
                            assert(infos_of(b0).contains(sorted@[c2]));
                            let j3 = choose|j3: int|
                                0 <= j3 < infos_of(b0).len() && infos_of(b0)[j3] == sorted@[c2];
                            assert(infos_of(b0)[j3].id == infos_of(b0)[k2].id);
                            assert(b0[j3].info.id == b0[k2].info.id);
                            assert(j3 == k2) by {
                                if j3 != k2 {
                                    assert(b0[j3].info.id != b0[k2].info.id);
                                }
                            }
                        }
                    }
                }
            }
        }
        SpawnBatchIter { bundles }
    }
}

impl World {
    /// Generation safety: once an entity's slot carries another generation
    /// (as after a despawn), any live handle with the same id carries a
    /// generation different from the stale handle's.
    pub proof fn lemma_generation(w: World, e: Entity, e2: Entity)
        requires
            w.wf(),
            (e.id as int) < w.entities.n_slots(),
            w.entities.slot(e.id as int).generation != e.generation,
            w.live(e2),
            e2.id == e.id,
        ensures
            e2.generation != e.generation,
    {
    }

    /// Archetype membership: the entity stored at any row is live and the
    /// directory points it right back at that archetype and row.
    pub proof fn lemma_archetype_membership(w: World, a: int, r: int)
        requires
            w.wf(),
            0 <= a < w.n_archetypes(),
            0 <= r < w.arch(a).rows(),
        ensures
            w.entities.id_live(w.arch(a).entity_at(r) as int),
            w.entities.loc(w.arch(a).entity_at(r) as int).archetype as int == a,
            w.entities.loc(w.arch(a).entity_at(r) as int).index as int == r,
    {
    }

    /// Order independence: two live entities whose component sets carry the
    /// same ids live in the same archetype.
    pub proof fn lemma_same_set_same_archetype(w: World, e1: Entity, e2: Entity)
        requires
            w.wf(),
            w.live(e1),
            w.live(e2),
            id_set(w.types_of(e1)) == id_set(w.types_of(e2)),
        ensures
            w.arch_index_of(e1) == w.arch_index_of(e2),
    {
        let a1 = w.arch_index_of(e1);
        let a2 = w.arch_index_of(e2);
        assert(w.entities.id_live(e1.id as int));
        assert(w.entities.id_live(e2.id as int));
        assert(0 <= a1 < w.n_archetypes());
        assert(0 <= a2 < w.n_archetypes());
        assert(w.arch(a1).wf());
        assert(w.arch(a2).wf());
        lemma_same_id_set_same_ids(w.arch(a1).types_seq(), w.arch(a2).types_seq());
        assert(index_view(w.index)[ids_of(w.arch(a1).types_seq())] as int == a1);
        assert(index_view(w.index)[ids_of(w.arch(a2).types_seq())] as int == a2);
    }
}

impl World {
    /// Despawn every entity, logging each for every component type it had.
    /// Archetypes (and the generation counter) are kept; only their rows go.
    #[verifier::rlimit(100)]
    #[verifier::loop_isolation(false)]
    pub fn clear(&mut self)
        requires
            old(self).wf(),
        ensures
            final(self).wf(),
            forall|e2: Entity| !final(self).live(e2),
            forall|a: int|
                0 <= a < final(self).n_archetypes() ==> final(self).arch(a).rows() == 0,
            forall|t: u64, e2: Entity|
                #[trigger] final(self).removed_log(t).contains(e2) <==> old(self).removed_log(
                    t,
                ).contains(e2) || (old(self).live(e2) && old(self).value(e2, t) is Some),
            forall|t: u64|
                seq_extends(#[trigger] final(self).removed_log(t), old(self).removed_log(t)),
            forall|t: u64, i: int|
                old(self).removed_log(t).len() <= i < final(self).removed_log(t).len() ==> old(self).live(#[trigger] final(self).removed_log(t)[i]) && old(self).value(
                    final(self).removed_log(t)[i],
                    t,
                ) is Some,
            forall|t: u64, i: int, j: int|
                old(self).removed_log(t).len() <= i < j < final(self).removed_log(t).len()
                    ==> #[trigger] final(self).removed_log(t)[i] != #[trigger] final(self).removed_log(t)[j],
            final(self).entities.n_slots() == old(self).entities.n_slots(),
            old(self).entities.can_alloc() ==> final(self).entities.can_alloc(),
            final(self).archetype_generation == old(self).archetype_generation,
            final(self).n_archetypes() == old(self).n_archetypes(),
            final(self).index == old(self).index,
            forall|a: int|
                0 <= a < old(self).n_archetypes() ==> #[trigger] final(self).arch(a).types_seq()
                    == old(self).arch(a).types_seq(),
            forall|ids: Set<u64>|
                final(self).has_archetype(ids) <==> old(self).has_archetype(ids),
    {
        let ghost w0 = *old(self);
        let n = self.archetypes.len();
        let mut a: usize = 0;
        while a < n
            invariant
                a <= n,
                self.wf(),
                n == w0.n_archetypes(),
                self.n_archetypes() == n,
                self.index == w0.index,
                self.archetype_generation == w0.archetype_generation,
                forall|a2: int|
                    0 <= a2 < n ==> #[trigger] self.arch(a2).types_seq() == w0.arch(
                        a2,
                    ).types_seq(),
                forall|ids: Set<u64>| self.has_archetype(ids) <==> w0.has_archetype(ids),
                forall|a2: int| 0 <= a2 < a ==> self.arch(a2).rows() == 0,
                forall|e2: Entity|
                    #[trigger] self.live(e2) ==> w0.live(e2) && Self::same_entity_view(
                        w0,
                        *self,
                        e2,
                    ),
                forall|t: u64, e2: Entity|
                    #[trigger] log_get(self.removed_components@, t).contains(e2) <==> log_get(
                        w0.removed_components@,
                        t,
                    ).contains(e2) || (w0.live(e2) && !self.live(e2) && w0.value(e2, t) is Some),
                self.entities.n_slots() == w0.entities.n_slots(),
                self.entities.free@.len() >= w0.entities.free@.len(),
                forall|t: u64|
                    seq_extends(
                        #[trigger] log_get(self.removed_components@, t),
                        log_get(w0.removed_components@, t),
                    ),
                forall|t: u64, i: int|
                    log_get(w0.removed_components@, t).len() <= i < log_get(
                        self.removed_components@,
                        t,
                    ).len() ==> w0.live(#[trigger] log_get(self.removed_components@, t)[i])
                        && !self.live(log_get(self.removed_components@, t)[i]) && w0.value(
                        log_get(self.removed_components@, t)[i],
                        t,
                    ) is Some,
                forall|t: u64, i: int, j: int|
                    log_get(w0.removed_components@, t).len() <= i < j < log_get(
                        self.removed_components@,
                        t,
                    ).len() ==> #[trigger] log_get(self.removed_components@, t)[i]
                        != #[trigger] log_get(self.removed_components@, t)[j],
            decreases n - a,
        {
            while self.archetypes[a].len() > 0
                invariant
                    a < n,
                    self.wf(),
                    n == w0.n_archetypes(),
                    self.n_archetypes() == n,
                    self.index == w0.index,
                    self.archetype_generation == w0.archetype_generation,
                    forall|a2: int|
                        0 <= a2 < n ==> #[trigger] self.arch(a2).types_seq() == w0.arch(
                            a2,
                        ).types_seq(),
                    forall|ids: Set<u64>| self.has_archetype(ids) <==> w0.has_archetype(ids),
                    forall|a2: int| 0 <= a2 < a ==> self.arch(a2).rows() == 0,
                    forall|e2: Entity|
                        #[trigger] self.live(e2) ==> w0.live(e2) && Self::same_entity_view(
                            w0,
                            *self,
                            e2,
                        ),
                    forall|t: u64, e2: Entity|
                        #[trigger] log_get(self.removed_components@, t).contains(e2) <==> log_get(
                            w0.removed_components@,
                            t,
                        ).contains(e2) || (w0.live(e2) && !self.live(e2) && w0.value(
                            e2,
                            t,
                        ) is Some),
                    self.entities.n_slots() == w0.entities.n_slots(),
                    self.entities.free@.len() >= w0.entities.free@.len(),
                    forall|t: u64|
                        seq_extends(
                            #[trigger] log_get(self.removed_components@, t),
                            log_get(w0.removed_components@, t),
                        ),
                    forall|t: u64, i: int|
                        log_get(w0.removed_components@, t).len() <= i < log_get(
                            self.removed_components@,
                            t,
                        ).len() ==> w0.live(#[trigger] log_get(self.removed_components@, t)[i])
                            && !self.live(log_get(self.removed_components@, t)[i]) && w0.value(
                            log_get(self.removed_components@, t)[i],
                            t,
                        ) is Some,
                    forall|t: u64, i: int, j: int|
                        log_get(w0.removed_components@, t).len() <= i < j < log_get(
                            self.removed_components@,
                            t,
                        ).len() ==> #[trigger] log_get(self.removed_components@, t)[i]
                            != #[trigger] log_get(self.removed_components@, t)[j],
                decreases self.arch(a as int).rows(),
            {
                let ghost pre = *self;
                let row = self.archetypes[a].len() - 1;
                let id = self.archetypes[a].entity_id(row);
                proof {
                    assert(self.entities.id_live(id as int));
                    assert(self.entities.loc(id as int).archetype as int == a as int);
                }
                let generation = self.entities.slots[id as usize].generation;
                let e = Entity { id, generation };
                proof {
                    assert(pre.live(e));
                    assert(pre.arch_index_of(e) == a as int);
                }
                let outcome = self.despawn(e);
                proof {
                    assert(outcome is Ok);
                    assert(self.arch(a as int).rows() == pre.arch(a as int).rows() - 1);
                    assert(forall|a2: int|
                        0 <= a2 < n && a2 != a as int ==> self.arch(a2).rows() == pre.arch(
                            a2,
                        ).rows());
                    // the live set shrank by exactly this entity
                    assert forall|e2: Entity| #[trigger] self.live(e2) implies w0.live(e2)
                        && Self::same_entity_view(w0, *self, e2) by {
                        assert(e2 != e) by {
                            if e2 == e {
                                assert(!self.live(e));
                            }
                        }
                        assert(self.live(e2) <==> pre.live(e2));
                        assert(pre.live(e2));
                        assert(Self::same_entity_view(w0, pre, e2));
                        assert(Self::same_entity_view(pre, *self, e2));
                        assert forall|t: u64| #[trigger] w0.value(e2, t) == self.value(
                            e2,
                            t,
                        ) by {
                            assert(w0.value(e2, t) == pre.value(e2, t));
                            assert(pre.value(e2, t) == self.value(e2, t));
                        }
                        assert forall|t: u64| #[trigger] w0.added_flag(e2, t) == self.added_flag(
                            e2,
                            t,
                        ) by {
                            assert(w0.added_flag(e2, t) == pre.added_flag(e2, t));
                            assert(pre.added_flag(e2, t) == self.added_flag(e2, t));
                        }
                        assert forall|t: u64| #[trigger] w0.mutated_flag(e2, t)
                            == self.mutated_flag(e2, t) by {
                            assert(w0.mutated_flag(e2, t) == pre.mutated_flag(e2, t));
                            assert(pre.mutated_flag(e2, t) == self.mutated_flag(e2, t));
                        }
                    }
                    // the log gained this entity under each of its types
                    assert forall|t: u64, e2: Entity|
                        #[trigger] log_get(self.removed_components@, t).contains(e2) <==> log_get(
                        w0.removed_components@,
                        t,
                    ).contains(e2) || (w0.live(e2) && !self.live(e2) && w0.value(
                        e2,
                        t,
                    ) is Some) by {
                        let lg_pre = log_get(pre.removed_components@, t);
                        let lg = log_get(self.removed_components@, t);
                        assert(pre.removed_log(t) == lg_pre && self.removed_log(t) == lg);
                        if has_id(pre.types_of(e), t) {
                            assert(lg == lg_pre.push(e));
                            crate::types::lemma_drop_last_members(lg_pre.push(e));
                            assert(lg_pre.push(e).drop_last() =~= lg_pre);
                            assert(forall|x: Entity|
                                lg.contains(x) <==> lg_pre.contains(x) || x == e);
                        } else {
                            assert(lg == lg_pre);
                        }
                        if lg.contains(e2) {
                            if e2 == e && !lg_pre.contains(e2) {
                                assert(has_id(pre.types_of(e), t));
                                assert(pre.value(e, t) is Some);
                                assert(Self::same_entity_view(w0, pre, e));
                                assert(w0.value(e, t) == pre.value(e, t));
                                assert(w0.live(e));
                                assert(!self.live(e));
                            }
                        }
                        if w0.live(e2) && !self.live(e2) && w0.value(e2, t) is Some {
                            if pre.live(e2) {
                                assert(e2 == e) by {
                                    if e2 != e {
                                        assert(self.live(e2) <==> pre.live(e2));
                                    }
                                }
                                assert(w0.value(e, t) == pre.value(e, t));
                                assert(pre.value(e, t) is Some);
                                assert(has_id(pre.types_of(e), t));
                                assert(lg.contains(e2)) by {
                                    assert(lg == lg_pre.push(e));
                                    assert(lg[lg.len() - 1] == e);
                                }
                            } else {
                                assert(lg_pre.contains(e2));
                                assert(lg.contains(e2)) by {
                                    if has_id(pre.types_of(e), t) {
                                        let k = choose|k: int|
                                            0 <= k < lg_pre.len() && lg_pre[k] == e2;
                                        assert(lg[k] == e2);
                                    }
                                }
                            }
                        }
                    }
                    assert forall|ids: Set<u64>|
                        self.has_archetype(ids) <==> w0.has_archetype(ids) by {
                        assert(self.has_archetype(ids) <==> pre.has_archetype(ids));
                    }
                    // the appendix stays an exact, duplicate-free record
                    assert forall|t: u64|
                        seq_extends(
                            #[trigger] log_get(self.removed_components@, t),
                            log_get(w0.removed_components@, t),
                        ) by {
                        let lg_pre = log_get(pre.removed_components@, t);
                        let lg = log_get(self.removed_components@, t);
                        assert(pre.removed_log(t) == lg_pre && self.removed_log(t) == lg);
                        assert(seq_extends(lg_pre, log_get(w0.removed_components@, t)));
                        if has_id(pre.types_of(e), t) {
                            assert(lg == lg_pre.push(e));
                        } else {
                            assert(lg == lg_pre);
                        }
                    }
                    assert forall|t: u64, i: int|
                        log_get(w0.removed_components@, t).len() <= i < log_get(
                            self.removed_components@,
                            t,
                        ).len() implies w0.live(#[trigger] log_get(self.removed_components@, t)[i])
                        && !self.live(log_get(self.removed_components@, t)[i]) && w0.value(
                        log_get(self.removed_components@, t)[i],
                        t,
                    ) is Some by {
                        let lg_pre = log_get(pre.removed_components@, t);
                        let lg = log_get(self.removed_components@, t);
                        assert(pre.removed_log(t) == lg_pre && self.removed_log(t) == lg);
                        if has_id(pre.types_of(e), t) {
                            assert(lg == lg_pre.push(e));
                            if i < lg_pre.len() {
                                let x = lg_pre[i];
                                assert(w0.live(x) && !pre.live(x) && w0.value(x, t) is Some);
                                assert(!self.live(x)) by {
                                    if x.id != e.id {
                                        assert(self.live(x) <==> pre.live(x));
                                    }
                                }
                                assert(lg[i] == x);
                            } else {
                                assert(lg[i] == e);
                                assert(w0.live(e));
                                assert(Self::same_entity_view(w0, pre, e));
                                assert(w0.value(e, t) == pre.value(e, t));
                                assert(pre.value(e, t) is Some);
                                assert(!self.live(e));
                            }
                        } else {
                            assert(lg == lg_pre);
                            let x = lg_pre[i];
                            assert(w0.live(x) && !pre.live(x) && w0.value(x, t) is Some);
                            assert(!self.live(x)) by {
                                if x.id != e.id {
                                    assert(self.live(x) <==> pre.live(x));
                                }
                            }
                        }
                    }
                    assert forall|t: u64, i: int, j: int|
                        log_get(w0.removed_components@, t).len() <= i < j < log_get(
                            self.removed_components@,
                            t,
                        ).len() implies #[trigger] log_get(self.removed_components@, t)[i]
                        != #[trigger] log_get(self.removed_components@, t)[j] by {
                        let lg_pre = log_get(pre.removed_components@, t);
                        let lg = log_get(self.removed_components@, t);
                        assert(pre.removed_log(t) == lg_pre && self.removed_log(t) == lg);
                        if has_id(pre.types_of(e), t) {
                            assert(lg == lg_pre.push(e));
                            if j < lg_pre.len() {
                                assert(lg[i] == lg_pre[i] && lg[j] == lg_pre[j]);
                            } else {
                                assert(lg[j] == e);
                                assert(lg[i] == lg_pre[i]);
                                assert(!pre.live(lg_pre[i]));
                                assert(pre.live(e));
                            }
                        } else {
                            assert(lg == lg_pre);
                        }
                    }
                }
            }
            a += 1;
        }
        proof {
            assert forall|e2: Entity| !self.live(e2) by {
                if self.live(e2) {
                    assert(self.entities.id_live(e2.id as int));
                    let l2 = self.entities.loc(e2.id as int);
                    assert((l2.index as int) < self.arch(l2.archetype as int).rows());
                    assert(self.arch(l2.archetype as int).rows() == 0);
                }
            }
        }
    }
}

/// Freshness token for information derived from the archetype list.
#[derive(Clone, Copy, PartialEq, Eq, Structural, Debug)]
pub struct ArchetypesGeneration(pub u64);

} // verus!
