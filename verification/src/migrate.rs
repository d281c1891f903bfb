//! Row migration between archetypes: the shared machinery of component
//! insertion and removal that changes an entity's component set.

use vstd::prelude::*;

use crate::archetype::MovedComponent;
use crate::entities::Location;
use crate::entity::Entity;
use crate::index::index_view;
use crate::types::{
    bundle_has_id, bundle_wf, has_id, id_set, ids_of, infos_of, infos_vec, strictly_sorted,
    Component,
};
use crate::world::{log_get, log_keys_distinct, log_push, World};

verus! {

impl World {
    /// Move `entity`'s row out of its archetype into archetype `a`, which
    /// stores the union of the entity's component set and the (sorted)
    /// bundle's; retained components keep their bytes and bits, bundle
    /// components are written with both bits raised.
    #[verifier::rlimit(100)]
    #[verifier::loop_isolation(false)]
    pub(crate) fn migrate_on_insert(&mut self, entity: Entity, l: Location, a: usize, sorted: Vec<Component>)
        requires
            old(self).wf(),
            old(self).live(entity),
            l == old(self).entities.loc(entity.id as int),
            (a as int) < old(self).n_archetypes(),
            a as int != l.archetype as int,
            bundle_wf(sorted@),
            strictly_sorted(infos_of(sorted@)),
            forall|t: u64|
                has_id(old(self).arch(a as int).types_seq(), t) <==> has_id(
                    old(self).types_of(entity),
                    t,
                ) || bundle_has_id(sorted@, t),
            forall|k: int, c: int|
                0 <= k < sorted@.len() && 0 <= c < old(self).arch(a as int).ncols() && (
                #[trigger] old(self).arch(a as int).type_at(c)).id == (
                #[trigger] sorted@[k]).info.id ==> old(self).arch(a as int).type_at(c)
                    == sorted@[k].info,
        ensures
            final(self).wf(),
            forall|e2: Entity| final(self).live(e2) <==> old(self).live(e2),
            forall|k: int|
                0 <= k < sorted@.len() ==> final(self).value(
                    entity,
                    (#[trigger] sorted@[k]).info.id,
                ) == Some(sorted@[k].data@) && final(self).added_flag(entity, sorted@[k].info.id)
                    && final(self).mutated_flag(entity, sorted@[k].info.id),
            forall|t: u64|
                !bundle_has_id(sorted@, t) ==> final(self).value(entity, t) == old(self).value(
                    entity,
                    t,
                ) && final(self).added_flag(entity, t) == old(self).added_flag(entity, t)
                    && final(self).mutated_flag(entity, t) == old(self).mutated_flag(entity, t),
            final(self).types_of(entity) == old(self).arch(a as int).types_seq(),
            final(self).arch_index_of(entity) == a as int,
            final(self).entities.n_slots() == old(self).entities.n_slots(),
            final(self).entities.free@ == old(self).entities.free@,
            forall|e2: Entity|
                e2 != entity ==> Self::same_entity_view(*old(self), *final(self), e2),
            forall|t: u64| final(self).removed_log(t) == old(self).removed_log(t),
            final(self).archetype_generation == old(self).archetype_generation,
            forall|ids: Set<u64>|
                final(self).has_archetype(ids) <==> old(self).has_archetype(ids),
    {
        let ghost w0 = *old(self);
        let ghost sv = sorted@;
        let ghost ai = l.archetype as int;
        let ghost ti = a as int;
        let ghost ri = l.index as int;
        let ghost src_types = w0.arch(ai).types_seq();
        let ghost tt = w0.arch(ti).types_seq();
        let src = l.archetype;
        proof {
            assert(w0.entities.id_live(entity.id as int));
            assert((l.index as int) < w0.arch(ai).rows());
        }
        // read the source row, then swap-remove it
        let row_data = self.archetypes[src].read_row(l.index);
        let ghost rd = row_data@;
        let ghost old_rows = w0.arch(ai).rows();
        let ghost mid_g = w0.arch(ai).entity_at(old_rows - 1);
        let moved;
        {
            let arch = &mut self.archetypes[src];
            moved = arch.swap_remove_row(l.index);
        }
        proof {
            if ri != old_rows - 1 {
                assert(moved == Some(mid_g));
                assert(w0.entities.id_live(mid_g as int));
                assert(w0.entities.loc(mid_g as int).archetype as int == ai);
                assert(w0.entities.loc(mid_g as int).index as int == old_rows - 1);
                assert(mid_g != entity.id) by {
                    if mid_g == entity.id {
                        assert(w0.entities.loc(entity.id as int).index as int == ri);
                    }
                }
            } else {
                assert(moved == None::<u32>);
            }
        }
        // allocate the target row and point the directory at it
        let target_len = self.archetypes[a].len();
        let new_row;
        {
            let arch = &mut self.archetypes[a];
            new_row = arch.allocate(entity.id);
        }
        self.entities.set_location(entity, Location { archetype: a, index: new_row });
        match moved {
            Some(mid) => {
                proof {
                    assert(mid == mid_g && ri != old_rows - 1);
                    assert(self.entities.slot(mid as int) == w0.entities.slot(mid as int));
                    assert(self.entities.id_live(mid as int));
                }
                self.entities.fix_row(mid, l.index);
            },
            None => {},
        }
        let ghost w3 = *self;
        proof {
            // shape of the two touched archetypes after the move
            assert(w3.n_archetypes() == w0.n_archetypes());
            assert(forall|a2: int|
                0 <= a2 < w3.n_archetypes() && a2 != ai && a2 != ti ==> w3.arch(a2) == w0.arch(
                    a2,
                ));
            assert(w3.arch(ai).types_seq() == src_types);
            assert(w3.arch(ti).types_seq() == tt);
            assert(w3.arch(ai).rows() == old_rows - 1);
            assert(w3.arch(ti).rows() == target_len + 1);
            assert(new_row as int == target_len);
            assert(rd.len() == src_types.len());
            assert(w3.entities.live(entity));
            assert(w3.entities.loc(entity.id as int) == Location {
                archetype: a,
                index: new_row,
            });
        }
        // carry the retained components over, with their tracking bits
        let sorted_infos = infos_vec(&sorted);
        proof {
            assert(rd.take(rd.len() as int) =~= rd);
            assert(sv.take(sv.len() as int) =~= sv);
        }
        let mut rest = row_data;
        while rest.len() > 0
            invariant
                rest@ == rd.take(rest@.len() as int),
                rest@.len() <= rd.len(),
                self.entities == w3.entities,
                self.index == w3.index,
                self.removed_components == w3.removed_components,
                self.archetype_generation == w3.archetype_generation,
                self.n_archetypes() == w3.n_archetypes(),
                forall|a2: int|
                    0 <= a2 < self.n_archetypes() && a2 != ti ==> self.arch(a2) == w3.arch(a2),
                self.arch(ti).wf(),
                self.arch(ti).types_seq() == tt,
                self.arch(ti).rows() == w3.arch(ti).rows(),
                self.arch(ti).entities@ == w3.arch(ti).entities@,
                forall|c: int, r: int|
                    0 <= c < self.arch(ti).ncols() && 0 <= r < target_len ==> self.arch(ti).cell(
                        c,
                        r,
                    ) == w3.arch(ti).cell(c, r) && self.arch(ti).added_bit(c, r) == w3.arch(
                        ti,
                    ).added_bit(c, r) && self.arch(ti).mutated_bit(c, r) == w3.arch(
                        ti,
                    ).mutated_bit(c, r),
                forall|jj: int|
                    rest@.len() <= jj < rd.len() && !bundle_has_id(sv, (#[trigger] rd[jj]).info.id)
                        ==> self.arch(ti).has(rd[jj].info.id) && self.arch(ti).cell(
                        self.arch(ti).col_of(rd[jj].info.id),
                        target_len as int,
                    ) == rd[jj].data@ && self.arch(ti).added_bit(
                        self.arch(ti).col_of(rd[jj].info.id),
                        target_len as int,
                    ) == rd[jj].added && self.arch(ti).mutated_bit(
                        self.arch(ti).col_of(rd[jj].info.id),
                        target_len as int,
                    ) == rd[jj].mutated,
                forall|c: int|
                    0 <= c < self.arch(ti).ncols() && !(exists|jj: int|
                        rest@.len() <= jj < rd.len() && (#[trigger] rd[jj]).info.id == tt[c].id
                            && !bundle_has_id(sv, rd[jj].info.id)) ==> !self.arch(ti).added_bit(
                        c,
                        target_len as int,
                    ) && !self.arch(ti).mutated_bit(c, target_len as int),
            decreases rest.len(),
        {
            let jj = rest.len() - 1;
            let entry = match rest.pop() {
                Some(entry) => entry,
                None => {
                    proof {
                        assert(false);
                    }
                    unreached()
                },
            };
            proof {
                assert(entry == rd[jj as int]);
                assert(rest@ =~= rd.take(jj as int));
                assert(entry.info == src_types[jj as int]);
            }
            let in_bundle = crate::types::find_id(&sorted_infos, entry.info.id);
            match in_bundle {
                Some(u) => {
                    proof {
                        assert(bundle_has_id(sv, rd[jj as int].info.id)) by {
                            let c2 = choose|c2: int|
                                0 <= c2 < infos_of(sv).len() && infos_of(sv)[c2].id == entry.info.id;
                            assert(sv[c2].info.id == entry.info.id);
                        }
                        assert forall|c: int|
                            0 <= c < self.arch(ti).ncols() && !(exists|jj2: int|
                                jj as int <= jj2 < rd.len() && (#[trigger] rd[jj2]).info.id
                                    == tt[c].id && !bundle_has_id(sv, rd[jj2].info.id)) implies
                            !self.arch(ti).added_bit(c, target_len as int) && !self.arch(ti).mutated_bit(
                                c,
                                target_len as int,
                            ) by {
                            if exists|jj2: int|
                                jj as int + 1 <= jj2 < rd.len() && (#[trigger] rd[jj2]).info.id
                                    == tt[c].id && !bundle_has_id(sv, rd[jj2].info.id) {
                                let jj2 = choose|jj2: int|
                                    jj as int + 1 <= jj2 < rd.len() && (#[trigger] rd[jj2]).info.id
                                        == tt[c].id && !bundle_has_id(sv, rd[jj2].info.id);
                                assert(jj as int <= jj2 < rd.len() && rd[jj2].info.id == tt[c].id
                                    && !bundle_has_id(sv, rd[jj2].info.id));
                            }
                        }
                    }
                },
                None => {
                    proof {
                        assert(!has_id(infos_of(sv), entry.info.id));
                        assert(!bundle_has_id(sv, entry.info.id)) by {
                            if bundle_has_id(sv, entry.info.id) {
                                let c2 = choose|c2: int|
                                    0 <= c2 < sv.len() && sv[c2].info.id == entry.info.id;
                                assert(infos_of(sv)[c2].id == entry.info.id);
                            }
                        }
                        // the id is in the union set
                        assert(has_id(src_types, entry.info.id)) by {
                            assert(src_types[jj as int].id == entry.info.id);
                        }
                        assert(has_id(tt, entry.info.id));
                    }
                    let c = match self.archetypes[a].find_col(entry.info.id) {
                        Some(c) => c,
                        None => {
                            proof {
                                assert(false);
                            }
                            unreached()
                        },
                    };
                    proof {
                        self.arch(ti).lemma_col_of(entry.info.id);
                        // the target column's description is the source's
                        assert(tt[c as int] == src_types[jj as int]) by {
                            assert(w0.arch(ti).type_at(c as int).id == w0.arch(ai).type_at(
                                jj as int,
                            ).id);
                            assert(w0.arch(ti).type_at(c as int) == w0.arch(ai).type_at(
                                jj as int,
                            ));
                        }
                        assert(entry.data@.len() == self.arch(ti).type_at(c as int).size);
                    }
                    let ghost before = *self;
                    {
                        let arch = &mut self.archetypes[a];
                        arch.put(c, new_row, entry.data, entry.added, entry.mutated);
                    }
                    proof {
                        let ac = self.arch(ti);
                        assert(!before.arch(ti).added_bit(c as int, target_len as int) && !before.arch(
                            ti,
                        ).mutated_bit(c as int, target_len as int)) by {
                            assert(!(exists|jj2: int|
                                jj as int + 1 <= jj2 < rd.len() && (#[trigger] rd[jj2]).info.id
                                    == tt[c as int].id && !bundle_has_id(sv, rd[jj2].info.id)))
                                by {
                                if exists|jj2: int|
                                    jj as int + 1 <= jj2 < rd.len() && (#[trigger] rd[jj2]).info.id
                                        == tt[c as int].id && !bundle_has_id(
                                        sv,
                                        rd[jj2].info.id,
                                    ) {
                                    let jj2 = choose|jj2: int|
                                        jj as int + 1 <= jj2 < rd.len() && (
                                        #[trigger] rd[jj2]).info.id == tt[c as int].id
                                            && !bundle_has_id(sv, rd[jj2].info.id);
                                    assert(rd[jj2].info == src_types[jj2]);
                                    assert(src_types[jj as int].id < src_types[jj2].id);
                                }
                            }
                        }
                        assert forall|jj2: int|
                            jj as int <= jj2 < rd.len() && !bundle_has_id(
                                sv,
                                (#[trigger] rd[jj2]).info.id,
                            ) implies ac.has(rd[jj2].info.id) && ac.cell(
                            ac.col_of(rd[jj2].info.id),
                            target_len as int,
                        ) == rd[jj2].data@ && ac.added_bit(ac.col_of(rd[jj2].info.id), target_len as int)
                            == rd[jj2].added && ac.mutated_bit(
                            ac.col_of(rd[jj2].info.id),
                            target_len as int,
                        ) == rd[jj2].mutated by {
                            assert(rd[jj2].info == src_types[jj2]);
                            assert(has_id(tt, rd[jj2].info.id)) by {
                                assert(has_id(src_types, rd[jj2].info.id)) by {
                                    assert(src_types[jj2].id == rd[jj2].info.id);
                                }
                            }
                            ac.lemma_col_of(rd[jj2].info.id);
                            before.arch(ti).lemma_col_of(rd[jj2].info.id);
                            assert(before.arch(ti).col_of(rd[jj2].info.id) == ac.col_of(
                                rd[jj2].info.id,
                            )) by {
                                assert(ac.type_at(ac.col_of(rd[jj2].info.id)).id == rd[jj2].info.id);
                            }
                            if jj2 == jj as int {
                                assert(ac.col_of(rd[jj2].info.id) == c as int);
                            } else {
                                assert(ac.col_of(rd[jj2].info.id) != c as int) by {
                                    if ac.col_of(rd[jj2].info.id) == c as int {
                                        assert(rd[jj2].info.id == tt[c as int].id);
                                        assert(src_types[jj as int].id < src_types[jj2].id);
                                    }
                                }
                            }
                        }
                        assert forall|c2: int|
                            0 <= c2 < ac.ncols() && !(exists|jj2: int|
                                jj as int <= jj2 < rd.len() && (#[trigger] rd[jj2]).info.id
                                    == tt[c2].id && !bundle_has_id(sv, rd[jj2].info.id)) implies
                            !ac.added_bit(c2, target_len as int) && !ac.mutated_bit(c2, target_len as int) by {
                            assert(c2 != c as int) by {
                                if c2 == c as int {
                                    assert(rd[jj as int].info.id == tt[c2].id && !bundle_has_id(
                                        sv,
                                        rd[jj as int].info.id,
                                    ));
                                    assert(exists|jj2: int|
                                        jj as int <= jj2 < rd.len() && (#[trigger] rd[jj2]).info.id
                                            == tt[c2].id && !bundle_has_id(sv, rd[jj2].info.id));
                                }
                            }
                            assert(!(exists|jj2: int|
                                jj as int + 1 <= jj2 < rd.len() && (#[trigger] rd[jj2]).info.id
                                    == tt[c2].id && !bundle_has_id(sv, rd[jj2].info.id))) by {
                                if exists|jj2: int|
                                    jj as int + 1 <= jj2 < rd.len() && (#[trigger] rd[jj2]).info.id
                                        == tt[c2].id && !bundle_has_id(sv, rd[jj2].info.id) {
                                    let jj2 = choose|jj2: int|
                                        jj as int + 1 <= jj2 < rd.len() && (
                                        #[trigger] rd[jj2]).info.id == tt[c2].id
                                            && !bundle_has_id(sv, rd[jj2].info.id);
                                    assert(jj as int <= jj2 < rd.len() && rd[jj2].info.id
                                        == tt[c2].id && !bundle_has_id(sv, rd[jj2].info.id));
                                }
                            }
                        }
                    }
                },
            }
        }
        let ghost w4 = *self;
        // write the bundle's components with both bits raised
        let mut comps = sorted;
        let ghost n = sv.len() as int;
        while comps.len() > 0
            invariant
                comps@ == sv.take(comps@.len() as int),
                comps@.len() <= n,
                n == sv.len(),
                self.entities == w3.entities,
                self.index == w3.index,
                self.removed_components == w3.removed_components,
                self.archetype_generation == w3.archetype_generation,
                self.n_archetypes() == w3.n_archetypes(),
                forall|a2: int|
                    0 <= a2 < self.n_archetypes() && a2 != ti ==> self.arch(a2) == w3.arch(a2),
                self.arch(ti).wf(),
                self.arch(ti).types_seq() == tt,
                self.arch(ti).rows() == w3.arch(ti).rows(),
                self.arch(ti).entities@ == w3.arch(ti).entities@,
                forall|c: int, r: int|
                    0 <= c < self.arch(ti).ncols() && 0 <= r < target_len ==> self.arch(ti).cell(
                        c,
                        r,
                    ) == w3.arch(ti).cell(c, r) && self.arch(ti).added_bit(c, r) == w3.arch(
                        ti,
                    ).added_bit(c, r) && self.arch(ti).mutated_bit(c, r) == w3.arch(
                        ti,
                    ).mutated_bit(c, r),
                forall|jj: int|
                    0 <= jj < rd.len() && !bundle_has_id(sv, (#[trigger] rd[jj]).info.id)
                        ==> self.arch(ti).has(rd[jj].info.id) && self.arch(ti).cell(
                        self.arch(ti).col_of(rd[jj].info.id),
                        target_len as int,
                    ) == rd[jj].data@ && self.arch(ti).added_bit(
                        self.arch(ti).col_of(rd[jj].info.id),
                        target_len as int,
                    ) == rd[jj].added && self.arch(ti).mutated_bit(
                        self.arch(ti).col_of(rd[jj].info.id),
                        target_len as int,
                    ) == rd[jj].mutated,
                forall|j2: int|
                    comps@.len() <= j2 < n ==> self.arch(ti).has((#[trigger] sv[j2]).info.id)
                        && self.arch(ti).cell(
                        self.arch(ti).col_of(sv[j2].info.id),
                        target_len as int,
                    ) == sv[j2].data@ && self.arch(ti).added_bit(
                        self.arch(ti).col_of(sv[j2].info.id),
                        target_len as int,
                    ) && self.arch(ti).mutated_bit(self.arch(ti).col_of(sv[j2].info.id), target_len as int),
            decreases comps.len(),
        {
            let cl = comps.len() - 1;
            let comp = match comps.pop() {
                Some(comp) => comp,
                None => {
                    proof {
                        assert(false);
                    }
                    unreached()
                },
            };
            proof {
                assert(comp == sv[cl as int]);
                assert(comps@ =~= sv.take(cl as int));
                assert(has_id(tt, comp.info.id)) by {
                    assert(bundle_has_id(sv, comp.info.id)) by {
                        assert(sv[cl as int].info.id == comp.info.id);
                    }
                }
            }
            let c = match self.archetypes[a].find_col(comp.info.id) {
                Some(c) => c,
                None => {
                    proof {
                        assert(false);
                    }
                    unreached()
                },
            };
            proof {
                self.arch(ti).lemma_col_of(comp.info.id);
                // sizes agree: the target description is the bundle's
                assert(tt[c as int] == comp.info) by {
                    assert(w0.arch(ti).type_at(c as int).id == sv[cl as int].info.id);
                    assert(w0.arch(ti).type_at(c as int) == sv[cl as int].info);
                }
                assert(comp.data@.len() == self.arch(ti).type_at(c as int).size);
            }
            let ghost before = *self;
            {
                let arch = &mut self.archetypes[a];
                arch.put(c, new_row, comp.data, true, true);
            }
            proof {
                let ac = self.arch(ti);
                assert forall|jj: int|
                    0 <= jj < rd.len() && !bundle_has_id(sv, (#[trigger] rd[jj]).info.id)
                        implies ac.has(rd[jj].info.id) && ac.cell(
                    ac.col_of(rd[jj].info.id),
                    target_len as int,
                ) == rd[jj].data@ && ac.added_bit(ac.col_of(rd[jj].info.id), target_len as int)
                    == rd[jj].added && ac.mutated_bit(ac.col_of(rd[jj].info.id), target_len as int)
                    == rd[jj].mutated by {
                    before.arch(ti).lemma_col_of(rd[jj].info.id);
                    ac.lemma_col_of(rd[jj].info.id);
                    let cj = before.arch(ti).col_of(rd[jj].info.id);
                    assert(ac.col_of(rd[jj].info.id) == cj) by {
                        assert(ac.type_at(ac.col_of(rd[jj].info.id)).id == rd[jj].info.id);
                    }
                    assert(cj != c as int) by {
                        if cj == c as int {
                            assert(rd[jj].info.id == comp.info.id);
                            assert(bundle_has_id(sv, rd[jj].info.id)) by {
                                assert(sv[cl as int].info.id == rd[jj].info.id);
                            }
                        }
                    }
                }
                assert forall|j2: int|
                    cl as int <= j2 < n implies ac.has((#[trigger] sv[j2]).info.id) && ac.cell(
                    ac.col_of(sv[j2].info.id),
                    target_len as int,
                ) == sv[j2].data@ && ac.added_bit(ac.col_of(sv[j2].info.id), target_len as int)
                    && ac.mutated_bit(ac.col_of(sv[j2].info.id), target_len as int) by {
                    assert(has_id(tt, sv[j2].info.id)) by {
                        assert(bundle_has_id(sv, sv[j2].info.id)) by {
                            assert(sv[j2].info.id == sv[j2].info.id);
                        }
                    }
                    ac.lemma_col_of(sv[j2].info.id);
                    if j2 == cl as int {
                        assert(ac.col_of(sv[j2].info.id) == c as int);
                    } else {
                        before.arch(ti).lemma_col_of(sv[j2].info.id);
                        let cj = before.arch(ti).col_of(sv[j2].info.id);
                        assert(ac.col_of(sv[j2].info.id) == cj) by {
                            assert(ac.type_at(ac.col_of(sv[j2].info.id)).id == sv[j2].info.id);
                        }
                        assert(cj != c as int) by {
                            if cj == c as int {
                                assert(sv[j2].info.id == sv[cl as int].info.id);
                            }
                        }
                    }
                }
            }
        }
        proof {
            let w = *self;
            assert(sv.take(0) =~= Seq::<Component>::empty());
            // every id of the union set got its cell written or carried
            // directory: entity moved; possibly one source entity reseated
            assert forall|id: int| #[trigger] w.entities.id_live(id) implies (w.entities.loc(
                id,
            ).archetype as int) < w.n_archetypes() && (w.entities.loc(id).index as int) < w.arch(
                w.entities.loc(id).archetype as int,
            ).rows() && w.arch(w.entities.loc(id).archetype as int).entity_at(
                w.entities.loc(id).index as int,
            ) as int == id by {
                if id == entity.id as int {
                    assert(w.entities.loc(id) == Location { archetype: a, index: new_row });
                    assert(w.arch(ti).entity_at(target_len as int) as int == entity.id as int);
                } else if ri != old_rows - 1 && id == mid_g as int {
                    assert(w.entities.loc(id) == Location {
                        archetype: src,
                        index: l.index,
                    });
                    assert(w.arch(ai).entity_at(ri) as int == mid_g as int);
                } else {
                    assert(w.entities.slot(id) == w0.entities.slot(id));
                    assert(w0.entities.id_live(id));
                    let l2 = w0.entities.loc(id);
                    if l2.archetype as int == ai {
                        assert(w0.arch(ai).entity_at(l2.index as int) as int == id);
                        assert(l2.index as int != ri) by {
                            if l2.index as int == ri {
                                assert(w0.arch(ai).entity_at(ri) as int == entity.id as int);
                            }
                        }
                        assert(l2.index as int != old_rows - 1) by {
                            if l2.index as int == old_rows - 1 {
                                if ri != old_rows - 1 {
                                    assert(id == mid_g as int);
                                } else {
                                    assert(false);
                                }
                            }
                        }
                        assert(w.arch(ai).entity_at(l2.index as int) == w0.arch(ai).entity_at(
                            l2.index as int,
                        ));
                    } else if l2.archetype as int == ti {
                        assert((l2.index as int) < target_len);
                        assert(w.arch(ti).entity_at(l2.index as int) == w3.arch(ti).entity_at(
                            l2.index as int,
                        ));
                        assert(w3.arch(ti).entity_at(l2.index as int) == w0.arch(ti).entity_at(
                            l2.index as int,
                        ));
                    } else {
                        assert(w.arch(l2.archetype as int) == w0.arch(l2.archetype as int));
                    }
                }
            }
            assert(w.inv_directory());
            assert forall|a2: int, r: int|
                0 <= a2 < w.n_archetypes() && 0 <= r < w.arch(a2).rows() implies
                w.entities.id_live((#[trigger] w.arch(a2).entity_at(r)) as int) && w.entities.loc(
                w.arch(a2).entity_at(r) as int,
            ).archetype as int == a2 && w.entities.loc(w.arch(a2).entity_at(r) as int).index as int
                == r by {
                if a2 == ti && r == target_len as int {
                    assert(w.arch(ti).entity_at(r) == entity.id);
                } else if a2 == ai && r == ri && ri < old_rows - 1 {
                    assert(w.arch(ai).entity_at(r) == mid_g);
                } else {
                    let id = if a2 == ti {
                        w0.arch(ti).entity_at(r)
                    } else {
                        w0.arch(a2).entity_at(r)
                    };
                    if a2 == ti {
                        assert(w.arch(ti).entity_at(r) == w0.arch(ti).entity_at(r));
                        assert(w0.entities.id_live(w0.arch(ti).entity_at(r) as int));
                    } else if a2 == ai {
                        assert(w.arch(ai).entity_at(r) == (if r == ri {
                            w0.arch(ai).entity_at(old_rows - 1)
                        } else {
                            w0.arch(ai).entity_at(r)
                        }));
                        assert(r != ri || ri == old_rows - 1);
                        assert(w.arch(ai).entity_at(r) == w0.arch(ai).entity_at(r));
                    } else {
                        assert(w.arch(a2) == w0.arch(a2));
                    }
                    let id2 = w.arch(a2).entity_at(r);
                    assert(w0.entities.id_live(id2 as int));
                    assert(w0.entities.loc(id2 as int).archetype as int == a2);
                    assert(w0.entities.loc(id2 as int).index as int == r);
                    assert(id2 != entity.id) by {
                        if id2 == entity.id {
                            assert(a2 == ai && r == ri);
                            assert(ri == old_rows - 1);
                            assert(r < old_rows - 1);
                        }
                    }
                    if ri != old_rows - 1 && id2 == mid_g {
                        assert(a2 == ai && r == old_rows - 1);
                        assert(false);
                    }
                    assert(w.entities.slot(id2 as int) == w0.entities.slot(id2 as int));
                }
            }
            assert(w.inv_rows());
            assert(w.inv_index()) by {
                assert forall|a2: int| 0 <= a2 < w.n_archetypes() implies index_view(
                    w.index,
                ).dom().contains(#[trigger] ids_of(w.arch(a2).types_seq())) && index_view(
                    w.index,
                )[ids_of(w.arch(a2).types_seq())] as int == a2 by {
                    assert(w.arch(a2).types_seq() == w0.arch(a2).types_seq());
                }
                assert forall|kk: Seq<u64>| #[trigger] index_view(w.index).dom().contains(
                    kk,
                ) implies {
                    let a2 = index_view(w.index)[kk] as int;
                    0 <= a2 < w.n_archetypes() && ids_of(w.arch(a2).types_seq()) == kk
                } by {
                    assert(index_view(w0.index).dom().contains(kk));
                    let a2 = index_view(w0.index)[kk] as int;
                    assert(ids_of(w0.arch(a2).types_seq()) == kk);
                    assert(w.arch(a2).types_seq() == w0.arch(a2).types_seq());
                }
            }
            assert(w.inv_archetypes()) by {
                assert forall|a2: int| 0 <= a2 < w.n_archetypes() implies (#[trigger] w.arch(
                    a2,
                )).wf() by {
                    if a2 != ti && a2 != ai {
                        assert(w.arch(a2) == w3.arch(a2));
                    } else if a2 == ai {
                        assert(w.arch(ai) == w3.arch(ai));
                    }
                }
            }
            assert(w.inv_global_types()) by {
                assert forall|a1: int, c1: int, a2: int, c2: int|
                    0 <= a1 < w.n_archetypes() && 0 <= c1 < w.arch(a1).ncols() && 0 <= a2
                        < w.n_archetypes() && 0 <= c2 < w.arch(a2).ncols() && (#[trigger] w.arch(
                    a1,
                ).type_at(c1)).id == (#[trigger] w.arch(a2).type_at(c2)).id implies w.arch(
                    a1,
                ).type_at(c1) == w.arch(a2).type_at(c2) by {
                    assert(w.arch(a1).types_seq() == w0.arch(a1).types_seq());
                    assert(w.arch(a2).types_seq() == w0.arch(a2).types_seq());
                    assert(w.arch(a1).type_at(c1) == w0.arch(a1).type_at(c1));
                    assert(w.arch(a2).type_at(c2) == w0.arch(a2).type_at(c2));
                }
            }
            assert(w.arch(0).types_seq() == w0.arch(0).types_seq());
            assert(w.wf());
            // the entity now reads as the union of its old row and the bundle
            assert(w.arch_index_of(entity) == ti);
            assert(w.row_of(entity) == target_len);
            assert(w.types_of(entity) == tt);
            assert forall|kk: int| 0 <= kk < sv.len() implies w.value(
                entity,
                (#[trigger] sv[kk]).info.id,
            ) == Some(sv[kk].data@) && w.mutated_flag(entity, sv[kk].info.id) && w.added_flag(
                entity,
                sv[kk].info.id,
            ) by {
                let t = sv[kk].info.id;
                assert(w.arch(ti).has(t)) by {
                    assert(has_id(tt, t)) by {
                        assert(bundle_has_id(sv, t));
                    }
                }
                assert(w.arch(ti).cell(w.arch(ti).col_of(sv[kk].info.id), target_len as int)
                    == sv[kk].data@);
            }
            assert forall|t: u64| !bundle_has_id(sv, t) implies w.value(entity, t) == w0.value(
                entity,
                t,
            ) && w.added_flag(entity, t) == w0.added_flag(entity, t) && w.mutated_flag(entity, t)
                == w0.mutated_flag(entity, t) by {
                if w0.arch(ai).has(t) {
                    w0.arch(ai).lemma_col_of(t);
                    let cs = w0.arch(ai).col_of(t);
                    assert(rd[cs].info == src_types[cs]);
                    assert(rd[cs].info.id == t);
                    assert(w.arch(ti).has(rd[cs].info.id));
                    assert(w.value(entity, t) == Some(
                        w.arch(ti).cell(w.arch(ti).col_of(t), target_len as int),
                    ));
                    assert(w.arch(ti).cell(w.arch(ti).col_of(rd[cs].info.id), target_len as int)
                        == rd[cs].data@);
                    assert(rd[cs].data@ == w0.arch(ai).cell(cs, ri));
                    assert(rd[cs].added == w0.arch(ai).added_bit(cs, ri));
                    assert(rd[cs].mutated == w0.arch(ai).mutated_bit(cs, ri));
                } else {
                    assert(!has_id(src_types, t));
                    assert(!w.arch(ti).has(t)) by {
                        if has_id(tt, t) {
                            assert(has_id(src_types, t) || bundle_has_id(sv, t));
                        }
                    }
                    assert(w.value(entity, t) == None::<Seq<u8>>);
                    assert(w0.value(entity, t) == None::<Seq<u8>>);
                    assert(!w.added_flag(entity, t) && !w0.added_flag(entity, t));
                    assert(!w.mutated_flag(entity, t) && !w0.mutated_flag(entity, t));
                }
            }
            // liveness is untouched
            assert forall|e2: Entity| w.live(e2) <==> w0.live(e2) by {
                if e2.id == entity.id {
                    assert(w.entities.slot(e2.id as int).live == w0.entities.slot(
                        e2.id as int,
                    ).live);
                    assert(w.entities.slot(e2.id as int).generation == w0.entities.slot(
                        e2.id as int,
                    ).generation);
                } else if ri != old_rows - 1 && e2.id == mid_g {
                    assert(w.entities.slot(e2.id as int).live == w0.entities.slot(
                        e2.id as int,
                    ).live);
                    assert(w.entities.slot(e2.id as int).generation == w0.entities.slot(
                        e2.id as int,
                    ).generation);
                } else {
                    assert(w.entities.slot(e2.id as int) == w0.entities.slot(e2.id as int)
                        || e2.id as int >= w.entities.n_slots());
                }
            }
            // no other entity's view changes
            assert forall|e2: Entity| e2 != entity implies Self::same_entity_view(
                w0,
                w,
                e2,
            ) by {
                assert(w.live(e2) <==> w0.live(e2));
                if w0.live(e2) {
                    assert(e2.id != entity.id) by {
                        if e2.id == entity.id {
                            assert(w0.entities.slot(e2.id as int).generation == e2.generation);
                            assert(w0.entities.slot(e2.id as int).generation
                                == entity.generation);
                        }
                    }
                    let l2 = w0.entities.loc(e2.id as int);
                    assert(w0.entities.id_live(e2.id as int));
                    if ri != old_rows - 1 && e2.id == mid_g {
                        assert(l2.archetype as int == ai && l2.index as int == old_rows - 1);
                        assert(w.entities.loc(e2.id as int).archetype as int == ai);
                        assert(w.entities.loc(e2.id as int).index as int == ri);
                        assert forall|t: u64| #[trigger] w0.value(e2, t) == w.value(e2, t)
                            && w0.added_flag(e2, t) == w.added_flag(e2, t) && w0.mutated_flag(
                            e2,
                            t,
                        ) == w.mutated_flag(e2, t) by {
                            if w0.arch(ai).has(t) {
                                w0.arch(ai).lemma_col_of(t);
                                let c = w0.arch(ai).col_of(t);
                                assert(w.arch(ai).cell(c, ri) == w0.arch(ai).cell(
                                    c,
                                    old_rows - 1,
                                ));
                            }
                        }
                    } else {
                        assert(w.entities.loc(e2.id as int) == l2);
                        assert forall|t: u64| #[trigger] w0.value(e2, t) == w.value(e2, t)
                            && w0.added_flag(e2, t) == w.added_flag(e2, t) && w0.mutated_flag(
                            e2,
                            t,
                        ) == w.mutated_flag(e2, t) by {
                            if l2.archetype as int == ai {
                                assert(w0.arch(ai).entity_at(l2.index as int) as int
                                    == e2.id as int);
                                assert(l2.index as int != ri) by {
                                    if l2.index as int == ri {
                                        assert(w0.arch(ai).entity_at(ri) as int
                                            == entity.id as int);
                                    }
                                }
                                assert(l2.index as int != old_rows - 1) by {
                                    if l2.index as int == old_rows - 1 {
                                        if ri != old_rows - 1 {
                                            assert(e2.id == mid_g);
                                            assert(false);
                                        } else {
                                            assert(l2.index as int == ri);
                                        }
                                    }
                                }
                                if w0.arch(ai).has(t) {
                                    w0.arch(ai).lemma_col_of(t);
                                    let c = w0.arch(ai).col_of(t);
                                    assert(w.arch(ai).cell(c, l2.index as int) == w0.arch(
                                        ai,
                                    ).cell(c, l2.index as int));
                                }
                            } else if l2.archetype as int == ti {
                                assert((l2.index as int) < target_len);
                                if w0.arch(ti).has(t) {
                                    w0.arch(ti).lemma_col_of(t);
                                    let c = w0.arch(ti).col_of(t);
                                    assert(w.arch(ti).cell(c, l2.index as int) == w3.arch(
                                        ti,
                                    ).cell(c, l2.index as int));
                                    assert(w3.arch(ti).cell(c, l2.index as int) == w0.arch(
                                        ti,
                                    ).cell(c, l2.index as int));
                                    assert(w.arch(ti).added_bit(c, l2.index as int) == w0.arch(
                                        ti,
                                    ).added_bit(c, l2.index as int));
                                    assert(w.arch(ti).mutated_bit(c, l2.index as int) == w0.arch(
                                        ti,
                                    ).mutated_bit(c, l2.index as int));
                                }
                            } else {
                                assert(w.arch(l2.archetype as int) == w0.arch(l2.archetype as int));
                            }
                        }
                    }
                }
            }
            // bookkeeping
            assert(forall|t: u64| w.removed_log(t) == w0.removed_log(t));
            assert forall|ids: Set<u64>| w.has_archetype(ids) <==> w0.has_archetype(ids) by {
                assert(forall|a2: int|
                    0 <= a2 < w.n_archetypes() ==> #[trigger] w.arch(a2).types_seq() == w0.arch(
                        a2,
                    ).types_seq());
                if w.has_archetype(ids) {
                    let a2 = choose|a2: int|
                        0 <= a2 < w.n_archetypes() && id_set(w.arch(a2).types_seq()) == ids;
                    assert(id_set(w0.arch(a2).types_seq()) == ids);
                }
                if w0.has_archetype(ids) {
                    let a2 = choose|a2: int|
                        0 <= a2 < w0.n_archetypes() && id_set(w0.arch(a2).types_seq()) == ids;
                    assert(id_set(w.arch(a2).types_seq()) == ids);
                }
            }
            // the entity's bundle components are in place
            assert forall|k2: int| 0 <= k2 < sv.len() implies w.value(
                entity,
                (#[trigger] sv[k2]).info.id,
            ) == Some(sv[k2].data@) && w.added_flag(entity, sv[k2].info.id) && w.mutated_flag(
                entity,
                sv[k2].info.id,
            ) by {
                assert(w.arch(ti).has(sv[k2].info.id));
                assert(w.arch(ti).cell(w.arch(ti).col_of(sv[k2].info.id), target_len as int)
                    == sv[k2].data@);
            }
        }
    }
}

impl World {
    /// Move `entity`'s row out of its archetype into archetype `a`, whose
    /// component set is a subset of the entity's: retained components keep
    /// their bytes and bits, the others are logged as removed from `entity`.
    #[verifier::rlimit(100)]
    #[verifier::loop_isolation(false)]
    pub(crate) fn migrate_on_remove(&mut self, entity: Entity, l: Location, a: usize)
        requires
            old(self).wf(),
            old(self).live(entity),
            l == old(self).entities.loc(entity.id as int),
            (a as int) < old(self).n_archetypes(),
            a as int != l.archetype as int,
            forall|t: u64|
                has_id(old(self).arch(a as int).types_seq(), t) ==> has_id(
                    old(self).types_of(entity),
                    t,
                ),
        ensures
            final(self).wf(),
            forall|e2: Entity| final(self).live(e2) <==> old(self).live(e2),
            forall|t: u64|
                has_id(old(self).arch(a as int).types_seq(), t) ==> final(self).value(entity, t)
                    == old(self).value(entity, t) && final(self).added_flag(entity, t) == old(
                    self,
                ).added_flag(entity, t) && final(self).mutated_flag(entity, t) == old(
                    self,
                ).mutated_flag(entity, t),
            forall|t: u64|
                !has_id(old(self).arch(a as int).types_seq(), t) ==> final(self).value(entity, t)
                    == None::<Seq<u8>>,
            final(self).types_of(entity) == old(self).arch(a as int).types_seq(),
            final(self).arch_index_of(entity) == a as int,
            final(self).entities.n_slots() == old(self).entities.n_slots(),
            final(self).entities.free@ == old(self).entities.free@,
            forall|e2: Entity|
                e2 != entity ==> Self::same_entity_view(*old(self), *final(self), e2),
            forall|t: u64|
                final(self).removed_log(t) == if has_id(old(self).types_of(entity), t) && !has_id(
                    old(self).arch(a as int).types_seq(),
                    t,
                ) {
                    old(self).removed_log(t).push(entity)
                } else {
                    old(self).removed_log(t)
                },
            final(self).archetype_generation == old(self).archetype_generation,
            forall|ids: Set<u64>|
                final(self).has_archetype(ids) <==> old(self).has_archetype(ids),
    {
        let ghost w0 = *old(self);
        let ghost ai = l.archetype as int;
        let ghost ti = a as int;
        let ghost ri = l.index as int;
        let ghost src_types = w0.arch(ai).types_seq();
        let ghost tt = w0.arch(ti).types_seq();
        let src = l.archetype;
        proof {
            assert(w0.entities.id_live(entity.id as int));
            assert((l.index as int) < w0.arch(ai).rows());
        }
        // read the source row, then swap-remove it
        let row_data = self.archetypes[src].read_row(l.index);
        let ghost rd = row_data@;
        let ghost old_rows = w0.arch(ai).rows();
        let ghost mid_g = w0.arch(ai).entity_at(old_rows - 1);
        let moved;
        {
            let arch = &mut self.archetypes[src];
            moved = arch.swap_remove_row(l.index);
        }
        proof {
            if ri != old_rows - 1 {
                assert(moved == Some(mid_g));
                assert(w0.entities.id_live(mid_g as int));
                assert(w0.entities.loc(mid_g as int).archetype as int == ai);
                assert(w0.entities.loc(mid_g as int).index as int == old_rows - 1);
                assert(mid_g != entity.id) by {
                    if mid_g == entity.id {
                        assert(w0.entities.loc(entity.id as int).index as int == ri);
                    }
                }
            } else {
                assert(moved == None::<u32>);
            }
        }
        // allocate the target row and point the directory at it
        let target_len = self.archetypes[a].len();
        let new_row;
        {
            let arch = &mut self.archetypes[a];
            new_row = arch.allocate(entity.id);
        }
        self.entities.set_location(entity, Location { archetype: a, index: new_row });
        match moved {
            Some(mid) => {
                proof {
                    assert(mid == mid_g && ri != old_rows - 1);
                    assert(self.entities.slot(mid as int) == w0.entities.slot(mid as int));
                    assert(self.entities.id_live(mid as int));
                }
                self.entities.fix_row(mid, l.index);
            },
            None => {},
        }
        let ghost w3 = *self;
        proof {
            assert(w3.n_archetypes() == w0.n_archetypes());
            assert(forall|a2: int|
                0 <= a2 < w3.n_archetypes() && a2 != ai && a2 != ti ==> w3.arch(a2) == w0.arch(
                    a2,
                ));
            assert(w3.arch(ai).types_seq() == src_types);
            assert(w3.arch(ti).types_seq() == tt);
            assert(w3.arch(ai).rows() == old_rows - 1);
            assert(w3.arch(ti).rows() == target_len + 1);
            assert(new_row as int == target_len);
            assert(rd.len() == src_types.len());
            assert(w3.entities.live(entity));
            assert(rd.take(rd.len() as int) =~= rd);
        }
        // route each source component: to the target row, or to the log
        let mut rest = row_data;
        while rest.len() > 0
            invariant
                rest@ == rd.take(rest@.len() as int),
                rest@.len() <= rd.len(),
                self.entities == w3.entities,
                self.index == w3.index,
                self.archetype_generation == w3.archetype_generation,
                self.n_archetypes() == w3.n_archetypes(),
                forall|a2: int|
                    0 <= a2 < self.n_archetypes() && a2 != ti ==> self.arch(a2) == w3.arch(a2),
                self.arch(ti).wf(),
                self.arch(ti).types_seq() == tt,
                self.arch(ti).rows() == w3.arch(ti).rows(),
                self.arch(ti).entities@ == w3.arch(ti).entities@,
                forall|c: int, r: int|
                    0 <= c < self.arch(ti).ncols() && 0 <= r < target_len ==> self.arch(ti).cell(
                        c,
                        r,
                    ) == w3.arch(ti).cell(c, r) && self.arch(ti).added_bit(c, r) == w3.arch(
                        ti,
                    ).added_bit(c, r) && self.arch(ti).mutated_bit(c, r) == w3.arch(
                        ti,
                    ).mutated_bit(c, r),
                forall|jj: int|
                    rest@.len() <= jj < rd.len() && has_id(tt, (#[trigger] rd[jj]).info.id)
                        ==> self.arch(ti).cell(
                        self.arch(ti).col_of(rd[jj].info.id),
                        target_len as int,
                    ) == rd[jj].data@ && self.arch(ti).added_bit(
                        self.arch(ti).col_of(rd[jj].info.id),
                        target_len as int,
                    ) == rd[jj].added && self.arch(ti).mutated_bit(
                        self.arch(ti).col_of(rd[jj].info.id),
                        target_len as int,
                    ) == rd[jj].mutated,
                forall|c: int|
                    0 <= c < self.arch(ti).ncols() && !(exists|jj2: int|
                        rest@.len() <= jj2 < rd.len() && (#[trigger] rd[jj2]).info.id == tt[c].id)
                        ==> !self.arch(ti).added_bit(c, target_len as int) && !self.arch(
                        ti,
                    ).mutated_bit(c, target_len as int),
                log_keys_distinct(self.removed_components@),
                forall|t: u64|
                    (exists|jj: int|
                        rest@.len() <= jj < rd.len() && (#[trigger] rd[jj]).info.id == t
                            && !has_id(tt, t)) ==> log_get(self.removed_components@, t) == log_get(
                        w3.removed_components@,
                        t,
                    ).push(entity),
                forall|t: u64|
                    !(exists|jj: int|
                        rest@.len() <= jj < rd.len() && (#[trigger] rd[jj]).info.id == t
                            && !has_id(tt, t)) ==> log_get(self.removed_components@, t)
                        == log_get(w3.removed_components@, t),
            decreases rest.len(),
        {
            let jj = rest.len() - 1;
            let entry = match rest.pop() {
                Some(entry) => entry,
                None => {
                    proof {
                        assert(false);
                    }
                    unreached()
                },
            };
            proof {
                assert(entry == rd[jj as int]);
                assert(rest@ =~= rd.take(jj as int));
                assert(entry.info == src_types[jj as int]);
            }
            let dest = self.archetypes[a].find_col(entry.info.id);
            match dest {
                Some(c) => {
                    proof {
                        self.arch(ti).lemma_col_of(entry.info.id);
                        assert(tt[c as int] == src_types[jj as int]) by {
                            assert(w0.arch(ti).type_at(c as int).id == w0.arch(ai).type_at(
                                jj as int,
                            ).id);
                            assert(w0.arch(ti).type_at(c as int) == w0.arch(ai).type_at(
                                jj as int,
                            ));
                        }
                        assert(entry.data@.len() == self.arch(ti).type_at(c as int).size);
                        assert(!self.arch(ti).added_bit(c as int, target_len as int)
                            && !self.arch(ti).mutated_bit(c as int, target_len as int)) by {
                            assert(!(exists|jj2: int|
                                jj as int + 1 <= jj2 < rd.len() && (#[trigger] rd[jj2]).info.id
                                    == tt[c as int].id)) by {
                                if exists|jj2: int|
                                    jj as int + 1 <= jj2 < rd.len() && (#[trigger] rd[jj2]).info.id
                                        == tt[c as int].id {
                                    let jj2 = choose|jj2: int|
                                        jj as int + 1 <= jj2 < rd.len() && (
                                        #[trigger] rd[jj2]).info.id == tt[c as int].id;
                                    assert(rd[jj2].info == src_types[jj2]);
                                    assert(src_types[jj as int].id < src_types[jj2].id);
                                    assert(tt[c as int].id == src_types[jj as int].id);
                                }
                            }
                        }
                    }
                    let ghost before = *self;
                    {
                        let arch = &mut self.archetypes[a];
                        arch.put(c, new_row, entry.data, entry.added, entry.mutated);
                    }
                    proof {
                        let ac = self.arch(ti);
                        assert forall|jj2: int|
                            jj as int <= jj2 < rd.len() && has_id(
                                tt,
                                (#[trigger] rd[jj2]).info.id,
                            ) implies ac.cell(
                            ac.col_of(rd[jj2].info.id),
                            target_len as int,
                        ) == rd[jj2].data@ && ac.added_bit(
                            ac.col_of(rd[jj2].info.id),
                            target_len as int,
                        ) == rd[jj2].added && ac.mutated_bit(
                            ac.col_of(rd[jj2].info.id),
                            target_len as int,
                        ) == rd[jj2].mutated by {
                            assert(rd[jj2].info == src_types[jj2]);
                            ac.lemma_col_of(rd[jj2].info.id);
                            before.arch(ti).lemma_col_of(rd[jj2].info.id);
                            assert(before.arch(ti).col_of(rd[jj2].info.id) == ac.col_of(
                                rd[jj2].info.id,
                            )) by {
                                assert(ac.type_at(ac.col_of(rd[jj2].info.id)).id
                                    == rd[jj2].info.id);
                            }
                            if jj2 == jj as int {
                                assert(ac.col_of(rd[jj2].info.id) == c as int);
                            } else {
                                assert(ac.col_of(rd[jj2].info.id) != c as int) by {
                                    if ac.col_of(rd[jj2].info.id) == c as int {
                                        assert(rd[jj2].info.id == tt[c as int].id);
                                        assert(src_types[jj as int].id < src_types[jj2].id);
                                        assert(tt[c as int].id == src_types[jj as int].id);
                                    }
                                }
                            }
                        }
                        assert forall|c2: int|
                            0 <= c2 < ac.ncols() && !(exists|jj2: int|
                                jj as int <= jj2 < rd.len() && (#[trigger] rd[jj2]).info.id
                                    == tt[c2].id) implies !ac.added_bit(c2, target_len as int)
                            && !ac.mutated_bit(c2, target_len as int) by {
                            assert(c2 != c as int) by {
                                if c2 == c as int {
                                    assert(rd[jj as int].info.id == tt[c2].id);
                                    assert(exists|jj2: int|
                                        jj as int <= jj2 < rd.len() && (#[trigger] rd[jj2]).info.id
                                            == tt[c2].id);
                                }
                            }
                            assert(!(exists|jj2: int|
                                jj as int + 1 <= jj2 < rd.len() && (#[trigger] rd[jj2]).info.id
                                    == tt[c2].id)) by {
                                if exists|jj2: int|
                                    jj as int + 1 <= jj2 < rd.len() && (#[trigger] rd[jj2]).info.id
                                        == tt[c2].id {
                                    let jj2 = choose|jj2: int|
                                        jj as int + 1 <= jj2 < rd.len() && (
                                        #[trigger] rd[jj2]).info.id == tt[c2].id;
                                    assert(jj as int <= jj2 < rd.len() && rd[jj2].info.id
                                        == tt[c2].id);
                                }
                            }
                        }
                        assert forall|t: u64|
                            (exists|jj2: int|
                                jj as int <= jj2 < rd.len() && (#[trigger] rd[jj2]).info.id == t
                                    && !has_id(tt, t)) implies log_get(
                            self.removed_components@,
                            t,
                        ) == log_get(w3.removed_components@, t).push(entity) by {
                            let jj2 = choose|jj2: int|
                                jj as int <= jj2 < rd.len() && (#[trigger] rd[jj2]).info.id == t
                                    && !has_id(tt, t);
                            assert(jj2 != jj as int) by {
                                if jj2 == jj as int {
                                    assert(has_id(tt, rd[jj as int].info.id)) by {
                                        assert(tt[c as int].id == rd[jj as int].info.id);
                                    }
                                }
                            }
                            assert(exists|jj3: int|
                                jj as int + 1 <= jj3 < rd.len() && (#[trigger] rd[jj3]).info.id
                                    == t && !has_id(tt, t));
                        }
                        assert forall|t: u64|
                            !(exists|jj2: int|
                                jj as int <= jj2 < rd.len() && (#[trigger] rd[jj2]).info.id == t
                                    && !has_id(tt, t)) implies log_get(
                            self.removed_components@,
                            t,
                        ) == log_get(w3.removed_components@, t) by {
                            if exists|jj3: int|
                                jj as int + 1 <= jj3 < rd.len() && (#[trigger] rd[jj3]).info.id
                                    == t && !has_id(tt, t) {
                                let jj3 = choose|jj3: int|
                                    jj as int + 1 <= jj3 < rd.len() && (#[trigger] rd[jj3]).info.id
                                        == t && !has_id(tt, t);
                                assert(jj as int <= jj3 < rd.len() && rd[jj3].info.id == t
                                    && !has_id(tt, t));
                            }
                        }
                    }
                },
                None => {
                    proof {
                        assert(!has_id(tt, entry.info.id));
                    }
                    let ghost before_log = self.removed_components@;
                    log_push(&mut self.removed_components, entry.info.id, entity);
                    proof {
                        let t0 = rd[jj as int].info.id;
                        assert(!(exists|jj2: int|
                            jj as int + 1 <= jj2 < rd.len() && (#[trigger] rd[jj2]).info.id == t0
                                && !has_id(tt, t0))) by {
                            if exists|jj2: int|
                                jj as int + 1 <= jj2 < rd.len() && (#[trigger] rd[jj2]).info.id
                                    == t0 && !has_id(tt, t0) {
                                let jj2 = choose|jj2: int|
                                    jj as int + 1 <= jj2 < rd.len() && (#[trigger] rd[jj2]).info.id
                                        == t0 && !has_id(tt, t0);
                                assert(rd[jj2].info == src_types[jj2]);
                                assert(src_types[jj as int].id < src_types[jj2].id);
                            }
                        }
                        assert(log_get(before_log, t0) == log_get(w3.removed_components@, t0));
                        assert forall|t: u64|
                            (exists|jj2: int|
                                jj as int <= jj2 < rd.len() && (#[trigger] rd[jj2]).info.id == t
                                    && !has_id(tt, t)) implies log_get(
                            self.removed_components@,
                            t,
                        ) == log_get(w3.removed_components@, t).push(entity) by {
                            let jj2 = choose|jj2: int|
                                jj as int <= jj2 < rd.len() && (#[trigger] rd[jj2]).info.id == t
                                    && !has_id(tt, t);
                            if jj2 == jj as int {
                            } else {
                                assert(t != t0) by {
                                    if t == t0 {
                                        assert(rd[jj2].info == src_types[jj2]);
                                        assert(src_types[jj as int].id < src_types[jj2].id);
                                    }
                                }
                                assert(exists|jj3: int|
                                    jj as int + 1 <= jj3 < rd.len() && (#[trigger] rd[jj3]).info.id
                                        == t && !has_id(tt, t));
                            }
                        }
                        assert forall|t: u64|
                            !(exists|jj2: int|
                                jj as int <= jj2 < rd.len() && (#[trigger] rd[jj2]).info.id == t
                                    && !has_id(tt, t)) implies log_get(
                            self.removed_components@,
                            t,
                        ) == log_get(w3.removed_components@, t) by {
                            assert(t != t0) by {
                                if t == t0 {
                                    assert(rd[jj as int].info.id == t0 && !has_id(tt, t0));
                                }
                            }
                            if exists|jj3: int|
                                jj as int + 1 <= jj3 < rd.len() && (#[trigger] rd[jj3]).info.id
                                    == t && !has_id(tt, t) {
                                let jj3 = choose|jj3: int|
                                    jj as int + 1 <= jj3 < rd.len() && (#[trigger] rd[jj3]).info.id
                                        == t && !has_id(tt, t);
                                assert(jj as int <= jj3 < rd.len() && rd[jj3].info.id == t
                                    && !has_id(tt, t));
                            }
                        }
                        assert forall|c2: int|
                            0 <= c2 < self.arch(ti).ncols() && !(exists|jj2: int|
                                jj as int <= jj2 < rd.len() && (#[trigger] rd[jj2]).info.id
                                    == tt[c2].id) implies !self.arch(ti).added_bit(
                            c2,
                            target_len as int,
                        ) && !self.arch(ti).mutated_bit(c2, target_len as int) by {
                            assert(!(exists|jj2: int|
                                jj as int + 1 <= jj2 < rd.len() && (#[trigger] rd[jj2]).info.id
                                    == tt[c2].id)) by {
                                if exists|jj2: int|
                                    jj as int + 1 <= jj2 < rd.len() && (#[trigger] rd[jj2]).info.id
                                        == tt[c2].id {
                                    let jj2 = choose|jj2: int|
                                        jj as int + 1 <= jj2 < rd.len() && (
                                        #[trigger] rd[jj2]).info.id == tt[c2].id;
                                    assert(jj as int <= jj2 < rd.len() && rd[jj2].info.id
                                        == tt[c2].id);
                                }
                            }
                        }
                    }
                },
            }
        }
        proof {
            let w = *self;
            assert(rd.take(0) =~= Seq::<MovedComponent>::empty());
            // directory invariant, as in the other migration
            assert forall|id: int| #[trigger] w.entities.id_live(id) implies (w.entities.loc(
                id,
            ).archetype as int) < w.n_archetypes() && (w.entities.loc(id).index as int) < w.arch(
                w.entities.loc(id).archetype as int,
            ).rows() && w.arch(w.entities.loc(id).archetype as int).entity_at(
                w.entities.loc(id).index as int,
            ) as int == id by {
                if id == entity.id as int {
                    assert(w.entities.loc(id) == Location { archetype: a, index: new_row });
                    assert(w.arch(ti).entity_at(target_len as int) as int == entity.id as int);
                } else if ri != old_rows - 1 && id == mid_g as int {
                    assert(w.entities.loc(id) == Location {
                        archetype: src,
                        index: l.index,
                    });
                    assert(w.arch(ai).entity_at(ri) as int == mid_g as int);
                } else {
                    assert(w.entities.slot(id) == w0.entities.slot(id));
                    assert(w0.entities.id_live(id));
                    let l2 = w0.entities.loc(id);
                    if l2.archetype as int == ai {
                        assert(w0.arch(ai).entity_at(l2.index as int) as int == id);
                        assert(l2.index as int != ri) by {
                            if l2.index as int == ri {
                                assert(w0.arch(ai).entity_at(ri) as int == entity.id as int);
                            }
                        }
                        assert(l2.index as int != old_rows - 1) by {
                            if l2.index as int == old_rows - 1 {
                                if ri != old_rows - 1 {
                                    assert(id == mid_g as int);
                                } else {
                                    assert(false);
                                }
                            }
                        }
                        assert(w.arch(ai).entity_at(l2.index as int) == w0.arch(ai).entity_at(
                            l2.index as int,
                        ));
                    } else if l2.archetype as int == ti {
                        assert((l2.index as int) < target_len);
                        assert(w.arch(ti).entity_at(l2.index as int) == w3.arch(ti).entity_at(
                            l2.index as int,
                        ));
                        assert(w3.arch(ti).entity_at(l2.index as int) == w0.arch(ti).entity_at(
                            l2.index as int,
                        ));
                    } else {
                        assert(w.arch(l2.archetype as int) == w0.arch(l2.archetype as int));
                    }
                }
            }
            assert(w.inv_directory());
            assert forall|a2: int, r: int|
                0 <= a2 < w.n_archetypes() && 0 <= r < w.arch(a2).rows() implies
                w.entities.id_live((#[trigger] w.arch(a2).entity_at(r)) as int) && w.entities.loc(
                w.arch(a2).entity_at(r) as int,
            ).archetype as int == a2 && w.entities.loc(w.arch(a2).entity_at(r) as int).index as int
                == r by {
                if a2 == ti && r == target_len as int {
                    assert(w.arch(ti).entity_at(r) == entity.id);
                } else if a2 == ai && r == ri && ri < old_rows - 1 {
                    assert(w.arch(ai).entity_at(r) == mid_g);
                } else {
                    if a2 == ti {
                        assert(w.arch(ti).entity_at(r) == w0.arch(ti).entity_at(r));
                        assert(w0.entities.id_live(w0.arch(ti).entity_at(r) as int));
                    } else if a2 == ai {
                        assert(w.arch(ai).entity_at(r) == (if r == ri {
                            w0.arch(ai).entity_at(old_rows - 1)
                        } else {
                            w0.arch(ai).entity_at(r)
                        }));
                        assert(r != ri || ri == old_rows - 1);
                        assert(w.arch(ai).entity_at(r) == w0.arch(ai).entity_at(r));
                    } else {
                        assert(w.arch(a2) == w0.arch(a2));
                    }
                    let id2 = w.arch(a2).entity_at(r);
                    assert(w0.entities.id_live(id2 as int));
                    assert(w0.entities.loc(id2 as int).archetype as int == a2);
                    assert(w0.entities.loc(id2 as int).index as int == r);
                    assert(id2 != entity.id) by {
                        if id2 == entity.id {
                            assert(a2 == ai && r == ri);
                            assert(ri == old_rows - 1);
                            assert(r < old_rows - 1);
                        }
                    }
                    if ri != old_rows - 1 && id2 == mid_g {
                        assert(a2 == ai && r == old_rows - 1);
                        assert(false);
                    }
                    assert(w.entities.slot(id2 as int) == w0.entities.slot(id2 as int));
                }
            }
            assert(w.inv_rows());
            assert(w.inv_index()) by {
                assert forall|a2: int| 0 <= a2 < w.n_archetypes() implies index_view(
                    w.index,
                ).dom().contains(#[trigger] ids_of(w.arch(a2).types_seq())) && index_view(
                    w.index,
                )[ids_of(w.arch(a2).types_seq())] as int == a2 by {
                    assert(w.arch(a2).types_seq() == w0.arch(a2).types_seq());
                }
                assert forall|kk: Seq<u64>| #[trigger] index_view(w.index).dom().contains(
                    kk,
                ) implies {
                    let a2 = index_view(w.index)[kk] as int;
                    0 <= a2 < w.n_archetypes() && ids_of(w.arch(a2).types_seq()) == kk
                } by {
                    assert(index_view(w0.index).dom().contains(kk));
                    let a2 = index_view(w0.index)[kk] as int;
                    assert(ids_of(w0.arch(a2).types_seq()) == kk);
                    assert(w.arch(a2).types_seq() == w0.arch(a2).types_seq());
                }
            }
            assert(w.inv_archetypes()) by {
                assert forall|a2: int| 0 <= a2 < w.n_archetypes() implies (#[trigger] w.arch(
                    a2,
                )).wf() by {
                    if a2 != ti && a2 != ai {
                        assert(w.arch(a2) == w3.arch(a2));
                    } else if a2 == ai {
                        assert(w.arch(ai) == w3.arch(ai));
                    }
                }
            }
            assert(w.inv_global_types()) by {
                assert forall|a1: int, c1: int, a2: int, c2: int|
                    0 <= a1 < w.n_archetypes() && 0 <= c1 < w.arch(a1).ncols() && 0 <= a2
                        < w.n_archetypes() && 0 <= c2 < w.arch(a2).ncols() && (#[trigger] w.arch(
                    a1,
                ).type_at(c1)).id == (#[trigger] w.arch(a2).type_at(c2)).id implies w.arch(
                    a1,
                ).type_at(c1) == w.arch(a2).type_at(c2) by {
                    assert(w.arch(a1).types_seq() == w0.arch(a1).types_seq());
                    assert(w.arch(a2).types_seq() == w0.arch(a2).types_seq());
                    assert(w.arch(a1).type_at(c1) == w0.arch(a1).type_at(c1));
                    assert(w.arch(a2).type_at(c2) == w0.arch(a2).type_at(c2));
                }
            }
            assert(w.arch(0).types_seq() == w0.arch(0).types_seq());
            assert(w.wf());
            // the entity's retained components read as before, the rest are gone
            assert(w.arch_index_of(entity) == ti);
            assert(w.row_of(entity) == target_len as int);
            assert(w.types_of(entity) == tt);
            assert forall|t: u64| has_id(tt, t) implies w.value(entity, t) == w0.value(entity, t)
                && w.added_flag(entity, t) == w0.added_flag(entity, t) && w.mutated_flag(
                entity,
                t,
            ) == w0.mutated_flag(entity, t) by {
                assert(has_id(old(self).arch(a as int).types_seq(), t));
                assert(has_id(old(self).types_of(entity), t));
                assert(old(self).types_of(entity) == src_types);
                assert(has_id(src_types, t));
                w0.arch(ai).lemma_col_of(t);
                let cs = w0.arch(ai).col_of(t);
                assert(rd[cs].info == src_types[cs]);
                assert(rd[cs].info.id == t);
                assert(w.arch(ti).cell(w.arch(ti).col_of(rd[cs].info.id), target_len as int)
                    == rd[cs].data@);
                assert(rd[cs].data@ == w0.arch(ai).cell(cs, ri));
                assert(rd[cs].added == w0.arch(ai).added_bit(cs, ri));
                assert(rd[cs].mutated == w0.arch(ai).mutated_bit(cs, ri));
            }
            assert forall|t: u64| !has_id(tt, t) implies w.value(entity, t) == None::<
                Seq<u8>,
            > by {}
            // the removal log gained exactly the dropped types
            assert forall|t: u64| w.removed_log(t) == (if has_id(src_types, t) && !has_id(
                tt,
                t,
            ) {
                w0.removed_log(t).push(entity)
            } else {
                w0.removed_log(t)
            }) by {
                if has_id(src_types, t) && !has_id(tt, t) {
                    let cs = choose|cs: int| 0 <= cs < src_types.len() && src_types[cs].id == t;
                    assert(rd[cs].info.id == t);
                    assert(exists|jj: int|
                        0 <= jj < rd.len() && (#[trigger] rd[jj]).info.id == t && !has_id(tt, t));
                } else {
                    if exists|jj: int|
                        0 <= jj < rd.len() && (#[trigger] rd[jj]).info.id == t && !has_id(
                            tt,
                            t,
                        ) {
                        let jj = choose|jj: int|
                            0 <= jj < rd.len() && (#[trigger] rd[jj]).info.id == t && !has_id(
                                tt,
                                t,
                            );
                        assert(rd[jj].info == src_types[jj]);
                        assert(has_id(src_types, t));
                    }
                }
            }
            // liveness untouched; no other entity's view changes
            assert forall|e2: Entity| w.live(e2) <==> w0.live(e2) by {
                if e2.id == entity.id {
                    assert(w.entities.slot(e2.id as int).live == w0.entities.slot(
                        e2.id as int,
                    ).live);
                    assert(w.entities.slot(e2.id as int).generation == w0.entities.slot(
                        e2.id as int,
                    ).generation);
                } else if ri != old_rows - 1 && e2.id == mid_g {
                    assert(w.entities.slot(e2.id as int).live == w0.entities.slot(
                        e2.id as int,
                    ).live);
                    assert(w.entities.slot(e2.id as int).generation == w0.entities.slot(
                        e2.id as int,
                    ).generation);
                } else {
                    assert(w.entities.slot(e2.id as int) == w0.entities.slot(e2.id as int)
                        || e2.id as int >= w.entities.n_slots());
                }
            }
            assert forall|e2: Entity| e2 != entity implies Self::same_entity_view(
                w0,
                w,
                e2,
            ) by {
                assert(w.live(e2) <==> w0.live(e2));
                if w0.live(e2) {
                    assert(e2.id != entity.id) by {
                        if e2.id == entity.id {
                            assert(w0.entities.slot(e2.id as int).generation == e2.generation);
                            assert(w0.entities.slot(e2.id as int).generation
                                == entity.generation);
                        }
                    }
                    let l2 = w0.entities.loc(e2.id as int);
                    assert(w0.entities.id_live(e2.id as int));
                    if ri != old_rows - 1 && e2.id == mid_g {
                        assert(l2.archetype as int == ai && l2.index as int == old_rows - 1);
                        assert(w.entities.loc(e2.id as int).archetype as int == ai);
                        assert(w.entities.loc(e2.id as int).index as int == ri);
                        assert forall|t: u64| #[trigger] w0.value(e2, t) == w.value(e2, t)
                            && w0.added_flag(e2, t) == w.added_flag(e2, t) && w0.mutated_flag(
                            e2,
                            t,
                        ) == w.mutated_flag(e2, t) by {
                            if w0.arch(ai).has(t) {
                                w0.arch(ai).lemma_col_of(t);
                                let c = w0.arch(ai).col_of(t);
                                assert(w.arch(ai).cell(c, ri) == w0.arch(ai).cell(
                                    c,
                                    old_rows - 1,
                                ));
                            }
                        }
                    } else {
                        assert(w.entities.loc(e2.id as int) == l2);
                        assert forall|t: u64| #[trigger] w0.value(e2, t) == w.value(e2, t)
                            && w0.added_flag(e2, t) == w.added_flag(e2, t) && w0.mutated_flag(
                            e2,
                            t,
                        ) == w.mutated_flag(e2, t) by {
                            if l2.archetype as int == ai {
                                assert(w0.arch(ai).entity_at(l2.index as int) as int
                                    == e2.id as int);
                                assert(l2.index as int != ri) by {
                                    if l2.index as int == ri {
                                        assert(w0.arch(ai).entity_at(ri) as int
                                            == entity.id as int);
                                    }
                                }
                                assert(l2.index as int != old_rows - 1) by {
                                    if l2.index as int == old_rows - 1 {
                                        if ri != old_rows - 1 {
                                            assert(e2.id == mid_g);
                                            assert(false);
                                        } else {
                                            assert(l2.index as int == ri);
                                        }
                                    }
                                }
                                if w0.arch(ai).has(t) {
                                    w0.arch(ai).lemma_col_of(t);
                                    let c = w0.arch(ai).col_of(t);
                                    assert(w.arch(ai).cell(c, l2.index as int) == w0.arch(
                                        ai,
                                    ).cell(c, l2.index as int));
                                }
                            } else if l2.archetype as int == ti {
                                assert((l2.index as int) < target_len);
                                if w0.arch(ti).has(t) {
                                    w0.arch(ti).lemma_col_of(t);
                                    let c = w0.arch(ti).col_of(t);
                                    assert(w.arch(ti).cell(c, l2.index as int) == w3.arch(
                                        ti,
                                    ).cell(c, l2.index as int));
                                    assert(w3.arch(ti).cell(c, l2.index as int) == w0.arch(
                                        ti,
                                    ).cell(c, l2.index as int));
                                    assert(w.arch(ti).added_bit(c, l2.index as int) == w0.arch(
                                        ti,
                                    ).added_bit(c, l2.index as int));
                                    assert(w.arch(ti).mutated_bit(c, l2.index as int) == w0.arch(
                                        ti,
                                    ).mutated_bit(c, l2.index as int));
                                }
                            } else {
                                assert(w.arch(l2.archetype as int) == w0.arch(l2.archetype as int));
                            }
                        }
                    }
                }
            }
            assert forall|ids: Set<u64>| w.has_archetype(ids) <==> w0.has_archetype(ids) by {
                if w.has_archetype(ids) {
                    let a2 = choose|a2: int|
                        0 <= a2 < w.n_archetypes() && id_set(w.arch(a2).types_seq()) == ids;
                    assert(id_set(w0.arch(a2).types_seq()) == ids);
                }
                if w0.has_archetype(ids) {
                    let a2 = choose|a2: int|
                        0 <= a2 < w0.n_archetypes() && id_set(w0.arch(a2).types_seq()) == ids;
                    assert(id_set(w.arch(a2).types_seq()) == ids);
                }
            }
        }
    }
}


} // verus!
