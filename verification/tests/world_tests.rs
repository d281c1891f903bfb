use bevy_hecs::archetype::Archetype;
use bevy_hecs::entity::Entity;
use bevy_hecs::types::{Component, TypeInfo};
use bevy_hecs::world::{ComponentError, World};

const INT: u64 = 1;
const TEXT: u64 = 2;
const FLAG: u64 = 3;

fn int_info() -> TypeInfo {
    TypeInfo::new(INT, 4)
}

fn text_info() -> TypeInfo {
    TypeInfo::new(TEXT, 3)
}

fn flag_info() -> TypeInfo {
    TypeInfo::new(FLAG, 1)
}

fn int_c(v: i32) -> Component {
    Component::new(int_info(), v.to_le_bytes().to_vec())
}

fn text_c(v: &[u8; 3]) -> Component {
    Component::new(text_info(), v.to_vec())
}

fn flag_c(v: bool) -> Component {
    Component::new(flag_info(), vec![if v { 1 } else { 0 }])
}

fn as_int(bytes: &[u8]) -> i32 {
    i32::from_le_bytes([bytes[0], bytes[1], bytes[2], bytes[3]])
}

#[test]
fn spawn_in_different_archetypes() {
    let mut w = World::new();
    let a = w.spawn(vec![int_c(123), text_c(b"abc")]);
    let b = w.spawn(vec![int_c(456), flag_c(true)]);
    let la = w.get_entity_location(a).unwrap();
    let lb = w.get_entity_location(b).unwrap();
    assert_ne!(la.archetype, lb.archetype);
    assert_eq!(as_int(&w.get(a, INT).unwrap()), 123);
    assert_eq!(as_int(&w.get(b, INT).unwrap()), 456);
    assert_eq!(w.get(b, TEXT), Err(ComponentError::MissingComponent(TEXT)));
}

#[test]
fn remove_returns_values() {
    let mut w = World::new();
    let e = w.spawn(vec![int_c(1), text_c(b"xyz"), flag_c(true)]);
    let removed = w.remove(e, vec![int_info(), text_info()]).unwrap();
    assert_eq!(removed.len(), 2);
    assert_eq!(as_int(&removed[0].data), 1);
    assert_eq!(removed[1].data, b"xyz".to_vec());
    assert_eq!(w.get(e, INT), Err(ComponentError::MissingComponent(INT)));
    assert_eq!(w.get(e, FLAG).unwrap(), vec![1]);
    let l = w.get_entity_location(e).unwrap();
    let archetypes: &Vec<Archetype> = w.archetypes();
    assert_eq!(archetypes[l.archetype].types().len(), 1);
    assert_eq!(archetypes[l.archetype].types()[0].id, FLAG);
}

#[test]
fn insert_overwrites_in_place() {
    let mut w = World::new();
    let e = w.spawn(vec![int_c(1)]);
    let l0 = w.get_entity_location(e).unwrap();
    w.insert(e, vec![int_c(2)]).unwrap();
    assert_eq!(as_int(&w.get(e, INT).unwrap()), 2);
    let l1 = w.get_entity_location(e).unwrap();
    assert_eq!(l0.archetype, l1.archetype);
    assert!(w.removed(INT).is_empty());
}

#[test]
fn despawn_logs_removed_components() {
    let mut w = World::new();
    let e = w.spawn(vec![int_c(1)]);
    w.despawn(e).unwrap();
    assert_eq!(w.removed(INT), vec![e]);
    assert_eq!(w.get(e, INT), Err(ComponentError::NoSuchEntity));
}

#[test]
fn spawn_batch_spawns_all() {
    let mut w = World::new();
    let mut bundles = Vec::new();
    for i in 0..1000 {
        bundles.push(vec![int_c(i), text_c(b"abc")]);
    }
    let mut it = w.spawn_batch(bundles);
    let mut entities = Vec::new();
    assert_eq!(it.len(), 1000);
    while let Some(e) = it.next(&mut w) {
        entities.push(e);
    }
    assert_eq!(entities.len(), 1000);
    let l0 = w.get_entity_location(entities[0]).unwrap();
    for (i, e) in entities.iter().enumerate() {
        assert_eq!(as_int(&w.get(*e, INT).unwrap()), i as i32);
        assert_eq!(w.get(*e, TEXT).unwrap(), b"abc".to_vec());
        assert_eq!(w.get_entity_location(*e).unwrap().archetype, l0.archetype);
    }
}

#[test]
fn spawn_batch_spawns_one_entity_per_next() {
    let mut w = World::new();
    let bundles = vec![vec![int_c(1)], vec![int_c(2)], vec![int_c(3)]];
    let g0 = w.archetypes_generation();
    let mut it = w.spawn_batch(bundles);
    // the archetype is resolved up front, before any entity exists
    let g1 = w.archetypes_generation();
    assert_ne!(g0, g1);
    let e1 = it.next(&mut w).unwrap();
    let a = w.get_entity_location(e1).unwrap().archetype;
    assert_eq!(w.archetypes()[a].len(), 1);
    let _e2 = it.next(&mut w).unwrap();
    // after two next() calls exactly two entities exist
    assert_eq!(w.archetypes()[a].len(), 2);
    assert_eq!(it.len(), 1);
    // a batch must run to completion
    it.finish(&mut w);
    assert_eq!(it.len(), 0);
    assert_eq!(w.archetypes()[a].len(), 3);
    assert_eq!(w.archetypes_generation(), g1);
    assert!(it.next(&mut w).is_none());
}

#[test]
fn generation_counter_bumps_only_on_new_archetypes() {
    let mut w = World::new();
    let g0 = w.archetypes_generation();
    w.spawn(vec![int_c(1)]);
    let g1 = w.archetypes_generation();
    assert_ne!(g0, g1);
    w.spawn(vec![int_c(2)]);
    assert_eq!(w.archetypes_generation(), g1);
}

#[test]
fn contains_and_entity_view() {
    let mut w = World::new();
    let e = w.spawn(vec![int_c(7), flag_c(false)]);
    assert!(w.contains(e));
    let view = w.entity(e).unwrap();
    assert_eq!(view.components.len(), 2);
    assert_eq!(view.components[0].info.id, INT);
    assert_eq!(as_int(&view.components[0].data), 7);
    assert_eq!(view.components[1].info.id, FLAG);
    let one = w.query_one(e).unwrap();
    assert_eq!(one.components.len(), 2);
}

#[test]
fn stale_handles_are_rejected() {
    let mut w = World::new();
    let e = w.spawn(vec![int_c(1)]);
    w.despawn(e).unwrap();
    assert!(!w.contains(e));
    assert_eq!(w.insert(e, vec![int_c(2)]), Err(bevy_hecs::world::NoSuchEntity));
    let e2 = w.spawn(vec![int_c(3)]);
    if e2.id == e.id {
        assert_ne!(e2.generation, e.generation);
    }
    assert!(w.contains(e2));
    assert!(!w.contains(e));
}

#[test]
fn spawn_order_does_not_matter() {
    let mut w = World::new();
    let e1 = w.spawn(vec![int_c(1), flag_c(true)]);
    let e2 = w.spawn(vec![flag_c(false), int_c(2)]);
    let l1 = w.get_entity_location(e1).unwrap();
    let l2 = w.get_entity_location(e2).unwrap();
    assert_eq!(l1.archetype, l2.archetype);
}

#[test]
fn overwrite_keeps_added_bit_and_sets_mutated() {
    let mut w = World::new();
    let e = w.spawn(vec![int_c(1)]);
    w.insert(e, vec![int_c(2)]).unwrap();
    let l = w.get_entity_location(e).unwrap();
    let arch = &w.archetypes()[l.archetype];
    let col = arch.find_col(INT).unwrap();
    assert!(arch.added[col][l.index]);
    assert!(arch.mutated[col][l.index]);
}

#[test]
fn clear_trackers_empties_the_log_and_bits() {
    let mut w = World::new();
    let e = w.spawn(vec![int_c(1), flag_c(true)]);
    w.despawn(e).unwrap();
    assert_eq!(w.removed(INT), vec![e]);
    assert_eq!(w.removed(FLAG), vec![e]);
    let e2 = w.spawn(vec![int_c(5)]);
    w.clear_trackers();
    assert!(w.removed(INT).is_empty());
    assert!(w.removed(FLAG).is_empty());
    let l = w.get_entity_location(e2).unwrap();
    let arch = &w.archetypes()[l.archetype];
    let col = arch.find_col(INT).unwrap();
    assert!(!arch.added[col][l.index]);
    assert!(!arch.mutated[col][l.index]);
}

#[test]
fn migration_preserves_siblings() {
    let mut w = World::new();
    let e1 = w.spawn(vec![int_c(10)]);
    let e2 = w.spawn(vec![int_c(20)]);
    let e3 = w.spawn(vec![int_c(30)]);
    w.insert(e1, vec![flag_c(true)]).unwrap();
    assert_eq!(as_int(&w.get(e2, INT).unwrap()), 20);
    assert_eq!(as_int(&w.get(e3, INT).unwrap()), 30);
    assert_eq!(as_int(&w.get(e1, INT).unwrap()), 10);
    assert_eq!(w.get(e1, FLAG).unwrap(), vec![1]);
    w.remove(e3, vec![int_info()]).unwrap();
    assert_eq!(as_int(&w.get(e2, INT).unwrap()), 20);
    assert_eq!(as_int(&w.get(e1, INT).unwrap()), 10);
}

#[test]
fn remove_missing_component_changes_nothing() {
    let mut w = World::new();
    let e = w.spawn(vec![int_c(1)]);
    let r = w.remove(e, vec![flag_info()]);
    assert!(matches!(r, Err(ComponentError::MissingComponent(FLAG))));
    assert_eq!(as_int(&w.get(e, INT).unwrap()), 1);
}

#[test]
fn remove_logs_removed_components() {
    let mut w = World::new();
    let e = w.spawn(vec![int_c(1), flag_c(true)]);
    w.remove(e, vec![flag_info()]).unwrap();
    assert_eq!(w.removed(FLAG), vec![e]);
    assert!(w.removed(INT).is_empty());
}

#[test]
fn insert_one_and_remove_one() {
    let mut w = World::new();
    let e = w.spawn(vec![int_c(1)]);
    w.insert_one(e, flag_c(true)).unwrap();
    assert_eq!(w.get(e, FLAG).unwrap(), vec![1]);
    let c = w.remove_one(e, flag_info()).unwrap();
    assert_eq!(c.info.id, FLAG);
    assert_eq!(c.data, vec![1]);
    assert_eq!(w.get(e, FLAG), Err(ComponentError::MissingComponent(FLAG)));
}

#[test]
fn get_mut_marks_mutated() {
    let mut w = World::new();
    let e = w.spawn(vec![int_c(9)]);
    let bytes = w.get_mut(e, INT).unwrap();
    assert_eq!(as_int(&bytes), 9);
    let l = w.get_entity_location(e).unwrap();
    let arch = &w.archetypes()[l.archetype];
    let col = arch.find_col(INT).unwrap();
    assert!(arch.mutated[col][l.index]);
}

#[test]
fn iter_yields_every_entity_once() {
    let mut w = World::new();
    let a = w.spawn(vec![]);
    let b = w.spawn(vec![int_c(1)]);
    let mut it = w.iter();
    let mut seen: Vec<Entity> = Vec::new();
    while let Some((e, _view)) = it.next() {
        seen.push(e);
    }
    assert_eq!(seen.len(), 2);
    assert!(seen.contains(&a));
    assert!(seen.contains(&b));
}

#[test]
fn reserve_creates_the_archetype() {
    let mut w = World::new();
    let g0 = w.archetypes_generation();
    w.reserve(vec![int_info(), flag_info()], 64);
    let g1 = w.archetypes_generation();
    assert_ne!(g0, g1);
    w.spawn(vec![int_c(1), flag_c(true)]);
    assert_eq!(w.archetypes_generation(), g1);
}

#[test]
fn default_world_is_empty() {
    let w = World::default();
    let e = Entity::new(0, 0);
    assert!(!w.contains(e));
    assert_eq!(w.archetypes().len(), 1);
}

#[test]
fn clear_despawns_everything_and_logs() {
    let mut w = World::new();
    let e1 = w.spawn(vec![int_c(1)]);
    let e2 = w.spawn(vec![int_c(2), flag_c(true)]);
    let g = w.archetypes_generation();
    w.clear();
    assert!(!w.contains(e1));
    assert!(!w.contains(e2));
    assert_eq!(w.archetypes_generation(), g);
    let logged = w.removed(INT);
    assert!(logged.contains(&e1));
    assert!(logged.contains(&e2));
    assert!(w.removed(FLAG).contains(&e2));
    assert!(!w.removed(FLAG).contains(&e1));
    let e3 = w.spawn(vec![int_c(3)]);
    assert!(w.contains(e3));
    assert_eq!(as_int(&w.get(e3, INT).unwrap()), 3);
}

#[test]
fn round_trip_after_insert() {
    let mut w = World::new();
    let e = w.spawn(vec![flag_c(false)]);
    w.insert(e, vec![int_c(77)]).unwrap();
    assert_eq!(as_int(&w.get(e, INT).unwrap()), 77);
    assert_eq!(w.get(e, FLAG).unwrap(), vec![0]);
    w.insert(e, vec![int_c(88)]).unwrap();
    assert_eq!(as_int(&w.get(e, INT).unwrap()), 88);
}

#[test]
fn remove_nothing_is_a_no_op() {
    let mut w = World::new();
    let e = w.spawn(vec![int_c(1)]);
    let out = w.remove(e, vec![]).unwrap();
    assert!(out.is_empty());
    assert_eq!(as_int(&w.get(e, INT).unwrap()), 1);
}

#[test]
fn spawn_as_entity_adopts_and_refuses() {
    let mut w = World::new();
    let pre = Entity::new(0, 9);
    assert_eq!(w.spawn_as_entity(pre, vec![int_c(41)]), Ok(()));
    assert!(w.contains(pre));
    assert_eq!(as_int(&w.get(pre, INT).unwrap()), 41);
    // the slot is occupied now: a second adoption of the same id is refused
    let clash = Entity::new(0, 12);
    assert_eq!(
        w.spawn_as_entity(clash, vec![int_c(1)]),
        Err(bevy_hecs::world::NoSuchEntity)
    );
    assert_eq!(as_int(&w.get(pre, INT).unwrap()), 41);
}

#[test]
fn empty_bundle_lives_in_archetype_zero() {
    let mut w = World::new();
    let e = w.spawn(vec![]);
    let l = w.get_entity_location(e).unwrap();
    assert_eq!(l.archetype, 0);
    assert_eq!(w.get(e, INT), Err(ComponentError::MissingComponent(INT)));
}
