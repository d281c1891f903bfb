//! Archetype-based entity-component storage.
//!
//! Entities are opaque `(id, generation)` handles; components are runtime-typed
//! values stored as byte cells in column-major archetypes. Entities sharing one
//! exact component set live in the same archetype; structural changes migrate
//! rows between archetypes while a directory maps each live entity to its
//! archetype and row.

pub mod archetype;
pub mod entities;
pub mod entity;
pub mod index;
pub mod migrate;
pub mod types;
pub mod world;

pub use archetype::Archetype;
pub use entities::Location;
pub use entity::Entity;
pub use types::{Component, TypeInfo};
pub use world::{ArchetypesGeneration, ComponentError, EntityRef, Iter, NoSuchEntity,
    SpawnBatchIter, World};
