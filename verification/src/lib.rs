//! # Constellation ECS
//!
//! A data-oriented entity component system.
//!
//! Entities are handles allocated by `Entities`; per-entity data lives in
//! resources such as `VecResource` and `MapResource`, each of which keeps a
//! bit set of the entity indices it holds data for. Systems declare the
//! resources they read and write; a `SystemCommandBuffer` groups the queued
//! systems into batches whose systems do not conflict, and the world commits
//! entity creations and deletions between batches.

pub mod bitset;
pub mod entities;
pub mod entity;
pub mod fnv_map;
pub mod queue;
pub mod resource;
pub mod world;

pub use entities::{
    Entities, EntitiesTransaction, EntityChangeSet, EntityIter, EntityIterBuilder,
    MINIMUM_FREE_INDICES,
};
pub use entity::{Entity, Generation, Handle, Index};
pub use resource::{
    ComponentResourceApi, EntityResource, MapResource, MapStorage, Resource, VecResource,
    VecStorage, VecStorageIter, VecStorageIterMut,
};
pub use world::{
    QueuedSystem, ResourceBuilder, ResourceDescription, SequentialExecute, SystemCommandBuffer,
    SystemContext, SystemScope, World, WorldResources, ENTITY_DATA,
};
