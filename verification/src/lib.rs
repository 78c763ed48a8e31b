//! Verified core of the ammo game engine: object ids, id factories and
//! component stores, component identities, the message framer and parser,
//! network connection settings, a handle-based slab and a small
//! self-organizing cache.
pub mod ecs;
pub mod ecs_core;
pub mod framer;
pub mod net;
pub mod nzslab;
pub mod self_organizing_list;
