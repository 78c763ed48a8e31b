//! Core ECS traits shared by the engine and its users: component identities.
pub mod component;
pub mod identifiers;
