//! The entity-component layer: object ids, versions and component stores.
pub mod component;
pub mod components;
pub mod id_factory;
pub mod object_id;
pub mod store;
pub mod version;
