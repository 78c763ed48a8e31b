//! The Component trait.
//!
//! A component, under the standard ECS definition, must also carry a unique
//! string namespace/id pair and integer namespace/id pair for serialization,
//! networking, and other internal purposes.
use vstd::prelude::*;

use crate::ecs_core::identifiers::HasIdentifiers;

verus! {

/// A component, for example an object position.
pub trait Component: Clone + 'static + Send + Sync + HasIdentifiers {

}

} // verus!
