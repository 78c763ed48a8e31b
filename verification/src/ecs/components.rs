//! Components defined by the engine itself.
use vstd::prelude::*;

use crate::ecs::component::{
    Component, IntegralNamespace, StringNamespace, AMMO_INT_NAMESPACE, AMMO_NAMESPACE,
};

verus! {

/// The integral id for the [Ambiance] component.
pub const AMBIANCE_ID: u16 = 3;

/// The string id for the [Ambiance] component.
pub const AMBIANCE_ID_STR: &'static str = "ambiance";

/// Attach a sound to an object.
#[derive(Clone, Debug)]
#[non_exhaustive]
pub enum Ambiance {
    ConstantlyLoopingSound { asset_name: String },
}

impl Component for Ambiance {
    open spec fn string_namespace_of() -> StringNamespace {
        StringNamespace { namespace: AMMO_NAMESPACE, name: AMBIANCE_ID_STR }
    }

    open spec fn integral_namespace_of() -> IntegralNamespace {
        IntegralNamespace::new_spec(AMMO_INT_NAMESPACE, AMBIANCE_ID)
    }

    fn get_string_namespace() -> (n: StringNamespace)
        ensures
            n == (StringNamespace { namespace: AMMO_NAMESPACE, name: AMBIANCE_ID_STR }),
    {
        StringNamespace { namespace: AMMO_NAMESPACE, name: AMBIANCE_ID_STR }
    }

    fn get_integral_namespace() -> (n: IntegralNamespace)
        ensures
            n.spec_namespace() == AMMO_INT_NAMESPACE,
            n.spec_component_id() == AMBIANCE_ID,
    {
        IntegralNamespace::new(AMMO_INT_NAMESPACE, AMBIANCE_ID)
    }
}

} // verus!
