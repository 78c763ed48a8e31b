//! The Component trait.
//!
//! The Component trait defines a component, under the standard ECS
//! definition.  Components must also define a unique string namespace/name
//! pair and integer namespace/id pair for serialization, networking, and other
//! internal purposes.  See the documentation on the trait for more.
use vstd::prelude::*;
use vstd::pervasive::arbitrary;

verus! {

/// The reserved string namespace for ammo components.
pub const AMMO_NAMESPACE: &'static str = "ammo";

/// The reserved int namespace for ammo components.
pub const AMMO_INT_NAMESPACE: u16 = 1;

/// A string namespace/name pair, for example `("ammo", "position")`.
#[derive(Copy, Clone, Debug, Ord, Eq, PartialOrd, PartialEq, Hash)]
pub struct StringNamespace {
    pub namespace: &'static str,
    pub name: &'static str,
}

/// An integer namespace/id pair.  The namespace is never zero.
#[derive(Copy, Clone, Debug, Ord, Eq, PartialOrd, PartialEq, Hash)]
pub struct IntegralNamespace {
    namespace: u16,
    component_id: u16,
}

impl IntegralNamespace {
    #[verifier::type_invariant]
    spec fn namespace_nonzero(self) -> bool {
        self.namespace != 0
    }

    /// The namespace.
    pub closed spec fn spec_namespace(self) -> u16 {
        self.namespace
    }

    /// The component's id within the namespace.
    pub closed spec fn spec_component_id(self) -> u16 {
        self.component_id
    }

    /// The pair `(namespace, component_id)`.
    pub closed spec fn new_spec(namespace: u16, component_id: u16) -> IntegralNamespace {
        IntegralNamespace { namespace, component_id }
    }

    /// The parts of a pair are what it was made from.
    pub proof fn lemma_new_spec(namespace: u16, component_id: u16)
        ensures
            IntegralNamespace::new_spec(namespace, component_id).spec_namespace() == namespace,
            IntegralNamespace::new_spec(namespace, component_id).spec_component_id() == component_id,
    {
    }

    /// The pair `(namespace, component_id)`; the namespace must not be zero.
    pub fn new(namespace: u16, component_id: u16) -> (n: IntegralNamespace)
        requires
            namespace != 0,
        ensures
            n == IntegralNamespace::new_spec(namespace, component_id),
            n.spec_namespace() == namespace,
            n.spec_component_id() == component_id,
    {
        IntegralNamespace { namespace, component_id }
    }

    /// The namespace, which is not zero.
    pub fn namespace(&self) -> (n: u16)
        ensures
            n == self.spec_namespace(),
            n != 0,
    {
        proof {
            use_type_invariant(self);
        }
        self.namespace
    }

    /// The component's id within the namespace.
    pub fn component_id(&self) -> (i: u16)
        ensures
            i == self.spec_component_id(),
    {
        self.component_id
    }
}

/// A component, for example an object position.
///
/// The string namespace `"ammo"` and the integer namespace `1` are reserved.
/// Registering two components with the same namespace/name pair is a
/// programmer error.  It is a large aid to efficiency and memory usage if
/// namespaces and ids are small: prefer the smallest namespace possible, and
/// number components sequentially from 0.
pub trait Component: Clone {
    /// The string namespace/name pair that the component declares.  A
    /// verified implementation names its pair here; the default names none.
    open spec fn string_namespace_of() -> StringNamespace where Self: Sized {
        arbitrary()
    }

    /// The integer namespace/id pair that the component declares.  A verified
    /// implementation names its pair here; the default names none.
    open spec fn integral_namespace_of() -> IntegralNamespace where Self: Sized {
        arbitrary()
    }

    /// The string namespace/name pair of the component.
    fn get_string_namespace() -> (n: StringNamespace) where Self: Sized
        ensures
            n == Self::string_namespace_of(),
    ;

    /// The integer namespace/id pair of the component.
    fn get_integral_namespace() -> (n: IntegralNamespace) where Self: Sized
        ensures
            n == Self::integral_namespace_of(),
    ;
}

/// Object-safe forms of the [Component] type-level methods.
pub trait ComponentExt: Component {
    fn get_integral_namespace(&self) -> (n: IntegralNamespace)
        ensures
            n == Self::integral_namespace_of(),
    ;

    fn get_string_namespace(&self) -> (n: StringNamespace)
        ensures
            n == Self::string_namespace_of(),
    ;
}

impl<T: Component> ComponentExt for T {
    fn get_integral_namespace(&self) -> IntegralNamespace {
        <T as Component>::get_integral_namespace()
    }

    fn get_string_namespace(&self) -> StringNamespace {
        <T as Component>::get_string_namespace()
    }
}

} // verus!
