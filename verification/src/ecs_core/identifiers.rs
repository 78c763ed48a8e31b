//! Identifiers of things such as components: a string pair for e.g.
//! database tables and an integer pair for e.g. the network.
use vstd::prelude::*;

verus! {

/// A string namespace/id pair, used to identify things for e.g. database
/// tables.
#[derive(Copy, Clone, Debug, Ord, Eq, PartialOrd, PartialEq, Hash)]
pub struct StringId {
    pub namespace: &'static str,
    pub id: &'static str,
}

/// An int-based namespace/id pair, used to identify things for e.g. the
/// network.  The namespace is never zero.
#[derive(Copy, Clone, Debug, Ord, Eq, PartialOrd, PartialEq, Hash)]
pub struct IntId {
    namespace: u16,
    id: u16,
}

impl IntId {
    #[verifier::type_invariant]
    spec fn namespace_nonzero(self) -> bool {
        self.namespace != 0
    }

    /// The namespace.
    pub closed spec fn spec_namespace(self) -> u16 {
        self.namespace
    }

    /// The id within the namespace.
    pub closed spec fn spec_id(self) -> u16 {
        self.id
    }

    /// The pair `(namespace, id)`; the namespace must not be zero.
    pub fn new(namespace: u16, id: u16) -> (r: IntId)
        requires
            namespace != 0,
        ensures
            r.spec_namespace() == namespace,
            r.spec_id() == id,
    {
        IntId { namespace, id }
    }

    /// The namespace, which is not zero.
    pub fn namespace(&self) -> (n: u16)
        ensures
            n == self.spec_namespace(),
            n != 0,
    {
        proof {
            use_type_invariant(self);
        }
        self.namespace
    }

    /// The id within the namespace.
    pub fn id(&self) -> (i: u16)
        ensures
            i == self.spec_id(),
    {
        self.id
    }
}

/// Things that carry a string and an integer identifier.
pub trait HasIdentifiers {
    fn get_string_id_from_type() -> StringId where Self: Sized;

    fn get_int_id_from_type() -> IntId where Self: Sized;
}

} // verus!
