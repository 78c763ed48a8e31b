//! The [ObjectId] type.
//!
//! Object ids are composed of a 64-bit counter which monotonically increments
//! per run of the program, and a 64-bit random value.  The counter is never
//! zero.  Ids are ordered by counter first and random value second.
use vstd::prelude::*;

verus! {

/// An object id: a nonzero counter and a random tie-breaker.
#[derive(Copy, Clone, PartialEq, Eq, Hash, Debug, PartialOrd, Ord)]
pub struct ObjectId {
    counter: u64,
    random: u64,
}

/// The order of object ids: by counter, then by random value.
pub open spec fn oid_lt(a: ObjectId, b: ObjectId) -> bool {
    a.spec_counter() < b.spec_counter() || (a.spec_counter() == b.spec_counter()
        && a.spec_random() < b.spec_random())
}

impl ObjectId {
    #[verifier::type_invariant]
    spec fn counter_nonzero(self) -> bool {
        self.counter != 0
    }

    /// The counter half of the id.
    pub closed spec fn spec_counter(self) -> u64 {
        self.counter
    }

    /// The random half of the id.
    pub closed spec fn spec_random(self) -> u64 {
        self.random
    }

    /// Two ids are equal exactly when both halves are.
    pub proof fn lemma_eq_by_parts(a: ObjectId, b: ObjectId)
        ensures
            (a == b) <==> (a.spec_counter() == b.spec_counter() && a.spec_random()
                == b.spec_random()),
    {
    }

    /// Build an id from its counter and random halves.  The counter must not be zero.
    pub fn new(counter: u64, random: u64) -> (id: ObjectId)
        requires
            counter != 0,
        ensures
            id.spec_counter() == counter,
            id.spec_random() == random,
    {
        ObjectId { counter, random }
    }

    /// An id for tests: the given counter and a random half of zero.  The
    /// counter must not be zero.
    pub fn new_testing(counter: u64) -> (id: ObjectId)
        requires
            counter != 0,
        ensures
            id.spec_counter() == counter,
            id.spec_random() == 0,
    {
        ObjectId { counter, random: 0 }
    }

    pub fn get_counter(&self) -> (c: u64)
        ensures
            c == self.spec_counter(),
            c != 0,
    {
        proof {
            use_type_invariant(self);
        }
        self.counter
    }

    pub fn get_random(&self) -> (r: u64)
        ensures
            r == self.spec_random(),
    {
        self.random
    }

    /// Whether this id comes strictly before `other`.
    pub fn precedes(&self, other: &ObjectId) -> (b: bool)
        ensures
            b == oid_lt(*self, *other),
    {
        self.counter < other.counter || (self.counter == other.counter && self.random
            < other.random)
    }

    /// Whether two ids are equal.
    pub fn same_as(&self, other: &ObjectId) -> (b: bool)
        ensures
            b == (*self == *other),
    {
        self.counter == other.counter && self.random == other.random
    }
}

/// The order on ids is a strict total order.
pub proof fn lemma_oid_order(a: ObjectId, b: ObjectId, c: ObjectId)
    ensures
        !oid_lt(a, a),
        oid_lt(a, b) ==> !oid_lt(b, a),
        oid_lt(a, b) && oid_lt(b, c) ==> oid_lt(a, c),
        a == b || oid_lt(a, b) || oid_lt(b, a),
{
    ObjectId::lemma_eq_by_parts(a, b);
}

} // verus!
