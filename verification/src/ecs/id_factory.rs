//! Object ids made from a counter and some randomness.
//!
//! The counter starts at an approximation of the number of nanoseconds since
//! the Unix epoch and goes up by one per id; the other half of each id comes
//! from a ChaCha8 generator.  A rate limiter, consulted by the caller, keeps
//! ids from being made faster than its quota allows, so that the counter does
//! not run ahead of the clock.
use vstd::prelude::*;

use rand::Rng;
use rand::SeedableRng;
use rand_chacha::ChaCha8Rng;
use std::time::Instant;

use crate::ecs::object_id::ObjectId;

verus! {

#[verifier::external_type_specification]
#[verifier::external_body]
pub struct ExChaCha8Rng(ChaCha8Rng);

#[verifier::external_type_specification]
#[verifier::external_body]
pub struct ExInstant(Instant);

/// The generator that `ChaCha8Rng::seed_from_u64` makes from `seed`.
pub uninterp spec fn chacha8_from_seed(seed: u64) -> ChaCha8Rng;

/// The `u64` that `gen` draws from a generator in state `rng`, and the
/// generator's state after.
pub uninterp spec fn chacha8_next_u64(rng: ChaCha8Rng) -> (u64, ChaCha8Rng);

/// `ChaCha8Rng::seed_from_u64` (the default method of `rand_core`'s
/// `SeedableRng`): the generator is a function of the seed alone.
#[verifier::external_body]
fn seed_chacha8(seed: u64) -> (r: ChaCha8Rng)
    ensures
        r == chacha8_from_seed(seed),
{
    ChaCha8Rng::seed_from_u64(seed)
}

/// `rand::Rng::gen::<u64>` on a ChaCha8 generator: the value drawn and the
/// generator's next state are a function of its state alone.
#[verifier::external_body]
fn draw_u64(rng: &mut ChaCha8Rng) -> (r: u64)
    ensures
        (r, *final(rng)) == chacha8_next_u64(*old(rng)),
{
    rng.gen::<u64>()
}

/// The counter and random generator of an id factory.
#[derive(Debug)]
pub struct IdFactoryState {
    counter: u64,
    rng: ChaCha8Rng,
}

impl IdFactoryState {
    /// The counter of the next id.
    pub closed spec fn counter(&self) -> u64 {
        self.counter
    }

    /// The state of the random generator.
    pub closed spec fn rng(&self) -> ChaCha8Rng {
        self.rng
    }

    /// The counter is never zero.
    pub open spec fn wf(&self) -> bool {
        self.counter() != 0
    }

    /// A factory whose first id has the counter `counter`, drawing its random
    /// halves from a ChaCha8 generator seeded with `seed`.
    pub fn new_with_params(counter: u64, seed: u64) -> (s: IdFactoryState)
        requires
            counter != 0,
        ensures
            s.wf(),
            s.counter() == counter,
            s.rng() == chacha8_from_seed(seed),
    {
        IdFactoryState { counter, rng: seed_chacha8(seed) }
    }

    /// The counter of the next id.
    pub fn get_counter(&self) -> (c: u64)
        ensures
            c == self.counter(),
    {
        self.counter
    }

    /// Make the id with the current counter and the random half `random`, and
    /// move the counter on by one.
    pub fn next_id(&mut self, random: u64) -> (id: ObjectId)
        requires
            old(self).wf(),
            old(self).counter() < u64::MAX,
        ensures
            final(self).wf(),
            id.spec_counter() == old(self).counter(),
            id.spec_random() == random,
            final(self).counter() == old(self).counter() + 1,
            final(self).rng() == old(self).rng(),
    {
        let c = self.counter;
        self.counter = c + 1;
        ObjectId::new(c, random)
    }

    /// Try to make an id, given what the rate limiter answered: refused, with
    /// the time at which an id may next be made, or allowed, in which case
    /// the id takes the current counter and a value drawn from the generator.
    pub fn try_generate_id(&mut self, limiter: Result<(), Instant>) -> (r: Result<ObjectId, Instant>)
        requires
            old(self).wf(),
            old(self).counter() < u64::MAX,
        ensures
            generate_result(*old(self), *final(self), limiter, r),
    {
        match limiter {
            Err(t) => Err(t),
            Ok(()) => {
                let r = draw_u64(&mut self.rng);
                Ok(self.next_id(r))
            },
        }
    }
}

/// What an attempt to make an id does to a factory in state `s0`, given the
/// rate limiter's answer: a refusal is passed on and changes nothing; else
/// the id takes the counter and a value drawn from the generator, and the
/// counter moves on by one.
pub open spec fn generate_result(
    s0: IdFactoryState,
    s1: IdFactoryState,
    limiter: Result<(), Instant>,
    r: Result<ObjectId, Instant>,
) -> bool {
    &&& s1.wf()
    &&& match limiter {
        Err(t) => r == Err::<ObjectId, Instant>(t) && s1 == s0,
        Ok(()) => r matches Ok(id) && {
            let (random, next) = chacha8_next_u64(s0.rng());
            &&& id.spec_counter() == s0.counter()
            &&& id.spec_random() == random
            &&& s1.counter() == s0.counter() + 1
            &&& s1.rng() == next
        },
    }
}

/// Ids made one after the other by the same factory have consecutive
/// counters.
pub proof fn law_counters_consecutive(
    s0: IdFactoryState,
    s1: IdFactoryState,
    s2: IdFactoryState,
    a: ObjectId,
    b: ObjectId,
)
    requires
        generate_result(s0, s1, Ok(()), Ok(a)),
        generate_result(s1, s2, Ok(()), Ok(b)),
    ensures
        b.spec_counter() == a.spec_counter() + 1,
{
}

/// A factory is deterministic: from the same state and the same answer of
/// the rate limiter, it makes the same id and reaches the same state.
pub proof fn law_deterministic(
    s0: IdFactoryState,
    s1: IdFactoryState,
    t1: IdFactoryState,
    limiter: Result<(), Instant>,
    r: Result<ObjectId, Instant>,
    q: Result<ObjectId, Instant>,
)
    requires
        generate_result(s0, s1, limiter, r),
        generate_result(s0, t1, limiter, q),
    ensures
        r == q,
        s1 == t1,
{
    if let (Ok(a), Ok(b)) = (r, q) {
        ObjectId::lemma_eq_by_parts(a, b);
    }
}

} // verus!
