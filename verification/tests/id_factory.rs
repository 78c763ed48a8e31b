use std::num::NonZeroU32;
use std::time::Instant;

use ammo::ecs::id_factory::IdFactoryState;
use ammo::ecs::object_id::ObjectId;
use governor::clock::MonotonicClock;
use governor::middleware::NoOpMiddleware;
use governor::state::{InMemoryState, NotKeyed};
use governor::{Quota, RateLimiter};
use rand::Rng;

type Limiter = RateLimiter<NotKeyed, InMemoryState, MonotonicClock, NoOpMiddleware<Instant>>;

struct Factory {
    limiter: Limiter,
    state: IdFactoryState,
}

impl Factory {
    fn new_with_params(counter: u64, seed: u64, quota: Quota) -> Factory {
        Factory {
            limiter: RateLimiter::direct_with_clock(quota, &MonotonicClock),
            state: IdFactoryState::new_with_params(counter, seed),
        }
    }

    fn new() -> Factory {
        let ns = std::time::SystemTime::now()
            .duration_since(std::time::SystemTime::UNIX_EPOCH)
            .unwrap()
            .as_nanos() as u64;
        let seed = rand::thread_rng().gen();
        Self::new_with_params(ns, seed, Quota::per_second(NonZeroU32::new(100000000).unwrap()))
    }

    fn try_generate_id(&mut self) -> Result<ObjectId, Instant> {
        let answer = match self.limiter.check() {
            Ok(()) => Ok(()),
            Err(e) => Err(e.earliest_possible()),
        };
        self.state.try_generate_id(answer)
    }

    fn generate_id(&mut self) -> ObjectId {
        loop {
            if let Ok(i) = self.try_generate_id() {
                return i;
            }
        }
    }
}

/// Check that the counter of object ids always increments.
#[test]
fn test_monotonic() {
    let mut fact = Factory::new();
    let id1 = fact.generate_id();
    let id2 = fact.generate_id();
    let id3 = fact.generate_id();
    let d1 = id2.get_counter() - id1.get_counter();
    let d2 = id3.get_counter() - id2.get_counter();
    assert_eq!(d1, 1);
    assert_eq!(d2, 1);
}

#[test]
fn test_no_duplicate_randomness() {
    let mut fact = Factory::new();
    let rands = (0..100).map(|_| fact.generate_id().get_random());
    let hs = rands.collect::<std::collections::HashSet<_>>();
    assert_eq!(hs.len(), 100);
}

#[test]
fn test_rate_limiting() {
    let quota = Quota::per_minute(NonZeroU32::new(5).unwrap());
    let mut fact = Factory::new_with_params(1, 10, quota);
    for _ in 0..5 {
        let _ = fact.try_generate_id();
    }
    assert!(matches!(fact.try_generate_id(), Err(_)));
}

#[test]
fn same_seed_gives_same_ids() {
    let mut a = IdFactoryState::new_with_params(7, 42);
    let mut b = IdFactoryState::new_with_params(7, 42);
    for _ in 0..10 {
        assert_eq!(a.try_generate_id(Ok(())), b.try_generate_id(Ok(())));
    }
    assert_eq!(a.get_counter(), 17);
}

#[test]
fn refusal_changes_nothing() {
    let mut s = IdFactoryState::new_with_params(5, 1);
    let t = Instant::now();
    assert_eq!(s.try_generate_id(Err(t)), Err(t));
    assert_eq!(s.get_counter(), 5);
    let id = s.try_generate_id(Ok(())).unwrap();
    assert_eq!(id.get_counter(), 5);
    assert_eq!(s.get_counter(), 6);
    let id2 = s.next_id(99);
    assert_eq!((id2.get_counter(), id2.get_random()), (6, 99));
}

#[test]
fn different_seeds_give_different_randoms() {
    let mut a = IdFactoryState::new_with_params(1, 1);
    let mut b = IdFactoryState::new_with_params(1, 2);
    let ra: Vec<u64> = (0..4).map(|_| a.try_generate_id(Ok(())).unwrap().get_random()).collect();
    let rb: Vec<u64> = (0..4).map(|_| b.try_generate_id(Ok(())).unwrap().get_random()).collect();
    assert_ne!(ra, rb);
}
