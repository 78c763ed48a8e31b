use ammo::ecs::object_id::ObjectId;
use std::cmp::Ordering::{Equal, Greater, Less};

/// Values around the sign bit and the top of `u64` survive a round trip.
#[test]
fn test_problematic_values() {
    for (c, r) in [
        (i64::MAX as u64 + 1, 0),
        (1, i64::MAX as u64 + 1),
        (u64::MAX, 1),
        (1, u64::MAX),
        (u64::MAX, u64::MAX),
    ] {
        let oid = ObjectId::new(c, r);
        assert_eq!((oid.get_counter(), oid.get_random()), (c, r));
    }
}

#[test]
fn test_ordering() {
    for ((c1, r1), (c2, r2), ordering) in [
        ((1, 0), (2, 0), Less),
        ((1, 1), (1, 1), Equal),
        ((u64::MAX, 0), (1, u64::MAX), Greater),
        ((u64::MAX, u64::MAX), (u64::MAX, u64::MAX), Equal),
    ] {
        let o1 = ObjectId::new(c1, r1);
        let o2 = ObjectId::new(c2, r2);
        assert_eq!(o1.cmp(&o2), ordering, "{:?} {:?}", o1, o2);
        assert_eq!(o1.partial_cmp(&o2), Some(ordering), "{:?} {:?}", o1, o2);
    }
}

#[test]
fn object_id_precedes_and_same_as() {
    let a = ObjectId::new(1, 5);
    let b = ObjectId::new(1, 6);
    let c = ObjectId::new(2, 0);
    assert!(a.precedes(&b));
    assert!(b.precedes(&c));
    assert!(!c.precedes(&a));
    assert!(a.same_as(&ObjectId::new(1, 5)));
    assert!(!a.same_as(&b));
}

#[test]
fn object_id_testing_has_zero_random() {
    let a = ObjectId::new_testing(7);
    assert_eq!(a.get_counter(), 7);
    assert_eq!(a.get_random(), 0);
}
