use ammo::self_organizing_list::SelfOrganizingList;

fn get_internal_vec<const SIZE: usize>(l: &SelfOrganizingList<usize, usize, SIZE>) -> Vec<(usize, usize)> {
    l.entries()
}

#[test]
fn test_add_to_cache() {
    let mut l = SelfOrganizingList::<usize, usize, 5>::new();
    l.add_to_cache(1, 2);
    l.add_to_cache(2, 4);
    l.add_to_cache(3, 6);
    l.add_to_cache(4, 8);
    l.add_to_cache(5, 10);
    assert_eq!(
        get_internal_vec(&l),
        vec![(1, 2), (2, 4), (3, 6), (4, 8), (5, 10)]
    );
    l.add_to_cache(11, 22);
    assert_eq!(
        get_internal_vec(&l),
        vec![(1, 2), (2, 4), (3, 6), (4, 8), (11, 22)]
    );
}

#[test]
fn test_transposing() {
    let mut l = SelfOrganizingList::<usize, usize, 5>::new();
    l.add_to_cache(1, 2);
    l.add_to_cache(2, 4);
    l.add_to_cache(3, 6);
    l.add_to_cache(4, 8);
    l.add_to_cache(5, 10);
    assert_eq!(
        get_internal_vec(&l),
        vec![(1, 2), (2, 4), (3, 6), (4, 8), (5, 10)]
    );
    assert_eq!(l.read_cache(&3), Some(6));
    assert_eq!(
        get_internal_vec(&l),
        vec![(1, 2), (3, 6), (2, 4), (4, 8), (5, 10)]
    );
    assert_eq!(l.read_cache(&5), Some(10));
    assert_eq!(
        get_internal_vec(&l),
        vec![(1, 2), (3, 6), (2, 4), (5, 10), (4, 8)]
    );
}

#[test]
fn read_or_insert_hits_and_misses() {
    let mut l = SelfOrganizingList::<usize, usize, 2>::new();
    assert_eq!(l.read_or_insert(&7, |k| Some(k * 10)), Some(70));
    assert_eq!(l.read_or_insert(&7, |_| Some(0)), Some(70));
    assert_eq!(l.read_or_insert(&8, |_| None), None);
    assert_eq!(get_internal_vec(&l), vec![(7, 70)]);
    assert_eq!(l.read_or_insert(&8, |k| Some(k + 1)), Some(9));
    assert_eq!(l.read_or_insert(&9, |k| Some(k + 1)), Some(10));
    // Full: the last entry was replaced.
    assert_eq!(get_internal_vec(&l), vec![(7, 70), (9, 10)]);
    assert_eq!(l.read_cache(&8), None);
    assert_eq!(l.read_cache(&9), Some(10));
    assert_eq!(get_internal_vec(&l), vec![(9, 10), (7, 70)]);
    l.clear();
    assert_eq!(get_internal_vec(&l), vec![]);
    assert_eq!(l.read_cache(&9), None);
}
