use ammo::ecs::object_id::ObjectId;
use ammo::ecs::store::{Meta, Store};

fn oid(i: u64) -> ObjectId {
    ObjectId::new_testing(i)
}

fn ids(v: &[u64]) -> Vec<ObjectId> {
    v.iter().map(|i| oid(*i)).collect()
}

fn pending_pairs(store: &Store<u64, ()>) -> Vec<(ObjectId, u64)> {
    store.pending_inserts().into_iter().map(|(k, v, _)| (k, *v)).collect()
}

#[test]
fn basic_ordered_inserting() {
    let mut store: Store<u64, ()> = Store::new(());
    for i in 1..=5 {
        store.insert(&oid(i), i);
    }

    // The index portion should contain everything.
    assert_eq!(store.index_len(), 5);
    assert_eq!(store.pending_inserts().len(), 0);

    assert_eq!(store.keys(), &ids(&[1, 2, 3, 4, 5]));

    for i in 0..5 {
        assert_eq!(*store.get_by_index(i).unwrap().deref(), (i + 1) as u64);
    }
}

#[test]
fn insert_reusing_tombstones() {
    let mut store: Store<u64, ()> = Store::new(());
    for i in 1..=5 {
        // Leave some holes.
        store.insert(&oid(i * 2), i * 2);
    }
    store.commit_pending_inserts();

    // Do some deletes and replaces.
    store.delete_index(2);
    assert!(!store.is_index_alive(2));
    store.insert(&oid(5), 5);
    assert_eq!(store.id_at_index(2), oid(5));
    assert_eq!(*store.get_by_index(2).unwrap().deref(), 5);

    store.delete_index(1);
    store.delete_index(3);
    assert!(!store.is_index_alive(1));
    assert!(!store.is_index_alive(3));

    store.insert(&oid(3), 3);
    store.insert(&oid(7), 7);
    assert_eq!(store.id_at_index(1), oid(3));
    assert_eq!(*store.get_by_index(1).unwrap().deref(), 3);
    assert!(store.is_index_alive(1));
    assert_eq!(store.id_at_index(3), oid(7));
    assert_eq!(*store.get_by_index(3).unwrap().deref(), 7);
    assert!(store.is_index_alive(3));

    // Reuse of the first and last elements are an interesting case worth doing.
    store.delete_index(0);
    assert!(!store.is_index_alive(0));
    store.insert(&oid(1), 1);
    assert!(store.is_index_alive(0));
    assert_eq!(*store.get_by_index(0).unwrap().deref(), 1);
    assert_eq!(store.id_at_index(0), oid(1));

    store.delete_index(4);
    assert!(!store.is_index_alive(4));
    // We can use any object id here.
    store.insert(&oid(100), 100);
    assert!(store.is_index_alive(4));
    assert_eq!(store.id_at_index(4), oid(100));
    assert_eq!(*store.get_by_index(4).unwrap().deref(), 100);
}

#[test]
fn test_pending_inserts() {
    let mut store: Store<u64, ()> = Store::new(());

    store.insert(&oid(1), 1);
    store.insert(&oid(5), 5);
    store.insert(&oid(2), 2);
    store.insert(&oid(3), 3);
    store.insert(&oid(4), 4);

    assert_eq!(store.index_len(), 2);
    assert_eq!(store.pending_inserts().len(), 3);
    store.commit_pending_inserts();

    assert_eq!(store.keys(), &ids(&[1, 2, 3, 4, 5]));
    assert_eq!(store.values(), &vec![1, 2, 3, 4, 5]);
    assert_eq!(store.meta(), &vec![Meta::Alive(()); 5]);
}

#[test]
fn test_mutation() {
    let mut store: Store<u64, ()> = Store::new(());

    store.insert(&oid(1), 1);
    store.insert(&oid(5), 5);
    store.insert(&oid(2), 2);
    store.insert(&oid(3), 3);
    store.insert(&oid(4), 4);

    store.insert(&oid(1), 11);
    store.insert(&oid(5), 15);
    store.insert(&oid(2), 12);
    store.insert(&oid(3), 13);
    store.insert(&oid(4), 14);

    assert_eq!(store.keys(), &ids(&[1, 5]));
    assert_eq!(store.values(), &vec![11, 15]);
    assert_eq!(
        pending_pairs(&store),
        vec![(oid(2), 12), (oid(3), 13), (oid(4), 14)]
    );

    store.commit_pending_inserts();

    assert_eq!(store.keys(), &ids(&[1, 2, 3, 4, 5]));
    assert_eq!(store.values(), &vec![11, 12, 13, 14, 15]);
    assert_eq!(store.meta(), &vec![Meta::Alive(()); 5]);
}

#[test]
fn test_get_by_id() {
    let mut store: Store<u64, ()> = Store::new(());
    // Leave some holes.
    for i in 1..=10 {
        store.insert(&oid(i * 2), i * 2);
    }

    for i in 1..=10 {
        assert_eq!(*store.get_by_id(&oid(i * 2)).unwrap().deref(), i * 2);
        assert_eq!(*store.get_by_id_mut(&oid(i * 2)).unwrap().deref(), i * 2);

        // Check that any index we shouldn't have isn't present.
        assert!(store.get_by_id(&oid(i * 2 + 1)).is_none());
        assert!(store.get_by_id_mut(&oid(i * 2 + 1)).is_none());
    }

    // Putting something in the pending inserts should work.
    store.insert(&oid(1), 1);
    assert_eq!(*store.get_by_id(&oid(1)).unwrap().deref(), 1);
    assert_eq!(*store.get_by_id_mut(&oid(1)).unwrap().deref(), 1);
}

#[test]
fn test_compaction() {
    let mut store: Store<u64, ()> = Store::new(());
    for i in 1..=5 {
        store.insert(&oid(i), i);
    }

    store.commit_pending_inserts();
    assert!(store.delete_id(&oid(2)));
    assert!(store.delete_id(&oid(4)));
    assert!(store.delete_id(&oid(5)));

    assert_eq!(store.keys(), &ids(&[1, 2, 3, 4, 5]));
    assert_eq!(store.values(), &vec![1, 2, 3, 4, 5]);
    assert_eq!(
        store.meta(),
        &vec![
            Meta::Alive(()),
            Meta::Dead,
            Meta::Alive(()),
            Meta::Dead,
            Meta::Dead,
        ]
    );
}

#[test]
fn test_iter() {
    let mut store: Store<u64, ()> = Store::new(());

    for i in 1..=5 {
        store.insert(&oid(i), i);
    }

    store.maintenance();
    store.delete_index(2);

    let res = store
        .iter()
        .iter()
        .map(|i| (i.0, i.1.get_counter(), *i.2.deref()))
        .collect::<Vec<_>>();
    assert_eq!(res, vec![(0, 1, 1), (1, 2, 2), (3, 4, 4), (4, 5, 5)]);
}

#[test]
fn test_iter_mut() {
    let mut store: Store<u64, ()> = Store::new(());

    for i in 1..=5 {
        store.insert(&oid(i), i);
    }

    store.maintenance();
    store.delete_index(2);

    let res = store
        .iter_mut()
        .iter()
        .map(|i| (i.0, i.1.get_counter(), *i.2.deref()))
        .collect::<Vec<_>>();
    assert_eq!(res, vec![(0, 1, 1), (1, 2, 2), (3, 4, 4), (4, 5, 5)]);
}

#[test]
fn test_basic_meta() {
    let mut store: Store<u64, u64> = Store::new(0);
    store.insert(&oid(1), 0);
    assert_eq!(*store.meta_for_index(0).unwrap(), 0);
    store.set_meta(1);
    *store.get_by_id_mut(&oid(1)).unwrap().deref_mut() = 1;
    assert_eq!(*store.meta_for_index(0).unwrap(), 1);
    assert_eq!(*store.get_by_id(&oid(1)).unwrap().deref(), 1);
}

#[test]
fn test_meta_appending() {
    let mut store: Store<u64, u64> = Store::new(0);
    for i in 1..=5 {
        store.set_meta(i);
        store.insert(&oid(i), i);
    }

    assert_eq!(store.keys(), &ids(&[1, 2, 3, 4, 5]));
    assert_eq!(store.values(), &vec![1, 2, 3, 4, 5]);
    assert_eq!(
        store.meta(),
        &vec![
            Meta::Alive(1),
            Meta::Alive(2),
            Meta::Alive(3),
            Meta::Alive(4),
            Meta::Alive(5),
        ]
    );
}

#[test]
fn test_deletion_through_ref() {
    let mut store: Store<u64, u64> = Store::new(0);

    // Insert backward, so that something waits in the pending inserts.
    store.insert(&oid(2), 2);
    store.insert(&oid(1), 1);

    assert!(!store.pending_inserts().is_empty());

    // Now, delete both by grabbing their refs.
    store.get_by_id_mut(&oid(1)).unwrap().delete();
    store.get_by_id_mut(&oid(2)).unwrap().delete();

    assert!(store.get_by_id(&oid(1)).is_none());
    assert!(store.get_by_id(&oid(2)).is_none());

    assert!(store.get_by_id_mut(&oid(1)).is_none());
    assert!(store.get_by_id_mut(&oid(2)).is_none());

    let pending = store.pending_inserts();
    let rec = pending.iter().find(|p| p.0 == oid(1)).unwrap();
    assert!(rec.2.is_dead());
}

#[test]
fn mutating_changes_meta_on_drop() {
    let mut store: Store<u64, u64> = Store::new(0);
    store.insert(&oid(1), 1);
    assert_eq!(*store.meta_for_index(0).unwrap(), 0);

    store.set_meta(1);
    // Just grabbing it and immediately dropping it does nothing.
    assert!(store.get_by_id_mut(&oid(1)).is_some());
    assert_eq!(*store.meta_for_id(&oid(1)).unwrap(), 0);

    // But actually mutating does.
    *store.get_by_id_mut(&oid(1)).unwrap().deref_mut() = 5;
    assert_eq!(*store.get_by_id(&oid(1)).unwrap().deref(), 5);
    assert_eq!(*store.meta_for_id(&oid(1)).unwrap(), 1);
}

// Laws on concrete values.

#[test]
fn store_lookup_after_insert_and_delete() {
    let mut store: Store<u64, ()> = Store::new(());
    assert_eq!(store.insert(&oid(3), 30), None);
    assert_eq!(store.insert(&oid(3), 31), Some(30));
    assert_eq!(*store.get_by_id(&oid(3)).unwrap().deref(), 31);
    assert!(store.delete_id(&oid(3)));
    assert!(store.get_by_id(&oid(3)).is_none());
    assert!(!store.delete_id(&oid(3)));
}

#[test]
fn store_commit_keeps_lookups() {
    let mut store: Store<u64, ()> = Store::new(());
    for i in [9u64, 2, 7, 4, 5] {
        store.insert(&oid(i), i * 10);
    }
    let before: Vec<Option<u64>> = (1..=10).map(|i| store.get_by_id(&oid(i)).map(|r| *r.deref())).collect();
    store.commit_pending_inserts();
    let after: Vec<Option<u64>> = (1..=10).map(|i| store.get_by_id(&oid(i)).map(|r| *r.deref())).collect();
    assert_eq!(before, after);
    assert_eq!(store.keys(), &ids(&[2, 4, 5, 7, 9]));
    assert!(store.pending_inserts().is_empty());
}

#[test]
fn store_maintenance_drops_tombstones() {
    let mut store: Store<u64, ()> = Store::new(());
    for i in 1..=5 {
        store.insert(&oid(i), i);
    }
    store.delete_id(&oid(2));
    store.delete_id(&oid(4));
    store.maintenance();
    assert_eq!(store.keys(), &ids(&[1, 3, 5]));
    assert_eq!(store.values(), &vec![1, 3, 5]);
    assert_eq!(store.index_for_id(&oid(3)), Some(1));
    assert_eq!(store.index_for_id(&oid(2)), None);
}

#[test]
fn store_insert_and_delete_leave_other_ids_alone() {
    let mut store: Store<u64, ()> = Store::new(());
    for i in [1u64, 2, 4, 5] {
        store.insert(&oid(i), i);
    }
    store.insert(&oid(3), 3);
    let snapshot = |s: &Store<u64, ()>| -> Vec<Option<u64>> {
        (1..=6).map(|i| s.get_by_id(&oid(i)).map(|r| *r.deref())).collect()
    };
    assert_eq!(snapshot(&store), vec![Some(1), Some(2), Some(3), Some(4), Some(5), None]);
    store.insert(&oid(4), 40);
    assert_eq!(snapshot(&store), vec![Some(1), Some(2), Some(3), Some(40), Some(5), None]);
    store.delete_id(&oid(1));
    assert_eq!(snapshot(&store), vec![None, Some(2), Some(3), Some(40), Some(5), None]);
    store.insert(&oid(6), 6);
    assert_eq!(snapshot(&store), vec![None, Some(2), Some(3), Some(40), Some(5), Some(6)]);
}

#[test]
fn store_default_is_empty() {
    let store: Store<u64, u32> = Store::default();
    assert_eq!(store.index_len(), 0);
    assert!(store.pending_inserts().is_empty());
}

#[test]
fn meta_for_id_reads_pending_records() {
    let mut s: Store<u64, u64> = Store::new(0);
    s.insert(&oid(2), 2);
    s.insert(&oid(1), 1);
    assert_eq!(s.meta_for_id(&oid(1)), Some(&0));
    assert_eq!(s.meta_for_id(&oid(2)), Some(&0));
    assert_eq!(s.meta_for_id(&oid(3)), None);
    s.get_by_id_mut(&oid(1)).unwrap().delete();
    assert_eq!(s.meta_for_id(&oid(1)), None);
}

#[test]
fn commit_keeps_inserted_meta() {
    let mut s: Store<u64, u64> = Store::new(0);
    s.insert(&oid(1), 1);
    s.insert(&oid(3), 3);
    s.insert(&oid(2), 2);
    s.set_meta(7);
    s.commit_pending_inserts();
    assert_eq!(s.id_at_index(1), oid(2));
    assert_eq!(s.meta_for_id(&oid(1)), Some(&0));
    assert_eq!(s.meta_for_id(&oid(2)), Some(&0));
    assert_eq!(s.meta_for_id(&oid(3)), Some(&0));
    // A change after set_meta is stamped.
    s.insert(&oid(2), 20);
    assert_eq!(s.meta_for_id(&oid(2)), Some(&7));
}

#[test]
fn second_maintenance_changes_nothing() {
    let mut store: Store<u64, u64> = Store::new(0);
    for i in [2u64, 6, 4] {
        store.insert(&oid(i), i * 10);
    }
    store.set_meta(7);
    store.insert(&oid(5), 50);
    store.delete_id(&oid(6));
    store.maintenance();
    let keys = store.keys().clone();
    let values = store.values().clone();
    let metas: Vec<Option<u64>> = (0..store.index_len()).map(|i| store.meta_for_index(i).copied()).collect();
    store.maintenance();
    assert_eq!(store.keys(), &keys);
    assert_eq!(store.values(), &values);
    let metas2: Vec<Option<u64>> = (0..store.index_len()).map(|i| store.meta_for_index(i).copied()).collect();
    assert_eq!(metas2, metas);
    assert_eq!(keys, ids(&[2, 4, 5]));
    assert_eq!(metas, vec![Some(0), Some(0), Some(7)]);
}

fn check_model(store: &Store<u64, ()>, model: &std::collections::BTreeMap<u64, u64>) {
    for i in 0..12u64 {
        let got = store.get_by_id(&oid(i + 1)).map(|r| *r.deref());
        assert_eq!(got, model.get(&(i + 1)).copied(), "id {}", i + 1);
    }
}

#[test]
fn run_of_calls_models_what_it_wrote() {
    let mut store: Store<u64, ()> = Store::new(());
    let mut model = std::collections::BTreeMap::new();
    for (id, v) in [(1u64, 10u64), (5, 50), (9, 90), (3, 30)] {
        assert_eq!(store.insert(&oid(id), v), model.insert(id, v));
        check_model(&store, &model);
    }
    assert_eq!(store.insert(&oid(5), 55), model.insert(5, 55));
    check_model(&store, &model);
    assert_eq!(store.delete_id(&oid(9)), model.remove(&9).is_some());
    check_model(&store, &model);
    assert_eq!(store.insert(&oid(7), 70), model.insert(7, 70));
    check_model(&store, &model);
    assert_eq!(store.insert(&oid(3), 33), model.insert(3, 33));
    check_model(&store, &model);
    store.commit_pending_inserts();
    check_model(&store, &model);
    assert_eq!(store.delete_id(&oid(3)), model.remove(&3).is_some());
    assert_eq!(store.delete_id(&oid(3)), model.remove(&3).is_some());
    check_model(&store, &model);
    assert_eq!(store.id_at_index(0), oid(1));
    assert!(store.delete_index(0));
    model.remove(&1);
    check_model(&store, &model);
    assert!(!store.delete_index(0));
    check_model(&store, &model);
    store.maintenance();
    check_model(&store, &model);
    assert_eq!(store.index_len(), model.len());
}

#[test]
fn writes_and_deletes_through_references_follow_the_model() {
    let mut store: Store<u64, ()> = Store::new(());
    let mut model = std::collections::BTreeMap::new();
    for (id, v) in [(2u64, 20u64), (8, 80), (4, 40), (6, 60)] {
        store.insert(&oid(id), v);
        model.insert(id, v);
    }
    // 2 and 8 are in the index, 4 and 6 wait among the pending inserts.
    *store.get_by_id_mut(&oid(8)).unwrap().deref_mut() = 88;
    model.insert(8, 88);
    *store.get_by_id_mut(&oid(4)).unwrap().deref_mut() = 44;
    model.insert(4, 44);
    check_model(&store, &model);
    store.get_by_id_mut(&oid(6)).unwrap().delete();
    model.remove(&6);
    store.get_by_id_mut(&oid(2)).unwrap().delete();
    model.remove(&2);
    check_model(&store, &model);
    store.commit_pending_inserts();
    check_model(&store, &model);
    assert_eq!(store.index_len(), model.len());
}

#[test]
fn commit_brings_back_a_hidden_pending_insert() {
    let mut store: Store<u64, ()> = Store::new(());
    for (id, v) in [(1u64, 10u64), (5, 50), (3, 30)] {
        store.insert(&oid(id), v);
    }
    // 3 waits among the pending inserts; killing slot 5 hides it.
    assert!(store.delete_id(&oid(5)));
    assert!(store.get_by_id(&oid(3)).is_none());
    store.commit_pending_inserts();
    assert_eq!(*store.get_by_id(&oid(3)).unwrap().deref(), 30);
    assert!(store.get_by_id(&oid(5)).is_none());
    assert_eq!(store.keys(), &ids(&[1, 3]));
    assert_eq!(store.index_len(), 2);
}
