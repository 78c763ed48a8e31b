use std::sync::atomic::{AtomicUsize, Ordering};
use std::sync::Mutex;

use ammo::nzslab::Slab;

/// Each slab made here gets a tag of its own.
fn new_slab<T>() -> Slab<T> {
    static COUNTER: AtomicUsize = AtomicUsize::new(0);
    Slab::new(COUNTER.fetch_add(1, Ordering::Relaxed))
}

#[test]
fn basic() {
    let mut slab = new_slab::<u32>();
    let h1 = slab.insert(1);
    let h2 = slab.insert(2);
    let h3 = slab.insert(3);
    assert_eq!([*slab.get(&h1), *slab.get(&h2), *slab.get(&h3)], [1, 2, 3]);
    assert_eq!(slab.used_count(), 3);
    assert_eq!(slab.free_slots(), &Vec::<u32>::new());
}

#[test]
fn basic_free() {
    let mut slab = new_slab::<u32>();
    let h1 = slab.insert(1);
    let h2 = slab.insert(2);
    let h3 = slab.insert(3);
    slab.remove(h2);
    assert_eq!(slab.free_slots(), &vec![2]);
    let h4 = slab.insert(4);
    assert_eq!(*slab.get(&h1), 1);
    assert_eq!(*slab.get(&h3), 3);
    assert_eq!(*slab.get(&h4), 4);
    assert_eq!(slab.used_count(), 3);
    assert_eq!(slab.free_slots(), &Vec::<u32>::new());
    assert_eq!(slab.versions(), &vec![0, 0, 1, 0]);
}

#[test]
fn no_explosive_growth() {
    let mut slab = new_slab::<u32>();

    // Add a bunch of handles and free several times, then check that things didn't go nuts.
    for outer in 0..10u32 {
        let mut handles = vec![];
        for i in 0..10000u32 {
            handles.push((i * outer, slab.insert(i * outer)));
        }
        for (expected, handle) in handles.into_iter() {
            assert_eq!(*slab.get(&handle), expected);
            slab.remove(handle);
        }
        assert_eq!(slab.slot_count(), 10001);
        assert_eq!(slab.free_slots().len(), 10000);
    }
}

struct Dropper<'a> {
    dest: &'a Mutex<bool>,
}

impl<'a> Drop for Dropper<'a> {
    fn drop(&mut self) {
        *self.dest.lock().unwrap() = true;
    }
}

#[test]
fn drop_is_called() {
    let dropped = Mutex::new(false);
    let mut slab = new_slab();
    let handle = slab.insert(Dropper { dest: &dropped });
    slab.remove(handle);
    std::mem::forget(slab);
    assert!(*dropped.lock().unwrap());
}

fn mutex_vec_to_bool(mvec: &[Mutex<bool>]) -> Vec<bool> {
    mvec.iter().map(|i| *i.lock().unwrap()).collect()
}

#[test]
fn dropping_slab_drops_items() {
    let mut drop_arr = vec![];
    for _ in 0..10 {
        drop_arr.push(Mutex::new(false));
    }

    let mut slab = new_slab();
    let mut handles = vec![];
    drop_arr.iter().for_each(|dest| {
        handles.push(slab.insert(Dropper { dest }));
    });

    // Put some holes in it.
    slab.remove(handles[2].clone());
    slab.remove(handles[3].clone());
    slab.remove(handles[5].clone());
    slab.remove(handles[9].clone());
    assert_eq!(
        mutex_vec_to_bool(&drop_arr),
        vec![false, false, true, true, false, true, false, false, false, true]
    );

    std::mem::drop(slab);
    assert_eq!(mutex_vec_to_bool(&drop_arr), vec![true; 10]);
}

#[test]
#[should_panic]
fn test_builds_catch_double_free() {
    let mut slab = new_slab::<u32>();
    let h1 = slab.insert(1);
    slab.remove(h1.clone());
    slab.remove(h1);
}

#[test]
fn slab_tags_are_different() {
    let slab1 = new_slab::<u32>();
    let slab2 = new_slab::<u32>();
    assert_ne!(slab1.slab_tag(), slab2.slab_tag());
}

#[test]
#[should_panic]
fn test_builds_catch_slab_handles_used_with_wrong_slab() {
    let mut slab1 = new_slab::<u32>();
    let slab2 = new_slab::<u32>();
    let h = slab1.insert(1);
    slab2.get(&h);
}

#[test]
fn freelist_stays_sorted() {
    let mut slab = new_slab::<u32>();
    let h1 = slab.insert(1);
    let h2 = slab.insert(2);
    let h3 = slab.insert(3);
    let h4 = slab.insert(4);
    let h5 = slab.insert(5);
    for i in [h5, h3, h1, h2, h4] {
        slab.remove(i);
    }
    assert_eq!(slab.free_slots(), &vec![1, 2, 3, 4, 5]);
}

#[test]
fn test_iteration_full() {
    let vals = [1, 2, 3, 4, 5, 6, 7, 8, 9, 10];
    let mut slab = new_slab::<u32>();
    for i in vals.iter() {
        let _ = slab.insert(*i);
    }
    let res_iter = slab.iter().into_iter().copied().collect::<Vec<_>>();
    let res_iter_mut = slab.iter_mut().into_iter().map(|x| *x).collect::<Vec<_>>();
    let expected = vec![1, 2, 3, 4, 5, 6, 7, 8, 9, 10];
    assert_eq!(res_iter, expected);
    assert_eq!(res_iter_mut, expected);
}

/// Every pattern of kept and removed inserts of up to 12 values.
#[test]
fn iteration_over_all_removal_patterns() {
    for n in 0..12usize {
        for mask in 0..(1u32 << n) {
            let mut slab = new_slab::<usize>();
            for i in 0..n {
                let h = slab.insert(i);
                if mask & (1 << i) == 0 {
                    slab.remove(h);
                }
            }
            let expected = (0..n).filter(|i| mask & (1 << i) != 0).collect::<Vec<_>>();
            let got = slab.iter().into_iter().copied().collect::<Vec<_>>();
            let got_mut = slab.iter_mut().into_iter().map(|x| *x).collect::<Vec<_>>();
            assert_eq!(got, expected);
            assert_eq!(got_mut, expected);
        }
    }
}

/// The last slot is visited when the highest free slot sits just below it.
#[test]
fn iteration_with_free_slot_before_last() {
    let mut slab = new_slab::<u32>();
    let _h1 = slab.insert(1);
    let h2 = slab.insert(2);
    let _h3 = slab.insert(3);
    slab.remove(h2);
    assert_eq!(slab.iter().into_iter().copied().collect::<Vec<_>>(), vec![1, 3]);
    let groups: Vec<Vec<u32>> = slab
        .iter_slices()
        .into_iter()
        .map(|g| g.into_iter().copied().collect())
        .collect();
    assert_eq!(groups, vec![vec![1], vec![3]]);
}

#[test]
fn slab_get_mut_and_handles() {
    let mut slab = new_slab::<u32>();
    let h1 = slab.insert(10);
    let h2 = slab.insert(20);
    *slab.get_mut(&h1) += 5;
    assert_eq!(*slab.get(&h1), 15);
    assert_eq!(*slab.get(&h2), 20);
    assert!(slab.check_handle(&h1));
    assert_eq!(h1.get_tag(), 1);
    assert_eq!(h2.get_tag(), 2);
    let h1b = h1.clone();
    slab.remove(h1);
    assert!(!slab.check_handle(&h1b));
    // The freed slot is reused, with a new version.
    let h3 = slab.insert(30);
    assert_eq!(h3.get_tag(), 1);
    assert!(!slab.check_handle(&h1b));
    assert!(slab.check_handle(&h3));
    assert!(slab.capacity() >= slab.slot_count());
    assert_eq!(slab.available_slots(), slab.capacity() - slab.slot_count() + slab.free_slots().len());
}

#[test]
fn slices_mut_follow_runs_of_slots() {
    let mut slab = new_slab::<u32>();
    let hs: Vec<_> = (1..=6).map(|i| slab.insert(i)).collect();
    slab.remove(hs[2].clone());
    slab.remove(hs[3].clone());
    {
        let groups = slab.iter_slices_mut();
        assert_eq!(groups.len(), 2);
        assert_eq!(groups[0].len(), 2);
        assert_eq!(groups[1].len(), 2);
        for g in groups {
            for v in g {
                *v *= 10;
            }
        }
    }
    assert_eq!(slab.iter().into_iter().copied().collect::<Vec<_>>(), vec![10, 20, 50, 60]);
    assert_eq!(*slab.get(&hs[4]), 50);
}

#[test]
fn available_slots_count_room_and_free_slots() {
    let mut slab = new_slab::<u32>();
    let _h1 = slab.insert(1);
    let h2 = slab.insert(2);
    let _h3 = slab.insert(3);
    slab.remove(h2);
    assert_eq!(slab.slot_count(), 4);
    assert_eq!(slab.available_from_capacity(10), 7);
    assert_eq!(slab.available_from_capacity(4), 1);
    assert_eq!(slab.available_slots(), slab.capacity() - 4 + 1);
}
