//! A slab: values stored in a vector, addressed by handles whose slot is a
//! nonzero `u32`.
//!
//! Slot 0 is never used.  Freed slots are kept in a sorted free list and the
//! highest one is reused first.  Every handle carries the tag of its slab and
//! the version of its slot, which is bumped whenever the slot is freed, so that
//! a handle names one value of one slab.
use vstd::prelude::*;
use vstd::pervasive::runtime_assert;
use vstd::pervasive::unreached;

verus! {

/// A handle to a value in a [Slab].
#[derive(Debug)]
pub struct SlabHandle<T> {
    slot: u32,
    slab_tag: usize,
    slab_version: usize,
    _data: core::marker::PhantomData<T>,
}

impl<T> Clone for SlabHandle<T> {
    fn clone(&self) -> (h: SlabHandle<T>)
        ensures
            h == *self,
    {
        SlabHandle {
            slot: self.slot,
            slab_tag: self.slab_tag,
            slab_version: self.slab_version,
            _data: core::marker::PhantomData,
        }
    }
}

impl<T> SlabHandle<T> {
    /// The slot the handle names.
    pub closed spec fn spec_slot(self) -> u32 {
        self.slot
    }

    /// The tag of the slab the handle belongs to.
    pub closed spec fn spec_tag(self) -> usize {
        self.slab_tag
    }

    /// The version of the slot when the handle was made.
    pub closed spec fn spec_version(self) -> usize {
        self.slab_version
    }

    /// Two handles are equal exactly when their slots, tags and versions are.
    pub proof fn lemma_eq_by_parts(a: SlabHandle<T>, b: SlabHandle<T>)
        ensures
            (a == b) <==> (a.spec_slot() == b.spec_slot() && a.spec_tag() == b.spec_tag()
                && a.spec_version() == b.spec_version()),
    {
    }

    /// A value which compares equal for two handles exactly when their slots
    /// do (whatever their slab).  Stable for the lifetime of the handle.
    pub fn get_tag(&self) -> (t: usize)
        ensures
            t == self.spec_slot(),
    {
        self.slot as usize
    }
}

/// A slab of values of type `T`.
///
/// `data[0]` is never used.  `free_slots` lists the empty slots in increasing
/// order; `versions[i]` counts how often slot `i` was freed.
pub struct Slab<T> {
    data: Vec<Option<T>>,
    free_slots: Vec<u32>,
    versions: Vec<usize>,
    slab_tag: usize,
}

/// The values held in `s`, in slot order.
pub open spec fn live_values<T>(s: Seq<Option<T>>) -> Seq<T>
    decreases s.len(),
{
    if s.len() == 0 {
        Seq::empty()
    } else {
        let rest = live_values(s.drop_last());
        match s.last() {
            Some(v) => rest.push(v),
            None => rest,
        }
    }
}

/// The values behind a sequence of references.
pub open spec fn deref_all<T>(v: Seq<&T>) -> Seq<T> {
    v.map_values(|x: &T| *x)
}

/// The values behind groups of references, group after group.
pub open spec fn flat<T>(g: Seq<Vec<&T>>) -> Seq<T>
    decreases g.len(),
{
    if g.len() == 0 {
        Seq::empty()
    } else {
        flat(g.drop_last()) + deref_all(g.last()@)
    }
}

proof fn lemma_live_values_step<T>(s: Seq<Option<T>>, i: int)
    requires
        0 <= i < s.len(),
    ensures
        live_values(s.take(i + 1)) == match s[i] {
            Some(v) => live_values(s.take(i)).push(v),
            None => live_values(s.take(i)),
        },
{
    assert(s.take(i + 1).drop_last() =~= s.take(i));
}

/// Empty slots add no value.
proof fn lemma_live_values_skip<T>(s: Seq<Option<T>>, a: int, b: int)
    requires
        0 <= a <= b <= s.len(),
        forall|j: int| a <= j < b ==> #[trigger] s[j] is None,
    ensures
        live_values(s.take(b)) == live_values(s.take(a)),
    decreases b - a,
{
    if b > a {
        lemma_live_values_skip(s, a, b - 1);
        lemma_live_values_step(s, b - 1);
    }
}

/// How many values lie before slot `i`: the position of that slot's value
/// among all values.
pub open spec fn live_rank<T>(s: Seq<Option<T>>, i: int) -> int {
    live_values(s.take(i)).len() as int
}

/// The number of values before a slot grows with the slot.
proof fn lemma_live_rank_monotone<T>(s: Seq<Option<T>>, a: int, b: int)
    requires
        0 <= a <= b <= s.len(),
    ensures
        live_rank(s, a) <= live_rank(s, b),
    decreases b - a,
{
    if a < b {
        lemma_live_rank_monotone(s, a, b - 1);
        lemma_live_values_step(s, b - 1);
    }
}

/// The value of an occupied slot has a position among all values.
proof fn lemma_live_rank_bound<T>(s: Seq<Option<T>>, i: int)
    requires
        0 <= i < s.len(),
        s[i] is Some,
    ensures
        live_rank(s, i) < live_values(s).len(),
{
    lemma_live_values_step(s, i);
    lemma_live_rank_monotone(s, i + 1, s.len() as int);
    assert(s.take(s.len() as int) =~= s);
}

/// The values of a prefix of the slots are a prefix of all the values.
proof fn lemma_live_values_prefix<T>(s: Seq<Option<T>>, n: int, k: int)
    requires
        0 <= n <= s.len(),
        0 <= k < live_values(s.take(n)).len(),
    ensures
        k < live_values(s).len(),
        live_values(s)[k] == live_values(s.take(n))[k],
    decreases s.len() - n,
{
    if n < s.len() {
        lemma_live_values_step(s, n);
        lemma_live_values_prefix(s, n + 1, k);
    } else {
        assert(s.take(n) =~= s);
    }
}

/// Mutable references to the values held in `s`, in slot order.
fn collect_values_mut<'a, T>(s: &'a mut [Option<T>]) -> (r: Vec<&'a mut T>)
    ensures
        r@.len() == live_values(old(s)@).len(),
        forall|t: int| 0 <= t < r@.len() ==> *#[trigger] r@[t] == live_values(old(s)@)[t],
        final(s)@.len() == old(s)@.len(),
        forall|i: int|
            0 <= i < old(s)@.len() ==> #[trigger] final(s)@[i] == match old(s)@[i] {
                None => None,
                Some(_) => Some(*final(r@[live_rank(old(s)@, i)])),
            },
    decreases old(s)@.len(),
{
    let n = s.len();
    if n == 0 {
        return Vec::new();
    }
    let ghost s0 = s@;
    let (init, tail) = s.split_at_mut(n - 1);
    let ghost fi = final(init)@;
    let ghost ft = final(tail)@;
    let ghost i0 = init@;
    let mut r = collect_values_mut(init);
    let ghost r0 = r@;
    let cell = tail.first_mut().unwrap();
    let ghost c0 = *cell;
    let ghost fc = *final(cell);
    proof {
        assert(i0 =~= s0.drop_last());
        assert(s0.last() == c0);
        assert forall|i: int| 0 <= i < n - 1 implies live_rank(s0, i) == live_rank(i0, i) by {
            assert(s0.take(i) =~= i0.take(i));
        }
        assert(s0.take(n - 1) =~= i0);
    }
    match cell.as_mut() {
        Some(v) => {
            let ghost fv = *final(v);
            r.push(v);
            proof {
                assert(fc == Some(fv));
                assert(*final(r@[r0.len() as int]) == fv);
            }
        },
        None => {},
    }
    proof {
        assert forall|t: int| 0 <= t < r0.len() implies r@[t] == r0[t] by {}
        assert(ft =~= seq![fc]);
        assert forall|i: int| 0 <= i < n implies #[trigger] (fi + ft)[i] == match s0[i] {
            None => None,
            Some(_) => Some(*final(r@[live_rank(s0, i)])),
        } by {
            if i < n - 1 {
                assert((fi + ft)[i] == fi[i]);
                assert(s0[i] == i0[i]);
                assert(live_rank(s0, i) == live_rank(i0, i));
                if i0[i] is Some {
                    lemma_live_rank_bound(i0, i);
                    assert(r@[live_rank(i0, i)] == r0[live_rank(i0, i)]);
                }
            } else {
                assert((fi + ft)[i] == fc);
                assert(live_rank(s0, i) == r0.len());
            }
        }
    }
    r
}

/// A sorted list of slots in `[1, len)` has at most `len - 1` entries.
proof fn lemma_free_list_fits(free: Seq<u32>, len: int)
    requires
        sorted_slots(free),
        forall|k: int| 0 <= k < free.len() ==> 1 <= #[trigger] free[k] < len,
    ensures
        free.len() <= if len >= 1 { len - 1 } else { 0 },
{
    if free.len() > 0 {
        lemma_sorted_slots_grow(free, free.len() - 1);
    }
}

/// In a sorted list of slots that are at least 1, entry `k` is at least
/// `k + 1`.
proof fn lemma_sorted_slots_grow(free: Seq<u32>, k: int)
    requires
        sorted_slots(free),
        0 <= k < free.len(),
        forall|q: int| 0 <= q < free.len() ==> 1 <= #[trigger] free[q],
    ensures
        free[k] >= k + 1,
    decreases k,
{
    if k > 0 {
        lemma_sorted_slots_grow(free, k - 1);
        assert(free[k - 1] < free[k]);
    }
}

/// The capacity of a vector, which is at least its length.
#[verifier::external_body]
fn vec_capacity<X>(v: &Vec<X>) -> (c: usize)
    ensures
        c >= v@.len(),
{
    v.capacity()
}

/// What inserting `value` into `s0` does: `s1` is the slab after, `h` the
/// handle returned.  The highest free slot is reused if there is one, else
/// the slab grows by one slot; no other slot changes.
pub open spec fn insert_result<T>(s0: Slab<T>, s1: Slab<T>, h: SlabHandle<T>, value: T) -> bool {
    &&& s1.wf()
    &&& s1.live(h)
    &&& s1.value(h) == value
    &&& s1.tag() == s0.tag()
    &&& if s0.free_list().len() > 0 {
        &&& h.spec_slot() == s0.free_list().last()
        &&& s1.free_list() == s0.free_list().drop_last()
        &&& s1.slots() == s0.slots().update(h.spec_slot() as int, Some(value))
        &&& s1.slot_versions() == s0.slot_versions()
    } else {
        &&& h.spec_slot() == s0.slots().len()
        &&& s1.free_list() == s0.free_list()
        &&& s1.slots() == s0.slots().push(Some(value))
        &&& s1.slot_versions() == s0.slot_versions().push(0)
    }
}

/// What removing the value of `h` from `s0` does: `s1` is the slab after.
/// The slot is emptied, its version bumped, and its number put into the free
/// list in order; no other slot changes.
pub open spec fn remove_result<T>(s0: Slab<T>, s1: Slab<T>, h: SlabHandle<T>) -> bool {
    let slot = h.spec_slot() as int;
    &&& s1.wf()
    &&& s1.tag() == s0.tag()
    &&& s1.slots() == s0.slots().update(slot, None)
    &&& s1.slot_versions() == s0.slot_versions().update(
        slot,
        (s0.slot_versions()[slot] + 1) as usize,
    )
    &&& exists|p: int|
        0 <= p <= s0.free_list().len() && s1.free_list() == s0.free_list().insert(
            p,
            h.spec_slot(),
        )
}

impl<T> Slab<T> {
    /// Every slot, `None` where it holds no value.
    pub closed spec fn slots(self) -> Seq<Option<T>> {
        self.data@
    }

    /// The free list.
    pub closed spec fn free_list(self) -> Seq<u32> {
        self.free_slots@
    }

    /// The version of every slot.
    pub closed spec fn slot_versions(self) -> Seq<usize> {
        self.versions@
    }

    /// The tag that the handles of this slab carry.
    pub closed spec fn tag(self) -> usize {
        self.slab_tag
    }

    /// The slab's invariant: slot 0 is empty, every slot number fits a `u32`,
    /// and the free list holds, in increasing order, exactly the empty slots
    /// past slot 0.
    pub open spec fn wf(self) -> bool {
        &&& 1 <= self.slots().len() <= u32::MAX + 1
        &&& self.slot_versions().len() == self.slots().len()
        &&& self.slots()[0] is None
        &&& sorted_slots(self.free_list())
        &&& forall|k: int|
            #![trigger self.free_list()[k]]
            0 <= k < self.free_list().len() ==> 1 <= self.free_list()[k] < self.slots().len()
                && self.slots()[self.free_list()[k] as int] is None
        &&& forall|i: int|
            1 <= i < self.slots().len() && #[trigger] self.slots()[i] is None ==> slot_free(
                self.free_list(),
                i,
            )
    }

    /// Whether `h` names a value of this slab: it carries the slab's tag and
    /// the current version of its slot, and the slot holds a value.
    pub open spec fn live(self, h: SlabHandle<T>) -> bool {
        &&& h.spec_tag() == self.tag()
        &&& h.spec_slot() < self.slots().len()
        &&& h.spec_version() == self.slot_versions()[h.spec_slot() as int]
        &&& self.slots()[h.spec_slot() as int] is Some
    }

    /// The value that a live handle names.
    pub open spec fn value(self, h: SlabHandle<T>) -> T {
        self.slots()[h.spec_slot() as int]->Some_0
    }

    /// An empty slab whose handles carry `slab_tag`.
    pub fn new(slab_tag: usize) -> (s: Slab<T>)
        ensures
            s.wf(),
            s.slots() == seq![None::<T>],
            s.free_list() == Seq::<u32>::empty(),
            s.slot_versions() == seq![0usize],
            s.tag() == slab_tag,
    {
        let mut data: Vec<Option<T>> = Vec::new();
        data.push(None);
        let mut versions: Vec<usize> = Vec::new();
        versions.push(0);
        Slab { data, free_slots: Vec::new(), versions, slab_tag }
    }

    /// Whether `h` is live in this slab: using any other handle is an error.
    pub fn check_handle(&self, h: &SlabHandle<T>) -> (ok: bool)
        requires
            self.wf(),
        ensures
            ok == self.live(*h),
    {
        let slot = h.slot as usize;
        h.slab_tag == self.slab_tag && slot < self.data.len() && h.slab_version
            == self.versions[slot] && self.data[slot].is_some()
    }

    /// Read the value that a handle names.
    pub fn get(&self, handle: &SlabHandle<T>) -> (r: &T)
        requires
            self.wf(),
            self.live(*handle),
        ensures
            *r == self.value(*handle),
    {
        runtime_assert(self.check_handle(handle));
        match &self.data[handle.slot as usize] {
            Some(v) => v,
            None => unreached(),
        }
    }

    /// Find an empty slot, the highest free one or else a new one at the end,
    /// and take it off the free list.
    fn allocate_empty_slot(&mut self) -> (slot: u32)
        requires
            old(self).wf(),
            old(self).free_list().len() > 0 || old(self).slots().len() <= u32::MAX,
        ensures
            final(self).tag() == old(self).tag(),
            if old(self).free_list().len() > 0 {
                &&& slot == old(self).free_list().last()
                &&& final(self).free_list() == old(self).free_list().drop_last()
                &&& final(self).slots() == old(self).slots()
                &&& final(self).slot_versions() == old(self).slot_versions()
            } else {
                &&& slot == old(self).slots().len()
                &&& final(self).free_list() == old(self).free_list()
                &&& final(self).slots() == old(self).slots().push(None)
                &&& final(self).slot_versions() == old(self).slot_versions().push(0)
            },
    {
        match self.free_slots.pop() {
            Some(x) => x,
            None => {
                self.data.push(None);
                self.versions.push(0);
                (self.data.len() - 1) as u32
            },
        }
    }

    /// Take an empty slot and make a handle for it.
    fn allocate_handle(&mut self) -> (h: SlabHandle<T>)
        requires
            old(self).wf(),
            old(self).free_list().len() > 0 || old(self).slots().len() <= u32::MAX,
        ensures
            final(self).tag() == old(self).tag(),
            h.spec_tag() == old(self).tag(),
            h.spec_version() == final(self).slot_versions()[h.spec_slot() as int],
            if old(self).free_list().len() > 0 {
                &&& h.spec_slot() == old(self).free_list().last()
                &&& final(self).free_list() == old(self).free_list().drop_last()
                &&& final(self).slots() == old(self).slots()
                &&& final(self).slot_versions() == old(self).slot_versions()
            } else {
                &&& h.spec_slot() == old(self).slots().len()
                &&& final(self).free_list() == old(self).free_list()
                &&& final(self).slots() == old(self).slots().push(None)
                &&& final(self).slot_versions() == old(self).slot_versions().push(0)
            },
    {
        let slot = self.allocate_empty_slot();
        proof {
            if old(self).free_list().len() > 0 {
                let k = old(self).free_list().len() - 1;
                assert(old(self).free_list()[k] == slot);
            }
        }
        SlabHandle {
            slot,
            slab_tag: self.slab_tag,
            slab_version: self.versions[slot as usize],
            _data: core::marker::PhantomData,
        }
    }

    /// Insert a value, reusing the highest free slot or growing the slab.
    pub fn insert(&mut self, value: T) -> (h: SlabHandle<T>)
        requires
            old(self).wf(),
            old(self).free_list().len() > 0 || old(self).slots().len() <= u32::MAX,
        ensures
            insert_result(*old(self), *final(self), h, value),
    {
        let new_handle = self.allocate_handle();
        let ghost mid = self.slots();
        self.data.set(new_handle.slot as usize, Some(value));
        proof {
            let o = old(self);
            let f = *self;
            let slot = new_handle.spec_slot() as int;
            if o.free_list().len() > 0 {
                let n = o.free_list().len() - 1;
                assert(o.free_list()[n] == slot);
                assert forall|k: int| #![trigger f.free_list()[k]] 0 <= k < f.free_list().len()
                    implies 1 <= f.free_list()[k] < f.slots().len()
                        && f.slots()[f.free_list()[k] as int] is None by {
                    assert(f.free_list()[k] == o.free_list()[k]);
                    assert(o.free_list()[k] < o.free_list()[n]);
                }
                assert forall|i: int|
                    1 <= i < f.slots().len() && #[trigger] f.slots()[i] is None implies slot_free(
                        f.free_list(),
                        i,
                    ) by {
                    assert(o.slots()[i] is None);
                    let q = choose|q: int| 0 <= q < o.free_list().len() && o.free_list()[q] == i;
                    assert(f.free_list()[q] == o.free_list()[q]);
                }
            } else {
                assert(f.slots() =~= o.slots().push(Some(value)));
                assert forall|i: int|
                    1 <= i < f.slots().len() && #[trigger] f.slots()[i] is None implies slot_free(
                        f.free_list(),
                        i,
                    ) by {
                    assert(o.slots()[i] is None);
                }
            }
        }
        new_handle
    }

    /// Remove the value that a handle names, freeing its slot; the slab does
    /// not shrink.
    pub fn remove(&mut self, handle: SlabHandle<T>)
        requires
            old(self).wf(),
            old(self).live(handle),
            old(self).slot_versions()[handle.spec_slot() as int] < usize::MAX,
        ensures
            remove_result(*old(self), *final(self), handle),
    {
        runtime_assert(self.check_handle(&handle));
        let slot = handle.slot;
        let su = slot as usize;
        self.data.set(su, None);
        // The first position whose free slot is not below `slot`.
        let mut lo: usize = 0;
        let mut hi: usize = self.free_slots.len();
        while lo < hi
            invariant
                0 <= lo <= hi <= self.free_slots@.len(),
                self.free_slots@ == old(self).free_list(),
                sorted_slots(self.free_slots@),
                forall|k: int| 0 <= k < lo ==> #[trigger] self.free_slots@[k] < slot,
                forall|k: int| hi <= k < self.free_slots@.len() ==> #[trigger] self.free_slots@[k] >= slot,
            decreases hi - lo,
        {
            let mid = lo + (hi - lo) / 2;
            if self.free_slots[mid] < slot {
                lo = mid + 1;
            } else {
                hi = mid;
            }
        }
        if lo < self.free_slots.len() && self.free_slots[lo] == slot {
            proof {
                let o = old(self);
                assert(o.free_list()[lo as int] == slot);
                assert(o.slots()[slot as int] is None);
            }
            unreached::<()>();
        }
        self.free_slots.insert(lo, slot);
        let v = self.versions[su];
        self.versions.set(su, v + 1);
        proof {
            let o = old(self);
            let f = *self;
            let sl = slot as int;
            assert(f.free_list() == o.free_list().insert(lo as int, slot));
            assert forall|i: int, j: int| 0 <= i < j < f.free_list().len() implies f.free_list()[i]
                < f.free_list()[j] by {
                if j < lo {
                } else if j == lo {
                    if i < lo {
                        assert(o.free_list()[i] < slot);
                    }
                } else if i < lo {
                    assert(f.free_list()[j] == o.free_list()[j - 1]);
                    assert(o.free_list()[i] < slot);
                    assert(o.free_list()[j - 1] >= slot);
                } else if i == lo {
                    assert(f.free_list()[j] == o.free_list()[j - 1]);
                    assert(o.free_list()[j - 1] >= slot);
                    assert(o.free_list()[j - 1] != slot) by {
                        assert(o.slots()[o.free_list()[j - 1] as int] is None);
                    }
                } else {
                    assert(f.free_list()[i] == o.free_list()[i - 1]);
                    assert(f.free_list()[j] == o.free_list()[j - 1]);
                }
            }
            assert forall|k: int| #![trigger f.free_list()[k]] 0 <= k < f.free_list().len()
                implies 1 <= f.free_list()[k] < f.slots().len()
                    && f.slots()[f.free_list()[k] as int] is None by {
                if k < lo {
                    assert(f.free_list()[k] == o.free_list()[k]);
                } else if k > lo {
                    assert(f.free_list()[k] == o.free_list()[k - 1]);
                }
            }
            assert forall|i: int|
                1 <= i < f.slots().len() && #[trigger] f.slots()[i] is None implies slot_free(
                    f.free_list(),
                    i,
                ) by {
                if i == sl {
                    assert(f.free_list()[lo as int] == slot);
                } else {
                    assert(o.slots()[i] is None);
                    let q = choose|q: int| 0 <= q < o.free_list().len() && o.free_list()[q] == i;
                    if q < lo {
                        assert(f.free_list()[q] == o.free_list()[q]);
                    } else {
                        assert(f.free_list()[q + 1] == o.free_list()[q]);
                    }
                }
            }
        }
    }

    /// The capacity of the slot vector, as with `Vec`.
    pub fn capacity(&self) -> (c: usize)
        ensures
            c >= self.slots().len(),
    {
        vec_capacity(&self.data)
    }

    /// How many values the slab holds: the slots past slot 0 that are not
    /// free.
    pub fn used_count(&self) -> (n: usize)
        requires
            self.wf(),
        ensures
            n == live_values(self.slots()).len(),
            n == self.slots().len() - self.free_list().len() - 1,
    {
        proof {
            lemma_free_list_fits(self.free_list(), self.slots().len() as int);
            self.lemma_value_count();
        }
        self.data.len() - self.free_slots.len() - 1
    }

    /// How many values fit before a slot vector of capacity `cap` must grow:
    /// the room left in the capacity plus the free slots.
    pub open spec fn spec_available(&self, cap: int) -> int {
        cap - self.slots().len() + self.free_list().len()
    }

    /// How many values can be inserted before a slot vector of capacity `cap`
    /// must grow: the room left in the capacity plus the free slots.
    pub fn available_from_capacity(&self, cap: usize) -> (n: usize)
        requires
            self.wf(),
            cap >= self.slots().len(),
        ensures
            n == self.spec_available(cap as int),
    {
        proof {
            lemma_free_list_fits(self.free_list(), self.slots().len() as int);
        }
        cap - self.data.len() + self.free_slots.len()
    }

    /// How many values can be inserted before the slot vector must grow: the
    /// free slots plus the room left in the vector's capacity, whatever
    /// capacity the allocator gave.
    pub fn available_slots(&self) -> (n: usize)
        requires
            self.wf(),
        ensures
            exists|c: usize| c >= self.slots().len() && n == #[trigger] self.spec_available(c as int),
    {
        let cap = vec_capacity(&self.data);
        let n = self.available_from_capacity(cap);
        assert(cap >= self.slots().len() && n == self.spec_available(cap as int));
        n
    }

    /// Below slot `i` the free list holds exactly its first `p` entries, and
    /// the slab `i - 1 - p` values.
    proof fn lemma_free_below(self, i: int) -> (p: int)
        requires
            self.wf(),
            1 <= i <= self.slots().len(),
        ensures
            0 <= p <= self.free_list().len(),
            forall|k: int| 0 <= k < p ==> #[trigger] self.free_list()[k] < i,
            forall|k: int| p <= k < self.free_list().len() ==> #[trigger] self.free_list()[k] >= i,
            live_rank(self.slots(), i) == i - 1 - p,
        decreases i,
    {
        let sl = self.slots();
        let free = self.free_list();
        if i == 1 {
            lemma_live_values_step(sl, 0);
            assert(sl.take(0) =~= Seq::<Option<T>>::empty());
            0
        } else {
            let p = self.lemma_free_below(i - 1);
            lemma_live_values_step(sl, i - 1);
            if sl[i - 1] is None {
                let q = choose|q: int| 0 <= q < free.len() && free[q] == i - 1;
                if q > p {
                    assert(free[p] < free[q]);
                }
                assert forall|k: int| p + 1 <= k < free.len() implies #[trigger] free[k] >= i by {
                    assert(free[p] < free[k]);
                }
                p + 1
            } else {
                assert forall|k: int| p <= k < free.len() implies #[trigger] free[k] >= i by {
                    assert(sl[free[k] as int] is None);
                }
                p
            }
        }
    }

    /// The values of the slab number its slots less its free slots and slot 0.
    proof fn lemma_value_count(self)
        requires
            self.wf(),
        ensures
            live_values(self.slots()).len() == self.slots().len() - self.free_list().len() - 1,
    {
        let len = self.slots().len() as int;
        let p = self.lemma_free_below(len);
        if p < self.free_list().len() {
            assert(self.free_list()[p] < len);
        }
        assert(self.slots().take(len) =~= self.slots());
    }

    /// No value lies outside the ranges of a cover.
    proof fn lemma_outside_ranges_empty(self, rg: Seq<(usize, usize)>, t: int, lo: int, hi: int)
        requires
            self.wf(),
            ranges_cover(rg, self.free_list(), self.slots().len() as int),
            0 <= t <= rg.len(),
            t > 0 ==> lo >= rg[t - 1].1,
            t == 0 ==> lo >= 0,
            t < rg.len() ==> hi <= rg[t].0,
            hi <= self.slots().len(),
        ensures
            forall|j: int| lo <= j < hi ==> #[trigger] self.slots()[j] is None,
    {
        let free = self.free_list();
        let len = self.slots().len() as int;
        assert forall|j: int| lo <= j < hi implies #[trigger] self.slots()[j] is None by {
            if j >= 1 && self.slots()[j] is Some {
                if slot_free(free, j) {
                    let q = choose|q: int| 0 <= q < free.len() && free[q] == j;
                    assert(self.slots()[free[q] as int] is None);
                }
                assert(covered(free, len, j));
                let r = choose|r: int| #![trigger rg[r]] 0 <= r < rg.len() && rg[r].0 <= j < rg[r].1;
                if r < t - 1 {
                    assert(rg[r].1 <= rg[t - 1].0);
                } else if r > t {
                    assert(rg[t].1 <= rg[r].0);
                }
            }
        }
    }

    /// The values of the slab in groups, one per maximal run of occupied
    /// slots, in slot order.
    pub fn iter_slices(&self) -> (groups: Vec<Vec<&T>>)
        requires
            self.wf(),
        ensures
            exists|rg: Seq<(usize, usize)>|
                {
                    &&& ranges_cover(rg, self.free_list(), self.slots().len() as int)
                    &&& rg.len() == groups@.len()
                    &&& forall|t: int|
                        #![trigger groups@[t]]
                        0 <= t < rg.len() ==> groups@[t]@.len() == rg[t].1 - rg[t].0 && forall|j: int|
                            0 <= j < groups@[t]@.len() ==> Some(*#[trigger] groups@[t]@[j])
                                == self.slots()[rg[t].0 + j]
                },
            flat(groups@) == live_values(self.slots()),
    {
        let ranges = allocated_ranges(self.free_slots.as_slice(), self.data.len());
        let ghost rg = ranges@;
        let ghost sl = self.slots();
        let ghost len = sl.len() as int;
        let mut groups: Vec<Vec<&T>> = Vec::new();
        let ghost mut pos: int = 1;
        proof {
            lemma_live_values_step(sl, 0);
            assert(sl.take(0) =~= Seq::<Option<T>>::empty());
            assert(groups@ =~= Seq::<Vec<&T>>::empty());
        }
        let mut t: usize = 0;
        while t < ranges.len()
            invariant
                self.wf(),
                sl == self.slots(),
                len == sl.len(),
                rg == ranges@,
                ranges_cover(rg, self.free_list(), len),
                0 <= t <= rg.len(),
                groups@.len() == t,
                t == 0 ==> pos == 1,
                t > 0 ==> pos == rg[t - 1].1,
                1 <= pos <= len,
                forall|g: int|
                    #![trigger groups@[g]]
                    0 <= g < t ==> groups@[g]@.len() == rg[g].1 - rg[g].0 && forall|j: int|
                        0 <= j < groups@[g]@.len() ==> Some(*#[trigger] groups@[g]@[j]) == sl[rg[g].0 + j],
                flat(groups@) == live_values(sl.take(pos)),
            decreases rg.len() - t,
        {
            let (a, b) = ranges[t];
            proof {
                self.lemma_outside_ranges_empty(rg, t as int, pos, a as int);
                lemma_live_values_skip(sl, pos, a as int);
            }
            let mut grp: Vec<&T> = Vec::new();
            let mut i: usize = a;
            while i < b
                invariant
                    self.wf(),
                    sl == self.slots(),
                    len == sl.len(),
                    ranges_cover(rg, self.free_list(), len),
                    0 <= t < rg.len(),
                    rg[t as int] == (a, b),
                    a <= i <= b,
                    grp@.len() == i - a,
                    forall|j: int| 0 <= j < grp@.len() ==> Some(*#[trigger] grp@[j]) == sl[a + j],
                    flat(groups@) + deref_all(grp@) == live_values(sl.take(i as int)),
                decreases b - i,
            {
                proof {
                    assert(!slot_free(self.free_list(), i as int));
                    lemma_live_values_step(sl, i as int);
                }
                match &self.data[i] {
                    Some(v) => {
                        let ghost g0 = grp@;
                        grp.push(v);
                        proof {
                            assert(deref_all(grp@) =~= deref_all(g0).push(*v));
                        }
                    },
                    None => unreached(),
                }
                i = i + 1;
            }
            let ghost g0 = groups@;
            groups.push(grp);
            proof {
                assert(groups@.drop_last() =~= g0);
                assert forall|g: int|
                    #![trigger groups@[g]]
                    0 <= g < t + 1 implies groups@[g]@.len() == rg[g].1 - rg[g].0 && forall|j: int|
                        0 <= j < groups@[g]@.len() ==> Some(*#[trigger] groups@[g]@[j]) == sl[rg[g].0 + j] by {
                    if g < t {
                        assert(groups@[g] == g0[g]);
                    }
                }
                pos = b as int;
            }
            t = t + 1;
        }
        proof {
            self.lemma_outside_ranges_empty(rg, t as int, pos, len);
            lemma_live_values_skip(sl, pos, len);
            assert(sl.take(len) =~= sl);
        }
        groups
    }

    /// The values of the slab, in slot order.
    pub fn iter(&self) -> (r: Vec<&T>)
        requires
            self.wf(),
        ensures
            deref_all(r@) == live_values(self.slots()),
    {
        let groups = self.iter_slices();
        let mut out: Vec<&T> = Vec::new();
        let mut t: usize = 0;
        while t < groups.len()
            invariant
                0 <= t <= groups@.len(),
                deref_all(out@) == flat(groups@.take(t as int)),
            decreases groups@.len() - t,
        {
            let grp = &groups[t];
            let mut j: usize = 0;
            while j < grp.len()
                invariant
                    0 <= t < groups@.len(),
                    *grp == groups@[t as int],
                    0 <= j <= grp@.len(),
                    deref_all(out@) == flat(groups@.take(t as int)) + deref_all(grp@.take(j as int)),
                decreases grp@.len() - j,
            {
                let ghost o0 = out@;
                out.push(grp[j]);
                proof {
                    assert(deref_all(out@) =~= deref_all(o0).push(*grp@[j as int]));
                    assert(deref_all(grp@.take(j + 1)) =~= deref_all(grp@.take(j as int)).push(*grp@[j as int]));
                }
                j = j + 1;
            }
            proof {
                assert(groups@.take(t + 1).drop_last() =~= groups@.take(t as int));
                assert(grp@.take(grp@.len() as int) =~= grp@);
            }
            t = t + 1;
        }
        proof {
            assert(groups@.take(groups@.len() as int) =~= groups@);
        }
        out
    }

    /// Mutable references to the values of the slab, in slot order.
    pub fn iter_mut(&mut self) -> (r: Vec<&mut T>)
        requires
            old(self).wf(),
        ensures
            r@.len() == live_values(old(self).slots()).len(),
            forall|t: int| 0 <= t < r@.len() ==> *#[trigger] r@[t] == live_values(old(self).slots())[t],
            final(self).slots().len() == old(self).slots().len(),
            forall|i: int|
                0 <= i < old(self).slots().len() ==> #[trigger] final(self).slots()[i] == match old(
                    self,
                ).slots()[i] {
                    None => None,
                    Some(_) => Some(*final(r@[live_rank(old(self).slots(), i)])),
                },
            final(self).free_list() == old(self).free_list(),
            final(self).slot_versions() == old(self).slot_versions(),
            final(self).tag() == old(self).tag(),
            final(self).wf(),
    {
        let sl = self.data.as_mut_slice();
        let r = collect_values_mut(sl);
        proof {
            let o = old(self);
            let f = after_borrow(*self);
            assert forall|i: int| 0 <= i < f.slots().len() implies (#[trigger] f.slots()[i] is None)
                == (o.slots()[i] is None) by {
                assert(f.slots()[i] == match o.slots()[i] {
                    None => None,
                    Some(_) => Some(*final(r@[live_rank(o.slots(), i)])),
                });
            }
        }
        r
    }

    /// Mutable references to the values of the slab in groups, one per
    /// maximal run of occupied slots, in slot order.
    pub fn iter_slices_mut(&mut self) -> (groups: Vec<Vec<&mut T>>)
        requires
            old(self).wf(),
        ensures
            exists|rg: Seq<(usize, usize)>|
                {
                    &&& ranges_cover(rg, old(self).free_list(), old(self).slots().len() as int)
                    &&& rg.len() == groups@.len()
                    &&& forall|t: int|
                        #![trigger groups@[t]]
                        0 <= t < rg.len() ==> groups@[t]@.len() == rg[t].1 - rg[t].0 && forall|j: int|
                            0 <= j < groups@[t]@.len() ==> {
                                &&& Some(*#[trigger] groups@[t]@[j]) == old(self).slots()[rg[t].0 + j]
                                &&& final(self).slots()[rg[t].0 + j] == Some(*final(groups@[t]@[j]))
                            }
                },
            final(self).slots().len() == old(self).slots().len(),
            forall|i: int|
                0 <= i < old(self).slots().len() && old(self).slots()[i] is None
                    ==> #[trigger] final(self).slots()[i] is None,
            final(self).free_list() == old(self).free_list(),
            final(self).slot_versions() == old(self).slot_versions(),
            final(self).tag() == old(self).tag(),
            final(self).wf(),
    {
        let ranges = allocated_ranges(self.free_slots.as_slice(), self.data.len());
        let ghost rg = ranges@;
        let ghost o = *self;
        let ghost sl = o.slots();
        let ghost len = sl.len() as int;
        let mut flat = self.iter_mut();
        let ghost flat0 = flat@;
        let mut groups: Vec<Vec<&mut T>> = Vec::new();
        let ghost mut pos: int = 1;
        proof {
            lemma_live_values_step(sl, 0);
            assert(sl.take(0) =~= Seq::<Option<T>>::empty());
            assert(flat@ =~= flat0.subrange(live_rank(sl, pos), flat0.len() as int));
        }
        let mut t: usize = 0;
        while t < ranges.len()
            invariant
                o.wf(),
                sl == o.slots(),
                len == sl.len(),
                rg == ranges@,
                ranges_cover(rg, o.free_list(), len),
                flat0.len() == live_values(sl).len(),
                0 <= t <= rg.len(),
                groups@.len() == t,
                t == 0 ==> pos == 1,
                t > 0 ==> pos == rg[t - 1].1,
                1 <= pos <= len,
                live_rank(sl, pos) <= flat0.len(),
                flat@ == flat0.subrange(live_rank(sl, pos), flat0.len() as int),
                forall|g: int|
                    #![trigger groups@[g]]
                    0 <= g < t ==> groups@[g]@.len() == rg[g].1 - rg[g].0 && forall|j: int|
                        0 <= j < groups@[g]@.len() ==> *#[trigger] groups@[g]@[j] == *flat0[live_rank(
                            sl,
                            rg[g].0 + j,
                        )] && *final(groups@[g]@[j]) == *final(flat0[live_rank(sl, rg[g].0 + j)]),
            decreases rg.len() - t,
        {
            let (a, b) = ranges[t];
            proof {
                o.lemma_outside_ranges_empty(rg, t as int, pos, a as int);
                lemma_live_values_skip(sl, pos, a as int);
            }
            let mut grp: Vec<&mut T> = Vec::new();
            let mut i: usize = a;
            while i < b
                invariant
                    o.wf(),
                    sl == o.slots(),
                    len == sl.len(),
                    ranges_cover(rg, o.free_list(), len),
                    flat0.len() == live_values(sl).len(),
                    0 <= t < rg.len(),
                    rg[t as int] == (a, b),
                    a <= i <= b,
                    live_rank(sl, i as int) <= flat0.len(),
                    flat@ == flat0.subrange(live_rank(sl, i as int), flat0.len() as int),
                    grp@.len() == i - a,
                    forall|j: int|
                        0 <= j < grp@.len() ==> *#[trigger] grp@[j] == *flat0[live_rank(sl, a + j)]
                            && *final(grp@[j]) == *final(flat0[live_rank(sl, a + j)]),
                decreases b - i,
            {
                proof {
                    assert(!slot_free(o.free_list(), i as int));
                    lemma_live_values_step(sl, i as int);
                    lemma_live_rank_bound(sl, i as int);
                }
                let ghost f_old = flat@;
                let ghost g_old = grp@;
                let r = flat.remove(0);
                let ghost rv = *r;
                let ghost rf = *final(r);
                grp.push(r);
                proof {
                    assert(flat@ =~= flat0.subrange(live_rank(sl, i + 1), flat0.len() as int));
                    assert(rv == *f_old[0] && rf == *final(f_old[0]));
                    assert(f_old[0] == flat0[live_rank(sl, i as int)]);
                    assert(*grp@[i - a] == rv && *final(grp@[i - a]) == rf);
                    assert forall|j: int| 0 <= j < grp@.len() implies *#[trigger] grp@[j] == *flat0[live_rank(sl, a + j)]
                        && *final(grp@[j]) == *final(flat0[live_rank(sl, a + j)]) by {
                        if j < i - a {
                            assert(grp@[j] == g_old[j]);
                        }
                    }
                }
                i = i + 1;
            }
            let ghost g0 = groups@;
            groups.push(grp);
            proof {
                assert forall|g: int|
                    #![trigger groups@[g]]
                    0 <= g < t + 1 implies groups@[g]@.len() == rg[g].1 - rg[g].0 && forall|j: int|
                        0 <= j < groups@[g]@.len() ==> *#[trigger] groups@[g]@[j] == *flat0[live_rank(
                            sl,
                            rg[g].0 + j,
                        )] && *final(groups@[g]@[j]) == *final(flat0[live_rank(sl, rg[g].0 + j)]) by {
                    if g < t {
                        assert(groups@[g] == g0[g]);
                    }
                }
                pos = b as int;
            }
            t = t + 1;
        }
        proof {
            assert forall|g: int|
                #![trigger groups@[g]]
                0 <= g < rg.len() implies groups@[g]@.len() == rg[g].1 - rg[g].0 && forall|j: int|
                    0 <= j < groups@[g]@.len() ==> {
                        &&& Some(*#[trigger] groups@[g]@[j]) == sl[rg[g].0 + j]
                        &&& after_borrow(*self).slots()[rg[g].0 + j] == Some(*final(groups@[g]@[j]))
                    } by {
                assert forall|j: int| 0 <= j < groups@[g]@.len() implies {
                    &&& Some(*#[trigger] groups@[g]@[j]) == sl[rg[g].0 + j]
                    &&& after_borrow(*self).slots()[rg[g].0 + j] == Some(*final(groups@[g]@[j]))
                } by {
                    let i = rg[g].0 + j;
                    assert(!slot_free(o.free_list(), i));
                    assert(sl[i] is Some);
                    lemma_live_rank_bound(sl, i);
                    lemma_live_values_step(sl, i);
                    assert(live_values(sl.take(i + 1))[live_rank(sl, i)] == sl[i]->Some_0);
                    lemma_live_values_prefix(sl, i + 1, live_rank(sl, i));
                }
            }
        }
        groups
    }

    /// The free list, in increasing order.
    pub fn free_slots(&self) -> (r: &Vec<u32>)
        ensures
            r@ == self.free_list(),
    {
        &self.free_slots
    }

    /// The version of every slot.
    pub fn versions(&self) -> (r: &Vec<usize>)
        ensures
            r@ == self.slot_versions(),
    {
        &self.versions
    }

    /// The number of slots, slot 0 included.
    pub fn slot_count(&self) -> (n: usize)
        ensures
            n == self.slots().len(),
    {
        self.data.len()
    }

    /// The tag that this slab's handles carry.
    pub fn slab_tag(&self) -> (t: usize)
        ensures
            t == self.tag(),
    {
        self.slab_tag
    }

    /// Get a mutable reference to the value that a handle names.
    pub fn get_mut(&mut self, handle: &SlabHandle<T>) -> (r: &mut T)
        requires
            old(self).wf(),
            old(self).live(*handle),
        ensures
            *r == old(self).value(*handle),
            final(self).slots() == old(self).slots().update(
                handle.spec_slot() as int,
                Some(*final(r)),
            ),
            final(self).free_list() == old(self).free_list(),
            final(self).slot_versions() == old(self).slot_versions(),
            final(self).tag() == old(self).tag(),
    {
        runtime_assert(self.check_handle(handle));
        let slot = handle.slot as usize;
        match self.data[slot].as_mut() {
            Some(v) => v,
            None => unreached(),
        }
    }
}

/// Slot numbers strictly increasing.
pub open spec fn sorted_slots(s: Seq<u32>) -> bool {
    forall|i: int, j: int| 0 <= i < j < s.len() ==> s[i] < s[j]
}

/// Whether slot `i` is in the free list `free`.
pub open spec fn slot_free(free: Seq<u32>, i: int) -> bool {
    exists|k: int| 0 <= k < free.len() && free[k] == i
}

/// Whether slot `i` of a slab of `len` slots with free list `free` holds a
/// value: it is a slot past the unused slot 0 and not free.
pub open spec fn covered(free: Seq<u32>, len: int, i: int) -> bool {
    &&& 1 <= i < len
    &&& !slot_free(free, i)
}

/// Ranges `[start, end)` of slots: nonempty, inside `[1, len)`, in increasing
/// order, holding no free slot, together covering every covered slot, and
/// each bounded on both sides by a free slot or an end of the slab: the
/// maximal runs of covered slots.
pub open spec fn ranges_cover(ranges: Seq<(usize, usize)>, free: Seq<u32>, len: int) -> bool {
    &&& forall|r: int|
        #![trigger ranges[r]]
        0 <= r < ranges.len() ==> 1 <= ranges[r].0 < ranges[r].1 <= len
    &&& forall|r: int, s: int| 0 <= r < s < ranges.len() ==> ranges[r].1 <= ranges[s].0
    &&& forall|r: int, i: int|
        #![trigger ranges[r], slot_free(free, i)]
        0 <= r < ranges.len() && ranges[r].0 <= i < ranges[r].1 ==> !slot_free(free, i)
    &&& forall|i: int| #[trigger] covered(free, len, i) ==> exists|r: int| #![trigger ranges[r]]
        0 <= r < ranges.len() && ranges[r].0 <= i < ranges[r].1
    &&& forall|r: int|
        #![trigger ranges[r]]
        0 <= r < ranges.len() ==> (ranges[r].0 == 1 || slot_free(free, ranges[r].0 - 1)) && (
        ranges[r].1 == len || slot_free(free, ranges[r].1 as int))
}

/// The slots of `ranges`, range after range, each range in increasing order.
pub open spec fn range_slots(ranges: Seq<(usize, usize)>) -> Seq<int>
    decreases ranges.len(),
{
    if ranges.len() == 0 {
        Seq::empty()
    } else {
        let (a, b) = ranges.last();
        range_slots(ranges.drop_last()) + Seq::new((b - a) as nat, |i: int| a + i)
    }
}

/// Nonempty ranges in increasing order: their slots come in increasing
/// order, below the end of the last range, and a slot is among them exactly
/// when one of the ranges holds it.
proof fn lemma_range_slots(ranges: Seq<(usize, usize)>)
    requires
        forall|r: int| #![trigger ranges[r]] 0 <= r < ranges.len() ==> ranges[r].0 < ranges[r].1,
        forall|r: int, s: int| 0 <= r < s < ranges.len() ==> ranges[r].1 <= ranges[s].0,
    ensures
        forall|i: int, j: int|
            0 <= i < j < range_slots(ranges).len() ==> range_slots(ranges)[i] < range_slots(ranges)[j],
        ranges.len() > 0 ==> forall|i: int|
            0 <= i < range_slots(ranges).len() ==> range_slots(ranges)[i] < ranges.last().1,
        forall|x: int| range_slots(ranges).contains(x) <==> exists|r: int| #![trigger ranges[r]]
            0 <= r < ranges.len() && ranges[r].0 <= x < ranges[r].1,
    decreases ranges.len(),
{
    if ranges.len() > 0 {
        let pre = ranges.drop_last();
        lemma_range_slots(pre);
        let (a, b) = ranges.last();
        let sp = range_slots(pre);
        let t = Seq::new((b - a) as nat, |i: int| a + i);
        let all = range_slots(ranges);
        assert(all == sp + t);
        assert forall|i: int| 0 <= i < sp.len() implies sp[i] < a by {
            if pre.len() > 0 {
                assert(pre.last() == ranges[pre.len() - 1]);
                assert(ranges[pre.len() - 1].1 <= ranges[ranges.len() - 1].0);
            }
        }
        assert forall|x: int| all.contains(x) <==> exists|r: int| #![trigger ranges[r]]
            0 <= r < ranges.len() && ranges[r].0 <= x < ranges[r].1 by {
            if all.contains(x) {
                let i = choose|i: int| 0 <= i < all.len() && all[i] == x;
                if i < sp.len() {
                    assert(sp.contains(x));
                    let r = choose|r: int| #![trigger pre[r]] 0 <= r < pre.len() && pre[r].0 <= x < pre[r].1;
                    assert(ranges[r] == pre[r]);
                } else {
                    assert(ranges[ranges.len() - 1].0 <= x < ranges[ranges.len() - 1].1);
                }
            }
            if exists|r: int| #![trigger ranges[r]] 0 <= r < ranges.len() && ranges[r].0 <= x < ranges[r].1 {
                let r = choose|r: int| #![trigger ranges[r]] 0 <= r < ranges.len() && ranges[r].0 <= x < ranges[r].1;
                if r < ranges.len() - 1 {
                    assert(pre[r] == ranges[r]);
                    assert(sp.contains(x));
                    let i = choose|i: int| 0 <= i < sp.len() && sp[i] == x;
                    assert(all[i] == x);
                } else {
                    assert(all[sp.len() + (x - a)] == x);
                }
            }
        }
    }
}

/// The slots below `n` that hold values in a slab of `len` slots with free
/// list `free`, in increasing order: `[i for i in 1..n if i is not free]`.
pub open spec fn used_slots(free: Seq<u32>, len: int, n: int) -> Seq<int>
    decreases n,
{
    if n <= 1 {
        Seq::empty()
    } else if covered(free, len, n - 1) {
        used_slots(free, len, n - 1).push(n - 1)
    } else {
        used_slots(free, len, n - 1)
    }
}

/// The used slots below `n` increase, and are exactly the covered slots below `n`.
proof fn lemma_used_slots(free: Seq<u32>, len: int, n: int)
    ensures
        forall|i: int, j: int|
            0 <= i < j < used_slots(free, len, n).len() ==> used_slots(free, len, n)[i] < used_slots(
                free,
                len,
                n,
            )[j],
        forall|i: int| 0 <= i < used_slots(free, len, n).len() ==> used_slots(free, len, n)[i] < n,
        forall|x: int| used_slots(free, len, n).contains(x) <==> (x < n && covered(free, len, x)),
    decreases n,
{
    if n > 1 {
        lemma_used_slots(free, len, n - 1);
        let u = used_slots(free, len, n - 1);
        if covered(free, len, n - 1) {
            assert forall|x: int| used_slots(free, len, n).contains(x) <==> (x < n && covered(free, len, x)) by {
                if u.contains(x) {
                    let i = choose|i: int| 0 <= i < u.len() && u[i] == x;
                    assert(u.push(n - 1)[i] == x);
                }
                if x == n - 1 {
                    assert(u.push(n - 1)[u.len() as int] == x);
                }
                let w = u.push(n - 1);
                assert(used_slots(free, len, n) == w);
                if w.contains(x) && x != n - 1 {
                    let i = choose|i: int| 0 <= i < w.len() && w[i] == x;
                    assert(u[i] == x);
                }
            }
        }
    }
}

/// Two strictly increasing sequences of integers with the same elements are equal.
proof fn lemma_increasing_same_elements(a: Seq<int>, b: Seq<int>)
    requires
        forall|i: int, j: int| 0 <= i < j < a.len() ==> a[i] < a[j],
        forall|i: int, j: int| 0 <= i < j < b.len() ==> b[i] < b[j],
        forall|x: int| a.contains(x) <==> b.contains(x),
    ensures
        a == b,
    decreases a.len() + b.len(),
{
    if a.len() == 0 {
        if b.len() > 0 {
            assert(b.contains(b[0]));
        }
        assert(a =~= b);
    } else if b.len() == 0 {
        assert(a.contains(a[0]));
    } else {
        let x = a.last();
        let y = b.last();
        assert(a.contains(x));
        assert(b.contains(y));
        let j = choose|j: int| 0 <= j < b.len() && b[j] == x;
        let i = choose|i: int| 0 <= i < a.len() && a[i] == y;
        assert(x == y);
        let a2 = a.drop_last();
        let b2 = b.drop_last();
        assert forall|k: int| a2.contains(k) <==> b2.contains(k) by {
            if a2.contains(k) {
                let p = choose|p: int| 0 <= p < a2.len() && a2[p] == k;
                assert(a[p] == k);
                assert(a.contains(k));
                let q = choose|q: int| 0 <= q < b.len() && b[q] == k;
                assert(q != b.len() - 1);
                assert(b2[q] == k);
            }
            if b2.contains(k) {
                let q = choose|q: int| 0 <= q < b2.len() && b2[q] == k;
                assert(b[q] == k);
                assert(b.contains(k));
                let p = choose|p: int| 0 <= p < a.len() && a[p] == k;
                assert(p != a.len() - 1);
                assert(a2[p] == k);
            }
        }
        lemma_increasing_same_elements(a2, b2);
        assert(a =~= a2.push(x));
        assert(b =~= b2.push(y));
    }
}

/// The ranges that `ranges_cover` describes list every slot that holds a
/// value, once each and in increasing order: taken one after another they are
/// exactly the slots past 0 and below `len` that are not free.
pub proof fn law_ranges_list_used_slots(ranges: Seq<(usize, usize)>, free: Seq<u32>, len: int)
    requires
        ranges_cover(ranges, free, len),
    ensures
        range_slots(ranges) == used_slots(free, len, len),
        forall|i: int, j: int|
            0 <= i < j < range_slots(ranges).len() ==> range_slots(ranges)[i] < range_slots(ranges)[j],
        forall|x: int| range_slots(ranges).contains(x) <==> covered(free, len, x),
{
    lemma_range_slots(ranges);
    assert forall|x: int| range_slots(ranges).contains(x) <==> covered(free, len, x) by {
        if range_slots(ranges).contains(x) {
            let r = choose|r: int| #![trigger ranges[r]] 0 <= r < ranges.len() && ranges[r].0 <= x < ranges[r].1;
            assert(!slot_free(free, x));
        }
    }
    lemma_used_slots(free, len, len);
    lemma_increasing_same_elements(range_slots(ranges), used_slots(free, len, len));
}

/// The ranges of slots that hold values, computed from the sorted free list.
fn allocated_ranges(freelist: &[u32], slab_len: usize) -> (r: Vec<(usize, usize)>)
    requires
        sorted_slots(freelist@),
        slab_len >= 1,
        forall|k: int| 0 <= k < freelist@.len() ==> 1 <= #[trigger] freelist@[k] < slab_len,
    ensures
        ranges_cover(r@, freelist@, slab_len as int),
        range_slots(r@) == used_slots(freelist@, slab_len as int, slab_len as int),
{
    let mut out: Vec<(usize, usize)> = Vec::new();
    // `last` is 0 or the free slot just before the next range.
    let mut last: u32 = 0;
    let n = freelist.len();
    let mut k: usize = 0;
    while k < n
        invariant
            sorted_slots(freelist@),
            n == freelist@.len(),
            slab_len >= 1,
            forall|q: int| 0 <= q < freelist@.len() ==> 1 <= #[trigger] freelist@[q] < slab_len,
            0 <= k <= n,
            k == 0 ==> last == 0,
            k > 0 ==> last == freelist@[k - 1],
            forall|r: int| #![trigger out@[r]] 0 <= r < out@.len() ==> 1 <= out@[r].0 < out@[r].1 <= last,
            forall|r: int|
                #![trigger out@[r]]
                0 <= r < out@.len() ==> (out@[r].0 == 1 || slot_free(freelist@, out@[r].0 - 1))
                    && slot_free(freelist@, out@[r].1 as int),
            forall|r: int, s: int| 0 <= r < s < out@.len() ==> out@[r].1 <= out@[s].0,
            forall|r: int, i: int|
                #![trigger out@[r], slot_free(freelist@, i)]
                0 <= r < out@.len() && out@[r].0 <= i < out@[r].1 ==> !slot_free(freelist@, i),
            forall|i: int|
                1 <= i < last && !#[trigger] slot_free(freelist@, i) ==> exists|r: int| #![trigger out@[r]]
                    0 <= r < out@.len() && out@[r].0 <= i < out@[r].1,
        decreases n - k,
    {
        let end = freelist[k];
        let start = (last + 1) as usize;
        proof {
            if k > 0 {
                assert(freelist@[k - 1] < freelist@[k as int]);
            }
        }
        let ghost before = out@;
        if start != end as usize {
            out.push((start, end as usize));
            proof {
                assert(out@[before.len() as int] == (start, end as usize));
                assert forall|r: int, i: int|
                    #![trigger out@[r], slot_free(freelist@, i)]
                    0 <= r < out@.len() && out@[r].0 <= i < out@[r].1 implies !slot_free(freelist@, i) by {
                    if r == before.len() {
                        if slot_free(freelist@, i) {
                            let q = choose|q: int| 0 <= q < freelist@.len() && freelist@[q] == i;
                            if q < k - 1 {
                                assert(freelist@[q] < freelist@[k - 1]);
                            } else if q > k {
                                assert(freelist@[k as int] < freelist@[q]);
                            }
                        }
                    } else {
                        assert(out@[r] == before[r]);
                    }
                }
            }
        }
        proof {
            assert forall|i: int|
                1 <= i < end && !#[trigger] slot_free(freelist@, i) implies exists|r: int| #![trigger out@[r]]
                    0 <= r < out@.len() && out@[r].0 <= i < out@[r].1 by {
                if i < last {
                    let r = choose|r: int| #![trigger before[r]] 0 <= r < before.len() && before[r].0 <= i < before[r].1;
                    assert(out@[r] == before[r]);
                } else if i == last {
                    assert(freelist@[k - 1] == i);
                } else {
                    assert(out@[before.len() as int] == (start, end as usize));
                }
            }
            assert forall|r: int| #![trigger out@[r]] 0 <= r < out@.len() implies 1 <= out@[r].0 < out@[r].1 <= end
                && (out@[r].0 == 1 || slot_free(freelist@, out@[r].0 - 1))
                && slot_free(freelist@, out@[r].1 as int) by {
                if r < before.len() {
                    assert(out@[r] == before[r]);
                } else {
                    assert(freelist@[k as int] == end);
                    if k > 0 {
                        assert(freelist@[k - 1] == last);
                    }
                }
            }
            assert forall|r: int, s: int| 0 <= r < s < out@.len() implies out@[r].1 <= out@[s].0 by {
                assert(out@[r] == before[r]);
                if s == before.len() {
                    assert(before[r].1 <= last);
                } else {
                    assert(out@[s] == before[s]);
                }
            }
        }
        last = end;
        k = k + 1;
    }
    let ghost before = out@;
    if n > 0 {
        let x = freelist[n - 1];
        if (x as usize) + 1 < slab_len {
            out.push(((x as usize) + 1, slab_len));
        }
    } else if slab_len > 1 {
        out.push((1, slab_len));
    }
    proof {
        assert forall|r: int, i: int|
            #![trigger out@[r], slot_free(freelist@, i)]
            0 <= r < out@.len() && out@[r].0 <= i < out@[r].1 implies !slot_free(freelist@, i) by {
            if r == before.len() {
                if slot_free(freelist@, i) {
                    let q = choose|q: int| 0 <= q < freelist@.len() && freelist@[q] == i;
                    if q < n - 1 {
                        assert(freelist@[q] < freelist@[n - 1]);
                    }
                }
            } else {
                assert(out@[r] == before[r]);
            }
        }
        assert forall|i: int| #[trigger] covered(freelist@, slab_len as int, i) implies exists|r: int| #![trigger out@[r]]
            0 <= r < out@.len() && out@[r].0 <= i < out@[r].1 by {
            if i < last {
                let r = choose|r: int| #![trigger before[r]] 0 <= r < before.len() && before[r].0 <= i < before[r].1;
                assert(out@[r] == before[r]);
            } else if i == last {
                assert(freelist@[n - 1] == i);
            } else {
                assert(out@[before.len() as int].0 <= i);
            }
        }
        assert forall|r: int| #![trigger out@[r]] 0 <= r < out@.len() implies 1 <= out@[r].0 < out@[r].1 <= slab_len
            && (out@[r].0 == 1 || slot_free(freelist@, out@[r].0 - 1))
            && (out@[r].1 == slab_len || slot_free(freelist@, out@[r].1 as int)) by {
            if r < before.len() {
                assert(out@[r] == before[r]);
            } else if n > 0 {
                assert(freelist@[n - 1] == last);
            }
        }
        assert forall|r: int, s: int| 0 <= r < s < out@.len() implies out@[r].1 <= out@[s].0 by {
            assert(out@[r] == before[r]);
            if s == before.len() {
                assert(before[r].1 <= last);
            } else {
                assert(out@[s] == before[s]);
            }
        }
    }
    proof {
        law_ranges_list_used_slots(out@, freelist@, slab_len as int);
    }
    out
}

/// A value put into a slab is read back through the handle that `insert`
/// returns, and every handle that was live before stays live and names the
/// same value.
pub proof fn law_insert_keeps_handles<T>(
    s0: Slab<T>,
    s1: Slab<T>,
    h: SlabHandle<T>,
    value: T,
    g: SlabHandle<T>,
)
    requires
        s0.wf(),
        insert_result(s0, s1, h, value),
    ensures
        s1.live(h),
        s1.value(h) == value,
        s0.live(g) ==> s1.live(g) && s1.value(g) == s0.value(g) && g.spec_slot() != h.spec_slot(),
{
    if s0.live(g) && s0.free_list().len() > 0 {
        let n = s0.free_list().len() - 1;
        assert(s0.slots()[s0.free_list()[n] as int] is None);
    }
}

/// Removing the value of `h` ends exactly the handles of that slot: every
/// other handle keeps its liveness and its value.
pub proof fn law_remove_ends_handle<T>(s0: Slab<T>, s1: Slab<T>, h: SlabHandle<T>, g: SlabHandle<T>)
    requires
        s0.wf(),
        s0.live(h),
        remove_result(s0, s1, h),
    ensures
        !s1.live(h),
        s1.live(g) <==> s0.live(g) && g.spec_slot() != h.spec_slot(),
        s1.live(g) ==> s1.value(g) == s0.value(g),
{
}

/// The number of values a slab reports is the number of values it yields.
pub proof fn law_used_count_matches_values<T>(s: Slab<T>)
    requires
        s.wf(),
    ensures
        live_values(s.slots()).len() == s.slots().len() - s.free_list().len() - 1,
{
    s.lemma_value_count();
}

} // verus!
