//! Component stores.
//!
//! A [Store] keeps its objects in three parallel vectors (ids, values and
//! metadata) sorted by id, with dead slots ("tombstones") left in place until
//! the next compaction.  Inserts that would land in the middle of the vectors
//! are parked in a sorted list of pending inserts until
//! [Store::commit_pending_inserts] merges them in.
use vstd::prelude::*;

use crate::ecs::object_id::{lemma_oid_order, oid_lt, ObjectId};

verus! {

/// The liveness and metadata of one slot.
#[derive(Debug, Clone, PartialEq, Eq, PartialOrd, Ord, Hash)]
pub enum Meta<M> {
    Alive(M),
    Dead,
}

impl<M> Meta<M> {
    pub fn is_alive(&self) -> (b: bool)
        ensures
            b == (*self is Alive),
    {
        match self {
            Meta::Alive(_) => true,
            Meta::Dead => false,
        }
    }

    pub fn is_dead(&self) -> (b: bool)
        ensures
            b == (*self is Dead),
    {
        !self.is_alive()
    }

    pub fn get_alive_meta(&self) -> (r: Option<&M>)
        ensures
            match *self {
                Meta::Alive(m) => r == Some(&m),
                Meta::Dead => r is None,
            },
    {
        match self {
            Meta::Alive(m) => Some(m),
            Meta::Dead => None,
        }
    }
}

/// A metadata slot that holds a clone of `cur`.
pub open spec fn fresh_meta<M: Clone>(m: Meta<M>, cur: M) -> bool {
    m matches Meta::Alive(x) && cloned::<M>(cur, x)
}

/// An insert waiting to be merged into the sorted vectors.
struct PendingInsertRecord<T, M> {
    value: T,
    meta: Meta<M>,
}

/// A store of objects of type `T`, each with metadata of type `M`.
///
/// The pending inserts are kept as two parallel vectors sorted by id.
pub struct Store<T, M> {
    keys: Vec<ObjectId>,
    values: Vec<T>,
    meta: Vec<Meta<M>>,
    pending_ids: Vec<ObjectId>,
    pending_records: Vec<PendingInsertRecord<T, M>>,
    current_meta: M,
}

/// The map from id to (value, metadata) held by parallel pending vectors.
spec fn pending_map<T, M>(ids: Seq<ObjectId>, recs: Seq<PendingInsertRecord<T, M>>) -> Map<
    ObjectId,
    (T, Meta<M>),
>
    decreases ids.len(),
{
    if ids.len() == 0 || recs.len() == 0 {
        Map::empty()
    } else {
        pending_map(ids.drop_last(), recs.drop_last()).insert(
            ids.last(),
            (recs.last().value, recs.last().meta),
        )
    }
}

/// The pending map holds exactly the ids of the vector, each with its record.
proof fn lemma_pending_map<T, M>(ids: Seq<ObjectId>, recs: Seq<PendingInsertRecord<T, M>>)
    requires
        sorted_ids(ids),
        ids.len() == recs.len(),
    ensures
        forall|k: ObjectId|
            #![trigger pending_map(ids, recs).contains_key(k)]
            pending_map(ids, recs).contains_key(k) <==> exists|j: int|
                0 <= j < ids.len() && ids[j] == k,
        forall|j: int|
            #![trigger ids[j]]
            0 <= j < ids.len() ==> pending_map(ids, recs).contains_key(ids[j]) && pending_map(
                ids,
                recs,
            )[ids[j]] == (recs[j].value, recs[j].meta),
        pending_map(ids, recs).dom().finite(),
    decreases ids.len(),
{
    if ids.len() > 0 {
        let ids0 = ids.drop_last();
        let recs0 = recs.drop_last();
        lemma_pending_map(ids0, recs0);
        let m = pending_map(ids, recs);
        assert forall|k: ObjectId| #![trigger m.contains_key(k)] m.contains_key(k) <==> exists|j: int|
            0 <= j < ids.len() && ids[j] == k by {
            if m.contains_key(k) && k != ids.last() {
                let j = choose|j: int| 0 <= j < ids0.len() && ids0[j] == k;
                assert(ids[j] == k);
            }
            if exists|j: int| 0 <= j < ids.len() && ids[j] == k {
                let j = choose|j: int| 0 <= j < ids.len() && ids[j] == k;
                if j < ids.len() - 1 {
                    assert(ids0[j] == k);
                }
            }
        }
        assert forall|j: int| #![trigger ids[j]] 0 <= j < ids.len() implies m.contains_key(ids[j])
            && m[ids[j]] == (recs[j].value, recs[j].meta) by {
            if j < ids.len() - 1 {
                assert(ids0[j] == ids[j]);
                assert(recs0[j] == recs[j]);
                assert(oid_lt(ids[j], ids.last()));
                lemma_oid_order(ids[j], ids.last(), ids.last());
            }
        }
    }
}

/// The outcome of looking an id up in a store: found at an index, to be
/// inserted before an index, a dead slot that may be reused, or waiting in the
/// pending inserts.
#[derive(Debug, Copy, Clone, PartialEq, Eq)]
pub enum SearchResult {
    Found(usize),
    InsertBefore(usize),
    TombstoneAvailable(usize),
    Pending,
}

/// Ids strictly increasing.
pub open spec fn sorted_ids(s: Seq<ObjectId>) -> bool {
    forall|i: int, j: int| 0 <= i < j < s.len() ==> oid_lt(s[i], s[j])
}

/// The number of ids of a sorted sequence that come before `id`.
pub open spec fn insertion_point(s: Seq<ObjectId>, id: ObjectId) -> int
    decreases s.len(),
{
    if s.len() == 0 {
        0
    } else if oid_lt(s.last(), id) {
        s.len() as int
    } else {
        insertion_point(s.drop_last(), id)
    }
}

/// In a sorted sequence, the insertion point splits the ids before `id` from
/// the others, and it is the only index that does so.
pub proof fn lemma_insertion_point(s: Seq<ObjectId>, id: ObjectId)
    requires
        sorted_ids(s),
    ensures
        0 <= insertion_point(s, id) <= s.len(),
        forall|j: int| 0 <= j < insertion_point(s, id) ==> oid_lt(#[trigger] s[j], id),
        forall|j: int| insertion_point(s, id) <= j < s.len() ==> !oid_lt(#[trigger] s[j], id),
    decreases s.len(),
{
    if s.len() > 0 {
        lemma_insertion_point(s.drop_last(), id);
        if oid_lt(s.last(), id) {
            assert forall|j: int| 0 <= j < s.len() implies oid_lt(#[trigger] s[j], id) by {
                if j < s.len() - 1 {
                    lemma_oid_order(s[j], s.last(), id);
                }
            }
        } else {
            assert forall|j: int| insertion_point(s, id) <= j < s.len() implies !oid_lt(
                #[trigger] s[j],
                id,
            ) by {
                if j < s.len() - 1 {
                    assert(s[j] == s.drop_last()[j]);
                }
            }
            assert forall|j: int| 0 <= j < insertion_point(s, id) implies oid_lt(#[trigger] s[j], id) by {
                assert(s[j] == s.drop_last()[j]);
            }
        }
    }
}

/// Any split point of a sorted sequence around `id` is its insertion point.
pub proof fn lemma_insertion_point_unique(s: Seq<ObjectId>, id: ObjectId, p: int)
    requires
        sorted_ids(s),
        0 <= p <= s.len(),
        forall|j: int| 0 <= j < p ==> oid_lt(#[trigger] s[j], id),
        forall|j: int| p <= j < s.len() ==> !oid_lt(#[trigger] s[j], id),
    ensures
        p == insertion_point(s, id),
{
    lemma_insertion_point(s, id);
    let q = insertion_point(s, id);
    if p < q {
        assert(oid_lt(s[p], id));
    } else if q < p {
        assert(oid_lt(s[q], id));
    }
}

/// An id occurs in a sorted sequence only at its insertion point.
pub proof fn lemma_found_at_insertion_point(s: Seq<ObjectId>, id: ObjectId, j: int)
    requires
        sorted_ids(s),
        0 <= j < s.len(),
        s[j] == id,
    ensures
        j == insertion_point(s, id),
{
    lemma_insertion_point(s, id);
    lemma_oid_order(id, id, id);
    let p = insertion_point(s, id);
    if j < p {
        assert(oid_lt(s[j], id));
    } else if p < j {
        assert(!oid_lt(s[p], id));
        assert(oid_lt(s[p], s[j]));
        lemma_oid_order(s[p], id, id);
    }
}

/// Whether `id` has a live slot among sorted `keys` with metadata `meta`.
pub open spec fn live_at<M>(keys: Seq<ObjectId>, meta: Seq<Meta<M>>, id: ObjectId) -> bool {
    let p = insertion_point(keys, id);
    p < keys.len() && keys[p] == id && meta[p] is Alive
}


/// Whether a pending record for `k` is live and among the first `n` pending ids.
spec fn merged<T, M>(o: Store<T, M>, pids: Seq<ObjectId>, n: int, k: ObjectId) -> bool {
    o.pending_alive(k) && insertion_point(pids, k) < n
}

/// What the index portion holds while the first `n` pending records are merged
/// into the compacted index of `o`.
spec fn merge_inv<T, M: Clone>(
    keys: Seq<ObjectId>,
    values: Seq<T>,
    meta: Seq<Meta<M>>,
    n: int,
    o: Store<T, M>,
    pids: Seq<ObjectId>,
) -> bool {
    &&& keys.len() == values.len()
    &&& keys.len() == meta.len()
    &&& sorted_ids(keys)
    &&& forall|q: int| 0 <= q < meta.len() ==> #[trigger] meta[q] is Alive
    &&& forall|k: ObjectId| #[trigger] live_at(keys, meta, k) == (o.live_in_index(k) || merged(o, pids, n, k))
    &&& forall|q: int| 0 <= q < keys.len() ==> #[trigger] merge_slot_ok(keys, values, meta, n, o, pids, q)
}

/// The content of slot `q` while merging: a merged record's value and
/// metadata, or the slot that the id had in `o`.
spec fn merge_slot_ok<T, M: Clone>(
    keys: Seq<ObjectId>,
    values: Seq<T>,
    meta: Seq<Meta<M>>,
    n: int,
    o: Store<T, M>,
    pids: Seq<ObjectId>,
    q: int,
) -> bool {
    let k = keys[q];
    if merged(o, pids, n, k) {
        &&& values[q] == o.pending()[k].0
        &&& meta[q] == o.pending()[k].1
    } else {
        let op = insertion_point(o.spec_keys(), k);
        &&& o.live_in_index(k)
        &&& values[q] == o.spec_values()[op]
        &&& meta[q] == o.spec_meta()[op]
    }
}

/// A live pending id sits at its insertion point among the pending ids.
proof fn lemma_pending_position<T, M>(o: Store<T, M>, pids: Seq<ObjectId>, k: ObjectId)
    requires
        o.wf(),
        pids == o.pending_ids@,
        o.pending().contains_key(k),
    ensures
        insertion_point(pids, k) < pids.len(),
        pids[insertion_point(pids, k)] == k,
{
    lemma_pending_map(o.pending_ids@, o.pending_records@);
    let j = choose|j: int| 0 <= j < pids.len() && pids[j] == k;
    lemma_found_at_insertion_point(pids, k, j);
}

/// A merged id comes before every pending id not yet merged.
proof fn lemma_merged_before<T, M>(o: Store<T, M>, pids: Seq<ObjectId>, n: int, k: ObjectId, j: int)
    requires
        o.wf(),
        pids == o.pending_ids@,
        merged(o, pids, n, k),
        n <= j < pids.len(),
    ensures
        oid_lt(k, pids[j]),
{
    lemma_pending_position(o, pids, k);
    lemma_insertion_point(pids, k);
    assert(oid_lt(pids[insertion_point(pids, k)], pids[j]));
}

/// Merging one more pending id changes whether that id, and only it, is merged.
proof fn lemma_merged_step<T, M>(o: Store<T, M>, pids: Seq<ObjectId>, n: int, x: ObjectId)
    requires
        o.wf(),
        pids == o.pending_ids@,
        0 <= n < pids.len(),
    ensures
        x != pids[n] ==> merged(o, pids, n + 1, x) == merged(o, pids, n, x),
        x == pids[n] ==> merged(o, pids, n + 1, x) == o.pending_alive(x),
        x == pids[n] ==> !merged(o, pids, n, x),
{
    lemma_insertion_point(pids, x);
    if o.pending_alive(x) {
        lemma_pending_position(o, pids, x);
    }
    if x == pids[n] {
        lemma_found_at_insertion_point(pids, x, n);
    }
}

/// The compacted index is where merging starts.
proof fn lemma_merge_start<T, M: Clone>(
    keys: Seq<ObjectId>,
    values: Seq<T>,
    meta: Seq<Meta<M>>,
    o: Store<T, M>,
    pids: Seq<ObjectId>,
)
    requires
        o.wf(),
        pids == o.pending_ids@,
        keys.len() == values.len(),
        keys.len() == meta.len(),
        sorted_ids(keys),
        forall|q: int| 0 <= q < meta.len() ==> #[trigger] meta[q] is Alive,
        forall|k: ObjectId| #[trigger] live_at(keys, meta, k) == o.live_in_index(k),
        forall|k: ObjectId| #[trigger] live_at(keys, meta, k) ==> {
            let fp = insertion_point(keys, k);
            let op = insertion_point(o.spec_keys(), k);
            &&& values[fp] == o.spec_values()[op]
            &&& meta[fp] == o.spec_meta()[op]
        },
    ensures
        merge_inv(keys, values, meta, 0, o, pids),
{
    assert forall|k: ObjectId| #[trigger] live_at(keys, meta, k) == (o.live_in_index(k) || merged(o, pids, 0, k)) by {
        lemma_insertion_point(pids, k);
    }
    assert forall|q: int| 0 <= q < keys.len() implies #[trigger] merge_slot_ok(keys, values, meta, 0, o, pids, q) by {
        lemma_live_at_occurs(keys, meta, q);
        lemma_insertion_point(pids, keys[q]);
        assert(live_at(keys, meta, keys[q]));
    }
}

/// A dead pending record is skipped.
proof fn lemma_merge_skip<T, M: Clone>(
    keys: Seq<ObjectId>,
    values: Seq<T>,
    meta: Seq<Meta<M>>,
    n: int,
    o: Store<T, M>,
    pids: Seq<ObjectId>,
)
    requires
        o.wf(),
        pids == o.pending_ids@,
        0 <= n < pids.len(),
        !o.pending_alive(pids[n]),
        merge_inv(keys, values, meta, n, o, pids),
    ensures
        merge_inv(keys, values, meta, n + 1, o, pids),
{
    assert forall|k: ObjectId| #[trigger] live_at(keys, meta, k) == (o.live_in_index(k) || merged(o, pids, n + 1, k)) by {
        lemma_merged_step(o, pids, n, k);
    }
    assert forall|q: int| 0 <= q < keys.len() implies #[trigger] merge_slot_ok(keys, values, meta, n + 1, o, pids, q) by {
        lemma_merged_step(o, pids, n, keys[q]);
        assert(merge_slot_ok(keys, values, meta, n, o, pids, q));
    }
}

/// A pending record whose id already has a slot replaces that slot's value
/// and metadata.
proof fn lemma_merge_overwrite<T, M: Clone>(
    keys: Seq<ObjectId>,
    values: Seq<T>,
    meta: Seq<Meta<M>>,
    n: int,
    o: Store<T, M>,
    pids: Seq<ObjectId>,
    ind: int,
    fm: Meta<M>,
)
    requires
        o.wf(),
        pids == o.pending_ids@,
        0 <= n < pids.len(),
        o.pending_alive(pids[n]),
        0 <= ind < keys.len(),
        keys[ind] == pids[n],
        fm == o.pending()[pids[n]].1,
        merge_inv(keys, values, meta, n, o, pids),
    ensures
        merge_inv(keys, values.update(ind, o.pending()[pids[n]].0), meta.update(ind, fm), n + 1, o, pids),
{
    let k = pids[n];
    let nv = values.update(ind, o.pending()[k].0);
    let nm = meta.update(ind, fm);
    lemma_merged_step(o, pids, n, k);
    assert(merge_slot_ok(keys, values, meta, n, o, pids, ind));
    assert(o.live_in_index(k));
    assert forall|q: int| 0 <= q < nm.len() implies #[trigger] nm[q] is Alive by {
        if q != ind {
            assert(meta[q] is Alive);
        }
    }
    assert forall|x: ObjectId| #[trigger] live_at(keys, nm, x) == (o.live_in_index(x) || merged(o, pids, n + 1, x)) by {
        lemma_merged_step(o, pids, n, x);
        lemma_insertion_point(keys, x);
        assert(live_at(keys, meta, x) == (o.live_in_index(x) || merged(o, pids, n, x)));
    }
    assert forall|q: int| 0 <= q < keys.len() implies #[trigger] merge_slot_ok(keys, nv, nm, n + 1, o, pids, q) by {
        lemma_merged_step(o, pids, n, keys[q]);
        if q != ind {
            assert(merge_slot_ok(keys, values, meta, n, o, pids, q));
            assert(keys[q] != k) by {
                assert(oid_lt(keys[q], keys[ind]) || oid_lt(keys[ind], keys[q]));
                lemma_oid_order(k, k, k);
            }
        }
    }
}

/// A pending record whose id has no slot and does not sort after the last
/// slot is inserted at its sorted position, with its own metadata.
proof fn lemma_merge_insert<T, M: Clone>(
    keys: Seq<ObjectId>,
    values: Seq<T>,
    meta: Seq<Meta<M>>,
    n: int,
    o: Store<T, M>,
    pids: Seq<ObjectId>,
    ind: int,
    fm: Meta<M>,
)
    requires
        o.wf(),
        pids == o.pending_ids@,
        0 <= n < pids.len(),
        o.pending_alive(pids[n]),
        ind == insertion_point(keys, pids[n]),
        !(ind < keys.len() && keys[ind] == pids[n]),
        keys.len() == 0 || !oid_lt(keys.last(), pids[n]),
        fm == o.pending()[pids[n]].1,
        merge_inv(keys, values, meta, n, o, pids),
    ensures
        merge_inv(
            keys.insert(ind, pids[n]),
            values.insert(ind, o.pending()[pids[n]].0),
            meta.insert(ind, fm),
            n + 1,
            o,
            pids,
        ),
{
    let k = pids[n];
    let nk = keys.insert(ind, k);
    let nv = values.insert(ind, o.pending()[k].0);
    let nm = meta.insert(ind, fm);
    lemma_insertion_point(keys, k);
    lemma_merged_step(o, pids, n, k);
    assert forall|a: int, b: int| 0 <= a < b < nk.len() implies oid_lt(nk[a], nk[b]) by {
        if a < ind && b == ind {
        } else if a < ind && b > ind {
            assert(nk[b] == keys[b - 1]);
            assert(!oid_lt(keys[b - 1], k));
            lemma_oid_order(nk[a], k, nk[b]);
            lemma_oid_order(k, nk[b], nk[b]);
        } else if a == ind {
            assert(nk[b] == keys[b - 1]);
            assert(!oid_lt(keys[b - 1], k));
            lemma_oid_order(k, nk[b], nk[b]);
            if b - 1 == ind {
                lemma_oid_order(k, keys[ind], keys[ind]);
            } else {
                assert(oid_lt(keys[ind], keys[b - 1]));
                lemma_oid_order(k, keys[ind], keys[b - 1]);
                lemma_oid_order(keys[ind], k, k);
            }
        } else if a > ind {
            assert(nk[a] == keys[a - 1]);
            assert(nk[b] == keys[b - 1]);
        } else {
            assert(nk[a] == keys[a]);
            assert(nk[b] == keys[b]);
        }
    }
    // every old slot from `ind` on sorts after k, so it is not a merged id
    assert forall|q: int| ind <= q < keys.len() implies oid_lt(k, #[trigger] keys[q]) by {
        assert(!oid_lt(keys[q], k));
        lemma_oid_order(k, keys[q], keys[q]);
        if q > ind {
            assert(oid_lt(keys[ind], keys[q]));
            lemma_oid_order(keys[ind], k, k);
            lemma_oid_order(k, keys[ind], keys[q]);
        }
    }
    assert forall|q: int| 0 <= q < nm.len() implies #[trigger] nm[q] is Alive by {
        if q < ind {
            assert(nm[q] == meta[q]);
        } else if q > ind {
            assert(nm[q] == meta[q - 1]);
        }
    }
    assert forall|x: ObjectId| #[trigger] live_at(nk, nm, x) == (o.live_in_index(x) || merged(o, pids, n + 1, x)) by {
        lemma_merged_step(o, pids, n, x);
        lemma_insertion_point(nk, x);
        lemma_insertion_point(keys, x);
        assert(live_at(keys, meta, x) == (o.live_in_index(x) || merged(o, pids, n, x)));
        if live_at(nk, nm, x) && x != k {
            let p = insertion_point(nk, x);
            if p < ind {
                assert(nk[p] == keys[p]);
                lemma_found_at_insertion_point(keys, x, p);
                assert(nm[p] == meta[p]);
            } else if p > ind {
                assert(nk[p] == keys[p - 1]);
                lemma_found_at_insertion_point(keys, x, p - 1);
                assert(nm[p] == meta[p - 1]);
            }
        }
        if live_at(keys, meta, x) {
            let p = insertion_point(keys, x);
            if p < ind {
                assert(nk[p] == x);
                lemma_found_at_insertion_point(nk, x, p);
                assert(nm[p] == meta[p]);
            } else {
                assert(nk[p + 1] == x);
                lemma_found_at_insertion_point(nk, x, p + 1);
                assert(nm[p + 1] == meta[p]);
            }
        }
        if x == k {
            assert(nk[ind] == k);
            lemma_found_at_insertion_point(nk, k, ind);
        }
    }
    assert forall|q: int| 0 <= q < nk.len() implies #[trigger] merge_slot_ok(nk, nv, nm, n + 1, o, pids, q) by {
        lemma_merged_step(o, pids, n, nk[q]);
        if q < ind {
            assert(merge_slot_ok(keys, values, meta, n, o, pids, q));
            assert(nk[q] == keys[q] && nv[q] == values[q] && nm[q] == meta[q]);
            assert(oid_lt(keys[q], k));
            lemma_oid_order(keys[q], k, k);
        } else if q > ind {
            assert(merge_slot_ok(keys, values, meta, n, o, pids, q - 1));
            assert(nk[q] == keys[q - 1] && nv[q] == values[q - 1] && nm[q] == meta[q - 1]);
            assert(oid_lt(k, keys[q - 1]));
            lemma_oid_order(k, keys[q - 1], k);
            if merged(o, pids, n, keys[q - 1]) {
                lemma_merged_before(o, pids, n, keys[q - 1], n);
                lemma_oid_order(k, keys[q - 1], k);
            }
        }
    }
}

/// A pending record whose id sorts after every slot is appended with its own metadata.
proof fn lemma_merge_push<T, M: Clone>(
    keys: Seq<ObjectId>,
    values: Seq<T>,
    meta: Seq<Meta<M>>,
    n: int,
    o: Store<T, M>,
    pids: Seq<ObjectId>,
    v: T,
    m: Meta<M>,
)
    requires
        o.wf(),
        pids == o.pending_ids@,
        0 <= n < pids.len(),
        o.pending_alive(pids[n]),
        o.pending()[pids[n]] == (v, m),
        keys.len() > 0,
        forall|q: int| 0 <= q < keys.len() ==> oid_lt(#[trigger] keys[q], pids[n]),
        merge_inv(keys, values, meta, n, o, pids),
    ensures
        merge_inv(keys.push(pids[n]), values.push(v), meta.push(m), n + 1, o, pids),
{
    let k = pids[n];
    let nk = keys.push(k);
    let nv = values.push(v);
    let nm = meta.push(m);
    assert forall|a: int, b: int| 0 <= a < b < nk.len() implies oid_lt(nk[a], nk[b]) by {
        if b == keys.len() {
            assert(oid_lt(keys[a], k));
        } else {
            assert(oid_lt(keys[a], keys[b]));
        }
    }
    assert forall|q: int| 0 <= q < nm.len() implies #[trigger] nm[q] is Alive by {
        if q < meta.len() {
            assert(meta[q] is Alive);
        }
    }
    assert forall|x: ObjectId| #[trigger] live_at(nk, nm, x) == (o.live_in_index(x) || merged(o, pids, n + 1, x)) by {
        lemma_merged_step(o, pids, n, x);
        lemma_insertion_point(nk, x);
        lemma_insertion_point(keys, x);
        if live_at(nk, nm, x) {
            let p = insertion_point(nk, x);
            if p < keys.len() {
                assert(nk[p] == keys[p]);
                lemma_found_at_insertion_point(keys, x, p);
                assert(live_at(keys, meta, x));
            }
        }
        if live_at(keys, meta, x) {
            let p = insertion_point(keys, x);
            assert(nk[p] == x);
            lemma_found_at_insertion_point(nk, x, p);
        }
        if x == k {
            lemma_found_at_insertion_point(nk, x, keys.len() as int);
        }
    }
    assert forall|q: int| 0 <= q < nk.len() implies #[trigger] merge_slot_ok(nk, nv, nm, n + 1, o, pids, q) by {
        lemma_merged_step(o, pids, n, nk[q]);
        if q < keys.len() {
            assert(merge_slot_ok(keys, values, meta, n, o, pids, q));
            assert(oid_lt(keys[q], k));
            lemma_oid_order(keys[q], k, k);
        }
    }
}

/// With every slot alive, an id is live exactly when it occurs.
proof fn lemma_live_at_occurs<M>(keys: Seq<ObjectId>, meta: Seq<Meta<M>>, q: int)
    requires
        sorted_ids(keys),
        keys.len() == meta.len(),
        0 <= q < keys.len(),
        meta[q] is Alive,
    ensures
        live_at(keys, meta, keys[q]),
        insertion_point(keys, keys[q]) == q,
{
    lemma_found_at_insertion_point(keys, keys[q], q);
}

/// A live id occurs at its insertion point.
proof fn lemma_live_at_position<M>(keys: Seq<ObjectId>, meta: Seq<Meta<M>>, k: ObjectId)
    requires
        sorted_ids(keys),
        live_at(keys, meta, k),
    ensures
        0 <= insertion_point(keys, k) < keys.len(),
        keys[insertion_point(keys, k)] == k,
{
    lemma_insertion_point(keys, k);
}

/// One slot of the index portion: id, value and metadata.
pub type Entry<T, M> = (ObjectId, T, Meta<M>);

/// Whether a slot is alive.
pub open spec fn entry_alive<T, M>(e: Entry<T, M>) -> bool {
    e.2 is Alive
}

/// Every element of a filtered sequence comes from the unfiltered one.
proof fn lemma_filter_subset<A>(s: Seq<A>, pred: spec_fn(A) -> bool)
    ensures
        forall|i: int| 0 <= i < s.filter(pred).len() ==> s.contains(#[trigger] s.filter(pred)[i]),
    decreases s.len(),
{
    reveal(Seq::filter);
    if s.len() > 0 {
        lemma_filter_subset(s.drop_last(), pred);
        let out = s.filter(pred);
        let sub = s.drop_last().filter(pred);
        assert forall|i: int| 0 <= i < out.len() implies s.contains(#[trigger] out[i]) by {
            if i < sub.len() {
                assert(out[i] == sub[i]);
                let j = choose|j: int| 0 <= j < s.drop_last().len() && s.drop_last()[j] == sub[i];
                assert(s[j] == out[i]);
            } else {
                assert(out[i] == s.last());
                assert(s[s.len() - 1] == out[i]);
            }
        }
    }
}

/// Mutable references to the live slots of parallel slices, in order, each
/// tagged with `base` plus its position.
fn collect_live_mut<'a, T, M>(
    keys: &'a [ObjectId],
    values: &'a mut [T],
    meta: &'a mut [Meta<M>],
    current_meta: &'a M,
    base: usize,
) -> (r: Vec<(usize, ObjectId, StoreRefMut<'a, T, M>)>)
    requires
        keys@.len() == old(values)@.len(),
        keys@.len() == old(meta)@.len(),
        base + keys@.len() <= usize::MAX,
    ensures
        final(values)@.len() == old(values)@.len(),
        final(meta)@.len() == old(meta)@.len(),
        forall|a: int, b: int| 0 <= a < b < r@.len() ==> r@[a].0 < r@[b].0,
        forall|t: int|
            #![trigger r@[t]]
            0 <= t < r@.len() ==> {
                let i = r@[t].0 - base;
                &&& 0 <= i < keys@.len()
                &&& old(meta)@[i] is Alive
                &&& r@[t].1 == keys@[i]
                &&& *r@[t].2.value_ref() == old(values)@[i]
                &&& *r@[t].2.meta_ref() == old(meta)@[i]
                &&& r@[t].2.current_ref() == current_meta
                &&& final(values)@[i] == *final(r@[t].2.value_ref())
                &&& final(meta)@[i] == *final(r@[t].2.meta_ref())
            },
        forall|i: int|
            0 <= i < keys@.len() && #[trigger] old(meta)@[i] is Alive ==> exists|t: int|
                0 <= t < r@.len() && r@[t].0 == base + i,
        forall|i: int|
            0 <= i < keys@.len() && #[trigger] old(meta)@[i] is Dead ==> final(values)@[i] == old(
                values,
            )@[i] && final(meta)@[i] == old(meta)@[i],
    decreases keys@.len(),
{
    if keys.len() == 0 {
        return Vec::new();
    }
    let ghost k0 = keys@;
    let ghost v0 = values@;
    let ghost m0 = meta@;
    let (kfirst, krest) = keys.split_at(1);
    let (vfirst, vrest) = values.split_at_mut(1);
    let (mfirst, mrest) = meta.split_at_mut(1);
    let ghost fv1 = final(vfirst)@;
    let ghost fv2 = final(vrest)@;
    let ghost fm1 = final(mfirst)@;
    let ghost fm2 = final(mrest)@;
    let mut rest = collect_live_mut(krest, vrest, mrest, current_meta, base + 1);
    let ghost rest0 = rest@;
    let m = mfirst.first_mut().unwrap();
    let v = vfirst.first_mut().unwrap();
    if m.is_alive() {
        rest.insert(0, (base, kfirst[0], StoreRefMut { current_meta, value: v, meta: m }));
        proof {
            assert forall|t: int| 1 <= t < rest@.len() implies rest@[t] == rest0[t - 1] by {}
            assert forall|i: int|
                0 <= i < k0.len() && #[trigger] m0[i] is Alive implies exists|t: int|
                    0 <= t < rest@.len() && rest@[t].0 == base + i by {
                if i > 0 {
                    assert(m0[i] == m0.subrange(1, m0.len() as int)[i - 1]);
                    let t = choose|t: int| 0 <= t < rest0.len() && rest0[t].0 == (base + 1) + (i - 1);
                    assert(rest@[t + 1] == rest0[t]);
                } else {
                    assert(rest@[0].0 == base + i);
                }
            }
        }
    } else {
        proof {
            assert forall|i: int|
                0 <= i < k0.len() && #[trigger] m0[i] is Alive implies exists|t: int|
                    0 <= t < rest@.len() && rest@[t].0 == base + i by {
                assert(i > 0);
                assert(m0[i] == m0.subrange(1, m0.len() as int)[i - 1]);
                let t = choose|t: int| 0 <= t < rest0.len() && rest0[t].0 == (base + 1) + (i - 1);
            }
            assert(has_resolved(v));
            assert(has_resolved(m));
            assert(*final(v) == v0[0]);
            assert(*final(m) == m0[0]);
        }
    }
    proof {
        assert forall|i: int|
            0 <= i < k0.len() && #[trigger] m0[i] is Dead implies (fv1 + fv2)[i] == v0[i]
                && (fm1 + fm2)[i] == m0[i] by {
            if i > 0 {
                assert(m0[i] == m0.subrange(1, m0.len() as int)[i - 1]);
                assert(v0[i] == v0.subrange(1, v0.len() as int)[i - 1]);
            }
        }
    }
    rest
}

/// Give a vector's spare capacity back to the allocator (`Vec::shrink_to_fit`);
/// the contents stay as they are.
#[verifier::external_body]
fn shrink_vec<X>(v: &mut Vec<X>)
    ensures
        final(v)@ == old(v)@,
{
    v.shrink_to_fit();
}

/// Swap two elements of a vector.
fn vec_swap<X>(v: &mut Vec<X>, i: usize, j: usize)
    requires
        i < j < old(v)@.len(),
    ensures
        final(v)@ == old(v)@.update(i as int, old(v)@[j as int]).update(j as int, old(v)@[i as int]),
{
    let ghost s = v@;
    let sl = v.as_mut_slice();
    let (a, b) = sl.split_at_mut(j);
    std::mem::swap(&mut a[i], &mut b[0]);
    proof {
        assert(after_borrow(v)@ =~= s.update(i as int, s[j as int]).update(j as int, s[i as int]));
    }
}

/// Binary search for `id` in a sorted vector: whether it is there, and its
/// insertion point.
fn search_ids(keys: &Vec<ObjectId>, id: &ObjectId) -> (r: (bool, usize))
    requires
        sorted_ids(keys@),
    ensures
        r.1 == insertion_point(keys@, *id),
        r.0 == (r.1 < keys@.len() && keys@[r.1 as int] == *id),
{
    let mut lo: usize = 0;
    let mut hi: usize = keys.len();
    while lo < hi
        invariant
            sorted_ids(keys@),
            0 <= lo <= hi <= keys@.len(),
            forall|j: int| 0 <= j < lo ==> oid_lt(#[trigger] keys@[j], *id),
            forall|j: int| hi <= j < keys@.len() ==> !oid_lt(#[trigger] keys@[j], *id),
        decreases hi - lo,
    {
        let mid = lo + (hi - lo) / 2;
        if keys[mid].precedes(id) {
            proof {
                assert forall|j: int| 0 <= j < mid + 1 implies oid_lt(#[trigger] keys@[j], *id) by {
                    if j < mid {
                        lemma_oid_order(keys@[j], keys@[mid as int], *id);
                    }
                }
            }
            lo = mid + 1;
        } else {
            proof {
                assert forall|j: int| mid <= j < keys@.len() implies !oid_lt(#[trigger] keys@[j], *id) by {
                    if mid < j {
                        lemma_oid_order(keys@[mid as int], keys@[j], *id);
                        lemma_oid_order(*id, keys@[mid as int], keys@[j]);
                    }
                }
            }
            hi = mid;
        }
    }
    proof {
        lemma_insertion_point_unique(keys@, *id, lo as int);
    }
    if lo < keys.len() {
        let same = keys[lo].same_as(id);
        (same, lo)
    } else {
        (false, lo)
    }
}

/// A shared reference to a value in a store.
pub struct StoreRef<'a, T, M> {
    value: &'a T,
    meta: core::marker::PhantomData<&'a M>,
}

impl<'a, T, M> View for StoreRef<'a, T, M> {
    type V = T;

    closed spec fn view(&self) -> T {
        *self.value
    }
}

impl<'a, T, M> StoreRef<'a, T, M> {
    /// The referenced value.
    pub fn deref(&self) -> (r: &T)
        ensures
            *r == self@,
    {
        self.value
    }
}

/// A mutable reference to a value in a store, together with its metadata
/// slot and the store's current metadata.
///
/// Mutating through [StoreRefMut::deref_mut] stamps the slot with a clone of
/// the current metadata (a dead slot stays dead); merely taking the reference
/// changes nothing.
pub struct StoreRefMut<'a, T, M> {
    current_meta: &'a M,
    value: &'a mut T,
    meta: &'a mut Meta<M>,
}

impl<'a, T, M> StoreRefMut<'a, T, M> {
    /// The reference to the value.
    pub closed spec fn value_ref(self) -> &'a mut T {
        self.value
    }

    /// The reference to the metadata slot.
    pub closed spec fn meta_ref(self) -> &'a mut Meta<M> {
        self.meta
    }

    /// The store's current metadata.
    pub closed spec fn current_ref(self) -> &'a M {
        self.current_meta
    }
}

impl<'a, T, M: Clone> StoreRefMut<'a, T, M> {
    /// The referenced value.
    pub fn deref(&self) -> (r: &T)
        ensures
            *r == *self.value_ref(),
    {
        &*self.value
    }

    /// Mutable access to the referenced value.  A live slot gets a clone of
    /// the current metadata.
    pub fn deref_mut(&mut self) -> (out: &mut T)
        ensures
            *out == *old(self).value_ref(),
            *final(self).value_ref() == *final(out),
            *final(final(self).value_ref()) == *final(old(self).value_ref()),
            *final(final(self).meta_ref()) == *final(old(self).meta_ref()),
            final(self).current_ref() == old(self).current_ref(),
            *old(self).meta_ref() is Alive ==> fresh_meta(*final(self).meta_ref(), *old(self).current_ref()),
            *old(self).meta_ref() is Dead ==> *final(self).meta_ref() is Dead,
    {
        if self.meta.is_alive() {
            let m = self.current_meta.clone();
            *self.meta = Meta::Alive(m);
        }
        self.value
    }

    /// Delete the referenced object: its slot becomes dead.
    pub fn delete(self)
        ensures
            *final(self.meta_ref()) == Meta::<M>::Dead,
            *final(self.value_ref()) == *self.value_ref(),
    {
        *self.meta = Meta::Dead;
    }
}

impl<T, M> Store<T, M> {
    /// The ids of the index portion, in index order.
    pub closed spec fn spec_keys(&self) -> Seq<ObjectId> {
        self.keys@
    }

    /// The values of the index portion, in index order.
    pub closed spec fn spec_values(&self) -> Seq<T> {
        self.values@
    }

    /// The metadata slots of the index portion, in index order.
    pub closed spec fn spec_meta(&self) -> Seq<Meta<M>> {
        self.meta@
    }

    /// The pending inserts: id to (value, metadata).
    pub closed spec fn pending(&self) -> Map<ObjectId, (T, Meta<M>)> {
        pending_map(self.pending_ids@, self.pending_records@)
    }

    /// The metadata given to objects that change from now on.
    pub closed spec fn current(&self) -> M {
        self.current_meta
    }

    /// The store's invariant: parallel vectors of one length, ids sorted.
    pub closed spec fn wf(&self) -> bool {
        &&& self.keys@.len() == self.values@.len()
        &&& self.keys@.len() == self.meta@.len()
        &&& self.keys@.len() <= usize::MAX
        &&& sorted_ids(self.keys@)
        &&& sorted_ids(self.pending_ids@)
        &&& self.pending_ids@.len() == self.pending_records@.len()
    }

    /// The ids of the pending inserts, in increasing order.
    pub closed spec fn pending_keys(&self) -> Seq<ObjectId> {
        self.pending_ids@
    }

    /// The ids of the index portion, in index order.
    pub fn keys(&self) -> (r: &Vec<ObjectId>)
        ensures
            r@ == self.spec_keys(),
    {
        &self.keys
    }

    /// The values of the index portion, in index order.
    pub fn values(&self) -> (r: &Vec<T>)
        ensures
            r@ == self.spec_values(),
    {
        &self.values
    }

    /// The metadata slots of the index portion, in index order.
    pub fn meta(&self) -> (r: &Vec<Meta<M>>)
        ensures
            r@ == self.spec_meta(),
    {
        &self.meta
    }

    /// The pending inserts in increasing id order, each with its value and
    /// metadata.
    pub fn pending_inserts(&self) -> (r: Vec<(ObjectId, &T, &Meta<M>)>)
        requires
            self.wf(),
        ensures
            r@.len() == self.pending_keys().len(),
            self.pending().dom() == self.pending_keys().to_set(),
            forall|j: int|
                #![trigger r@[j]]
                0 <= j < r@.len() ==> r@[j].0 == self.pending_keys()[j] && self.pending()[r@[j].0]
                    == (*r@[j].1, *r@[j].2),
    {
        proof {
            lemma_pending_map(self.pending_ids@, self.pending_records@);
            assert(self.pending().dom() =~= self.pending_keys().to_set());
        }
        let mut out: Vec<(ObjectId, &T, &Meta<M>)> = Vec::new();
        let mut j: usize = 0;
        while j < self.pending_ids.len()
            invariant
                self.wf(),
                0 <= j <= self.pending_ids@.len(),
                out@.len() == j,
                forall|q: int|
                    #![trigger out@[q]]
                    0 <= q < j ==> out@[q].0 == self.pending_ids@[q] && out@[q].1
                        == self.pending_records@[q].value && out@[q].2 == self.pending_records@[q].meta,
            decreases self.pending_ids@.len() - j,
        {
            let rec = &self.pending_records[j];
            out.push((self.pending_ids[j], &rec.value, &rec.meta));
            j = j + 1;
        }
        proof {
            lemma_pending_map(self.pending_ids@, self.pending_records@);
        }
        out
    }

    /// Whether `id` waits in the pending inserts and is alive there.
    pub open spec fn pending_alive(&self, id: ObjectId) -> bool {
        self.pending().contains_key(id) && self.pending()[id].1 is Alive
    }

    /// Where a lookup of `id` leads.
    pub open spec fn spec_search(&self, id: ObjectId) -> SearchResult {
        let keys = self.spec_keys();
        let meta = self.spec_meta();
        let p = insertion_point(keys, id);
        let found = p < keys.len() && keys[p] == id;
        if p < meta.len() && meta[p] is Dead {
            SearchResult::TombstoneAvailable(p as usize)
        } else if !found && self.pending_alive(id) {
            SearchResult::Pending
        } else if found {
            SearchResult::Found(p as usize)
        } else if meta.len() > 0 && meta.last() is Dead && p == meta.len() {
            SearchResult::TombstoneAvailable((meta.len() - 1) as usize)
        } else {
            SearchResult::InsertBefore(p as usize)
        }
    }

    /// The value that a lookup of `id` gives, if any.
    pub open spec fn lookup(&self, id: ObjectId) -> Option<T> {
        match self.spec_search(id) {
            SearchResult::Found(i) => Some(self.spec_values()[i as int]),
            SearchResult::Pending => Some(self.pending()[id].0),
            _ => None,
        }
    }

    /// The facts about the index and pending inserts that follow from `wf`.
    pub proof fn lemma_wf(&self)
        requires
            self.wf(),
        ensures
            self.spec_keys().len() == self.spec_values().len(),
            self.spec_keys().len() == self.spec_meta().len(),
            sorted_ids(self.spec_keys()),
            self.pending().dom().finite(),
    {
        lemma_pending_map(self.pending_ids@, self.pending_records@);
    }

    /// Whether `id` has a live slot in the index portion.
    pub open spec fn live_in_index(&self, id: ObjectId) -> bool {
        live_at(self.spec_keys(), self.spec_meta(), id)
    }

    /// The slots of the index portion.
    pub open spec fn index_entries(&self) -> Seq<Entry<T, M>> {
        Seq::new(
            self.spec_keys().len(),
            |i: int| (self.spec_keys()[i], self.spec_values()[i], self.spec_meta()[i]),
        )
    }

    /// The indices that a lookup gives are in range.
    pub proof fn lemma_search_bounds(&self, id: ObjectId)
        requires
            self.wf(),
        ensures
            match self.spec_search(id) {
                SearchResult::Found(i) => i < self.spec_keys().len() && self.spec_keys()[i as int]
                    == id && self.spec_meta()[i as int] is Alive,
                SearchResult::TombstoneAvailable(i) => i < self.spec_keys().len()
                    && self.spec_meta()[i as int] is Dead,
                SearchResult::InsertBefore(i) => i <= self.spec_keys().len(),
                SearchResult::Pending => self.pending_alive(id),
            },
    {
        lemma_insertion_point(self.keys@, id);
    }
}

impl<T, M: Clone> Store<T, M> {
    /// An empty store whose objects get `initial_meta` until [Store::set_meta] is called.
    pub fn new(initial_meta: M) -> (s: Self)
        ensures
            s.wf(),
            s.spec_keys().len() == 0,
            s.spec_values().len() == 0,
            s.spec_meta().len() == 0,
            s.pending() == Map::<ObjectId, (T, Meta<M>)>::empty(),
            s.current() == initial_meta,
    {
        Store {
            keys: Vec::new(),
            values: Vec::new(),
            meta: Vec::new(),
            pending_ids: Vec::new(),
            pending_records: Vec::new(),
            current_meta: initial_meta,
        }
    }

    /// Update the metadata which will be applied to any object which changes after this call.
    pub fn set_meta(&mut self, meta: M)
        ensures
            final(self).current() == meta,
            final(self).spec_keys() == old(self).spec_keys(),
            final(self).spec_values() == old(self).spec_values(),
            final(self).spec_meta() == old(self).spec_meta(),
            final(self).pending() == old(self).pending(),
            old(self).wf() ==> final(self).wf(),
    {
        self.current_meta = meta;
    }

    /// The number of slots (live or dead) in the index portion.
    pub fn index_len(&self) -> (n: usize)
        ensures
            n == self.spec_keys().len(),
    {
        self.keys.len()
    }

    /// The id in slot `index`.
    pub fn id_at_index(&self, index: usize) -> (id: ObjectId)
        requires
            index < self.spec_keys().len(),
        ensures
            id == self.spec_keys()[index as int],
    {
        self.keys[index]
    }

    /// Whether slot `index` holds a live object.
    pub fn is_index_alive(&self, index: usize) -> (b: bool)
        requires
            index < self.spec_meta().len(),
        ensures
            b == (self.spec_meta()[index as int] is Alive),
    {
        self.meta[index].is_alive()
    }

    /// Kill slot `index`; returns whether it was alive.
    pub fn delete_index(&mut self, index: usize) -> (was_alive: bool)
        requires
            index < old(self).spec_meta().len(),
        ensures
            was_alive == (old(self).spec_meta()[index as int] is Alive),
            final(self).spec_meta() == old(self).spec_meta().update(index as int, Meta::Dead),
            final(self).spec_keys() == old(self).spec_keys(),
            final(self).spec_values() == old(self).spec_values(),
            final(self).pending() == old(self).pending(),
            final(self).current() == old(self).current(),
            old(self).wf() ==> final(self).wf(),
    {
        let ret = self.meta[index].is_alive();
        self.meta.set(index, Meta::Dead);
        ret
    }

    /// The value in slot `index`, live or dead.
    pub fn get_by_index(&self, index: usize) -> (r: Option<StoreRef<'_, T, M>>)
        requires
            self.wf(),
        ensures
            match r {
                Some(x) => index < self.spec_values().len() && x@ == self.spec_values()[index as int],
                None => index >= self.spec_values().len(),
            },
    {
        if index < self.values.len() {
            Some(StoreRef { value: &self.values[index], meta: core::marker::PhantomData })
        } else {
            None
        }
    }

    /// Where a lookup of `id` leads; see [Store::spec_search].
    fn search_index_from_id(&self, id: &ObjectId) -> (r: SearchResult)
        requires
            self.wf(),
        ensures
            r == self.spec_search(*id),
    {
        proof {
            lemma_pending_map(self.pending_ids@, self.pending_records@);
        }
        let (found, i) = search_ids(&self.keys, id);
        if i < self.meta.len() && self.meta[i].is_dead() {
            return SearchResult::TombstoneAvailable(i);
        }
        if !found {
            let (pf, pi) = search_ids(&self.pending_ids, id);
            proof {
                if self.pending().contains_key(*id) {
                    let j = choose|j: int|
                        0 <= j < self.pending_ids@.len() && self.pending_ids@[j] == *id;
                    lemma_found_at_insertion_point(self.pending_ids@, *id, j);
                }
            }
            if pf && self.pending_records[pi].meta.is_alive() {
                return SearchResult::Pending;
            }
        }
        if found {
            return SearchResult::Found(i);
        }
        let len = self.meta.len();
        if len > 0 && self.meta[len - 1].is_dead() && i == len {
            return SearchResult::TombstoneAvailable(len - 1);
        }
        SearchResult::InsertBefore(i)
    }

    /// Put a record into the pending inserts, replacing any record for the same
    /// id; returns the replaced record's value.
    fn pending_put(&mut self, id: ObjectId, value: T, meta: Meta<M>) -> (r: Option<T>)
        requires
            old(self).wf(),
        ensures
            final(self).wf(),
            final(self).pending() == old(self).pending().insert(id, (value, meta)),
            r == (if old(self).pending().contains_key(id) {
                Some(old(self).pending()[id].0)
            } else {
                None
            }),
            final(self).spec_keys() == old(self).spec_keys(),
            final(self).spec_values() == old(self).spec_values(),
            final(self).spec_meta() == old(self).spec_meta(),
            final(self).current() == old(self).current(),
    {
        proof {
            lemma_pending_map(self.pending_ids@, self.pending_records@);
            lemma_insertion_point(self.pending_ids@, id);
        }
        let ghost old_ids = self.pending_ids@;
        let ghost old_recs = self.pending_records@;
        let ghost old_map = self.pending();
        let (found, pos) = search_ids(&self.pending_ids, &id);
        if found {
            let mut rec = PendingInsertRecord { value, meta };
            std::mem::swap(&mut self.pending_records[pos], &mut rec);
            proof {
                lemma_pending_map(self.pending_ids@, self.pending_records@);
                assert(self.pending_records@ == old_recs.update(pos as int, PendingInsertRecord { value, meta }));
                assert(rec == old_recs[pos as int]);
                assert forall|k: ObjectId| #![auto] self.pending().contains_key(k) == old_map.insert(id, (value, meta)).contains_key(k) by {
                    if old_map.contains_key(k) {
                        let j = choose|j: int| 0 <= j < old_ids.len() && old_ids[j] == k;
                        assert(self.pending_ids@[j] == k);
                    }
                    if self.pending().contains_key(k) {
                        let j = choose|j: int| 0 <= j < old_ids.len() && self.pending_ids@[j] == k;
                        assert(old_ids[j] == k);
                    }
                }
                assert forall|k: ObjectId| #![auto] self.pending().contains_key(k) implies self.pending()[k] == old_map.insert(id, (value, meta))[k] by {
                    let j = choose|j: int| 0 <= j < old_ids.len() && self.pending_ids@[j] == k;
                    assert(old_ids[j] == k);
                    if j != pos {
                        assert(self.pending_records@[j] == old_recs[j]);
                    }
                }
                assert(self.pending() =~= old_map.insert(id, (value, meta)));
            }
            Some(rec.value)
        } else {
            self.pending_ids.insert(pos, id);
            self.pending_records.insert(pos, PendingInsertRecord { value, meta });
            proof {
                let ids = self.pending_ids@;
                assert forall|a: int, b: int| 0 <= a < b < ids.len() implies oid_lt(ids[a], ids[b]) by {
                    if a < pos && b == pos {
                    } else if a < pos && b > pos {
                        assert(ids[b] == old_ids[b - 1]);
                        assert(!oid_lt(old_ids[b - 1], id));
                        lemma_oid_order(ids[a], id, ids[b]);
                        lemma_oid_order(id, ids[b], ids[b]);
                        if id == ids[b] {
                            assert(old_ids[b - 1] == id);
                        }
                    } else if a == pos {
                        assert(ids[b] == old_ids[b - 1]);
                        lemma_oid_order(id, ids[b], ids[b]);
                        if id == ids[b] {
                            assert(old_ids[b - 1] == id);
                        }
                    } else if a > pos {
                        assert(ids[a] == old_ids[a - 1]);
                        assert(ids[b] == old_ids[b - 1]);
                    } else {
                        assert(ids[a] == old_ids[a]);
                        assert(ids[b] == old_ids[b]);
                    }
                }
                lemma_pending_map(self.pending_ids@, self.pending_records@);
                assert(!old_map.contains_key(id)) by {
                    if old_map.contains_key(id) {
                        let j = choose|j: int| 0 <= j < old_ids.len() && old_ids[j] == id;
                        lemma_found_at_insertion_point(old_ids, id, j);
                    }
                }
                assert forall|k: ObjectId| #![auto] self.pending().contains_key(k) == old_map.insert(id, (value, meta)).contains_key(k) by {
                    if old_map.contains_key(k) {
                        let j = choose|j: int| 0 <= j < old_ids.len() && old_ids[j] == k;
                        if j < pos {
                            assert(ids[j] == k);
                        } else {
                            assert(ids[j + 1] == k);
                        }
                    }
                    if k == id {
                        assert(ids[pos as int] == id);
                    }
                    if self.pending().contains_key(k) && k != id {
                        let j = choose|j: int| 0 <= j < ids.len() && ids[j] == k;
                        if j < pos {
                            assert(old_ids[j] == k);
                        } else {
                            assert(old_ids[j - 1] == k);
                        }
                    }
                }
                assert forall|k: ObjectId| #![auto] self.pending().contains_key(k) implies self.pending()[k] == old_map.insert(id, (value, meta))[k] by {
                    let j = choose|j: int| 0 <= j < ids.len() && ids[j] == k;
                    if j < pos {
                        assert(old_ids[j] == k);
                        assert(self.pending_records@[j] == old_recs[j]);
                    } else if j > pos {
                        assert(old_ids[j - 1] == k);
                        assert(self.pending_records@[j] == old_recs[j - 1]);
                    }
                }
                assert(self.pending() =~= old_map.insert(id, (value, meta)));
            }
            None
        }
    }

    /// Drop the pending record of `id`.
    fn pending_remove(&mut self, id: &ObjectId)
        requires
            old(self).wf(),
            old(self).pending().contains_key(*id),
        ensures
            final(self).wf(),
            final(self).pending() == old(self).pending().remove(*id),
            final(self).spec_keys() == old(self).spec_keys(),
            final(self).spec_values() == old(self).spec_values(),
            final(self).spec_meta() == old(self).spec_meta(),
            final(self).current() == old(self).current(),
    {
        proof {
            lemma_pending_map(self.pending_ids@, self.pending_records@);
        }
        let ghost old_ids = self.pending_ids@;
        let ghost old_recs = self.pending_records@;
        let ghost old_map = self.pending();
        let (found, pos) = search_ids(&self.pending_ids, id);
        proof {
            let j = choose|j: int| 0 <= j < old_ids.len() && old_ids[j] == *id;
            lemma_found_at_insertion_point(old_ids, *id, j);
        }
        self.pending_ids.remove(pos);
        self.pending_records.remove(pos);
        proof {
            let ids = self.pending_ids@;
            assert forall|a: int, b: int| 0 <= a < b < ids.len() implies oid_lt(ids[a], ids[b]) by {
                if a < pos && b >= pos {
                    assert(ids[b] == old_ids[b + 1]);
                    assert(ids[a] == old_ids[a]);
                } else if a >= pos {
                    assert(ids[b] == old_ids[b + 1]);
                    assert(ids[a] == old_ids[a + 1]);
                } else {
                    assert(ids[b] == old_ids[b]);
                    assert(ids[a] == old_ids[a]);
                }
            }
            lemma_pending_map(self.pending_ids@, self.pending_records@);
            assert forall|k: ObjectId| #![auto] self.pending().contains_key(k) == old_map.remove(*id).contains_key(k) by {
                if old_map.contains_key(k) && k != *id {
                    let j = choose|j: int| 0 <= j < old_ids.len() && old_ids[j] == k;
                    if j < pos {
                        assert(ids[j] == k);
                    } else {
                        assert(ids[j - 1] == k);
                    }
                }
                if self.pending().contains_key(k) {
                    let j = choose|j: int| 0 <= j < ids.len() && ids[j] == k;
                    if j < pos {
                        assert(old_ids[j] == k);
                        assert(oid_lt(old_ids[j], old_ids[pos as int]));
                        lemma_oid_order(k, k, k);
                    } else {
                        assert(old_ids[j + 1] == k);
                        assert(oid_lt(old_ids[pos as int], old_ids[j + 1]));
                        lemma_oid_order(k, k, k);
                    }
                }
            }
            assert forall|k: ObjectId| #![auto] self.pending().contains_key(k) implies self.pending()[k] == old_map.remove(*id)[k] by {
                let j = choose|j: int| 0 <= j < ids.len() && ids[j] == k;
                if j < pos {
                    assert(old_ids[j] == k);
                    assert(self.pending_records@[j] == old_recs[j]);
                } else {
                    assert(old_ids[j + 1] == k);
                    assert(self.pending_records@[j] == old_recs[j + 1]);
                }
            }
            assert(self.pending() =~= old_map.remove(*id));
        }
    }

    /// How `insert(id, val)` returning `r` turns `self` into `new`.
    pub open spec fn insert_result(self, new: Self, id: ObjectId, val: T, r: Option<T>) -> bool {
        &&& new.current() == self.current()
        &&& match self.spec_search(id) {
                SearchResult::Found(i) => {
                    &&& r == Some(self.spec_values()[i as int])
                    &&& new.spec_keys() == self.spec_keys()
                    &&& new.spec_values() == self.spec_values().update(i as int, val)
                    &&& new.spec_meta() == self.spec_meta().update(
                        i as int,
                        new.spec_meta()[i as int],
                    )
                    &&& fresh_meta(new.spec_meta()[i as int], self.current())
                    &&& new.pending() == self.pending()
                },
                SearchResult::TombstoneAvailable(i) => {
                    &&& r is None
                    &&& new.spec_keys() == self.spec_keys().update(i as int, id)
                    &&& new.spec_values() == self.spec_values().update(i as int, val)
                    &&& new.spec_meta() == self.spec_meta().update(
                        i as int,
                        new.spec_meta()[i as int],
                    )
                    &&& fresh_meta(new.spec_meta()[i as int], self.current())
                    &&& new.pending() == self.pending()
                },
                SearchResult::InsertBefore(i) if i == self.spec_keys().len() => {
                    &&& r is None
                    &&& new.spec_keys() == self.spec_keys().push(id)
                    &&& new.spec_values() == self.spec_values().push(val)
                    &&& new.spec_meta() == self.spec_meta().push(
                        new.spec_meta()[i as int],
                    )
                    &&& fresh_meta(new.spec_meta()[i as int], self.current())
                    &&& new.pending() == self.pending()
                },
                _ => {
                    &&& r == (if self.pending().contains_key(id) {
                        Some(self.pending()[id].0)
                    } else {
                        None
                    })
                    &&& new.spec_keys() == self.spec_keys()
                    &&& new.spec_values() == self.spec_values()
                    &&& new.spec_meta() == self.spec_meta()
                    &&& new.pending() == self.pending().insert(
                        id,
                        (val, new.pending()[id].1),
                    )
                    &&& fresh_meta(new.pending()[id].1, self.current())
                },
            }
    }

    /// Insert or replace the object `id`, returning the value it replaced.
    ///
    /// The object lands in its slot when the id is already there, in a dead
    /// slot that keeps the ids sorted, at the end when it sorts last, and in
    /// the pending inserts otherwise.  Its metadata is a clone of the current
    /// metadata.
    pub fn insert(&mut self, id: &ObjectId, val: T) -> (r: Option<T>)
        requires
            old(self).wf(),
        ensures
            final(self).wf(),
            old(self).insert_result(*final(self), *id, val, r),

    {
        proof {
            lemma_insertion_point(self.keys@, *id);
        }
        let ghost old_keys = self.keys@;
        match self.search_index_from_id(id) {
            SearchResult::Found(i) => {
                let mut old = val;
                std::mem::swap(&mut self.values[i], &mut old);
                let m = self.current_meta.clone();
                self.meta.set(i, Meta::Alive(m));
                Some(old)
            },
            SearchResult::TombstoneAvailable(i) => {
                let m = self.current_meta.clone();
                self.meta.set(i, Meta::Alive(m));
                self.keys.set(i, *id);
                self.values.set(i, val);
                proof {
                    let keys = self.keys@;
                    assert forall|a: int, b: int| 0 <= a < b < keys.len() implies oid_lt(keys[a], keys[b]) by {
                        if b == i {
                            assert(keys[a] == old_keys[a]);
                        } else if a == i {
                            assert(keys[b] == old_keys[b]);
                            assert(oid_lt(old_keys[i as int], old_keys[b]));
                            lemma_oid_order(*id, old_keys[i as int], old_keys[b]);
                            lemma_oid_order(old_keys[i as int], *id, old_keys[b]);
                        } else {
                            assert(keys[a] == old_keys[a]);
                            assert(keys[b] == old_keys[b]);
                        }
                    }
                }
                None
            },
            SearchResult::InsertBefore(i) => {
                if i == self.keys.len() {
                    self.keys.push(*id);
                    self.values.push(val);
                    let m = self.current_meta.clone();
                    self.meta.push(Meta::Alive(m));
                    let _new_len = self.keys.len();
                    proof {
                        let keys = self.keys@;
                        assert forall|a: int, b: int| 0 <= a < b < keys.len() implies oid_lt(keys[a], keys[b]) by {
                            assert(keys[a] == old_keys[a]);
                            if b < i {
                                assert(keys[b] == old_keys[b]);
                            }
                        }
                    }
                    return None;
                }
                let m = self.current_meta.clone();
                self.pending_put(*id, val, Meta::Alive(m))
            },
            SearchResult::Pending => {
                let m = self.current_meta.clone();
                self.pending_put(*id, val, Meta::Alive(m))
            },
        }
    }

    /// The live object `id`, from the index or from the pending inserts.
    pub fn get_by_id(&self, id: &ObjectId) -> (r: Option<StoreRef<'_, T, M>>)
        requires
            self.wf(),
        ensures
            match r {
                Some(x) => self.lookup(*id) == Some(x@),
                None => self.lookup(*id) is None,
            },
    {
        proof {
            lemma_pending_map(self.pending_ids@, self.pending_records@);
        }
        proof {
            self.lemma_search_bounds(*id);
        }
        match self.search_index_from_id(id) {
            SearchResult::Found(i) => Some(StoreRef { value: &self.values[i], meta: core::marker::PhantomData }),
            SearchResult::Pending => {
                let (_, pos) = search_ids(&self.pending_ids, id);
                proof {
                    let j = choose|j: int|
                        0 <= j < self.pending_ids@.len() && self.pending_ids@[j] == *id;
                    lemma_found_at_insertion_point(self.pending_ids@, *id, j);
                }
                Some(StoreRef { value: &self.pending_records[pos].value, meta: core::marker::PhantomData })
            },
            _ => None,
        }
    }

    /// The index of the live object `id`, if it is in the index portion.
    pub fn index_for_id(&self, id: &ObjectId) -> (r: Option<usize>)
        requires
            self.wf(),
        ensures
            match self.spec_search(*id) {
                SearchResult::Found(i) => r == Some(i),
                _ => r is None,
            },
    {
        match self.search_index_from_id(id) {
            SearchResult::Found(i) => Some(i),
            _ => None,
        }
    }

    /// How `delete_id(id)` returning `deleted` turns `self` into `new`.
    pub open spec fn delete_result(self, new: Self, id: ObjectId, deleted: bool) -> bool {
        &&& new.current() == self.current()
        &&& new.spec_keys() == self.spec_keys()
        &&& new.spec_values() == self.spec_values()
        &&& match self.spec_search(id) {
            SearchResult::Found(i) => {
                &&& deleted
                &&& new.spec_meta() == self.spec_meta().update(i as int, Meta::Dead)
                &&& new.pending() == self.pending()
            },
            SearchResult::Pending => {
                &&& deleted
                &&& new.spec_meta() == self.spec_meta()
                &&& new.pending() == self.pending().remove(id)
            },
            _ => {
                &&& !deleted
                &&& new.spec_meta() == self.spec_meta()
                &&& new.pending() == self.pending()
            },
        }
    }

    /// Delete the object `id`; returns whether it was there.
    ///
    /// An indexed object leaves a dead slot; a pending one is dropped from the
    /// pending inserts.
    pub fn delete_id(&mut self, id: &ObjectId) -> (deleted: bool)
        requires
            old(self).wf(),
        ensures
            final(self).wf(),
            old(self).delete_result(*final(self), *id, deleted),

    {
        proof {
            self.lemma_search_bounds(*id);
        }
        match self.search_index_from_id(id) {
            SearchResult::Found(i) => {
                self.meta.set(i, Meta::Dead);
                true
            },
            SearchResult::Pending => {
                self.pending_remove(id);
                true
            },
            _ => false,
        }
    }

    /// The metadata of the object `id`, if it is alive: from its slot in the
    /// index portion, or from its record among the pending inserts.
    pub fn meta_for_id(&self, id: &ObjectId) -> (r: Option<&M>)
        requires
            self.wf(),
        ensures
            match self.spec_search(*id) {
                SearchResult::Found(i) => r is Some && self.spec_meta()[i as int] == Meta::Alive(
                    *r.unwrap(),
                ),
                SearchResult::Pending => r is Some && self.pending()[*id].1 == Meta::Alive(
                    *r.unwrap(),
                ),
                _ => r is None,
            },
    {
        proof {
            lemma_pending_map(self.pending_ids@, self.pending_records@);
            self.lemma_search_bounds(*id);
        }
        match self.search_index_from_id(id) {
            SearchResult::Found(i) => self.meta[i].get_alive_meta(),
            SearchResult::Pending => {
                let (_, pos) = search_ids(&self.pending_ids, id);
                proof {
                    let j = choose|j: int|
                        0 <= j < self.pending_ids@.len() && self.pending_ids@[j] == *id;
                    lemma_found_at_insertion_point(self.pending_ids@, *id, j);
                }
                self.pending_records[pos].meta.get_alive_meta()
            },
            _ => None,
        }
    }

    /// Mutable access to the live object `id`, from the index or from the
    /// pending inserts.
    pub fn get_by_id_mut(&mut self, id: &ObjectId) -> (r: Option<StoreRefMut<'_, T, M>>)
        requires
            old(self).wf(),
        ensures
            final(self).wf(),
            final(self).current() == old(self).current(),
            final(self).spec_keys() == old(self).spec_keys(),
            match old(self).spec_search(*id) {
                SearchResult::Found(i) => r matches Some(rm) && {
                    &&& *rm.value_ref() == old(self).spec_values()[i as int]
                    &&& *rm.meta_ref() == old(self).spec_meta()[i as int]
                    &&& *rm.current_ref() == old(self).current()
                    &&& final(self).spec_values() == old(self).spec_values().update(
                        i as int,
                        *final(rm.value_ref()),
                    )
                    &&& final(self).spec_meta() == old(self).spec_meta().update(
                        i as int,
                        *final(rm.meta_ref()),
                    )
                    &&& final(self).pending() == old(self).pending()
                },
                SearchResult::Pending => r matches Some(rm) && {
                    &&& *rm.value_ref() == old(self).pending()[*id].0
                    &&& *rm.meta_ref() == old(self).pending()[*id].1
                    &&& *rm.current_ref() == old(self).current()
                    &&& final(self).spec_values() == old(self).spec_values()
                    &&& final(self).spec_meta() == old(self).spec_meta()
                    &&& final(self).pending() == old(self).pending().insert(
                        *id,
                        (*final(rm.value_ref()), *final(rm.meta_ref())),
                    )
                },
                _ => {
                    &&& r is None
                    &&& final(self).spec_values() == old(self).spec_values()
                    &&& final(self).spec_meta() == old(self).spec_meta()
                    &&& final(self).pending() == old(self).pending()
                },
            },
    {
        proof {
            self.lemma_search_bounds(*id);
            lemma_pending_map(self.pending_ids@, self.pending_records@);
        }
        let ghost old_map = self.pending();
        let ghost old_ids = self.pending_ids@;
        let ghost old_recs = self.pending_records@;
        match self.search_index_from_id(id) {
            SearchResult::Found(i) => Some(
                StoreRefMut {
                    current_meta: &self.current_meta,
                    value: &mut self.values[i],
                    meta: &mut self.meta[i],
                },
            ),
            SearchResult::Pending => {
                let (_, pos) = search_ids(&self.pending_ids, id);
                proof {
                    let j = choose|j: int| 0 <= j < old_ids.len() && old_ids[j] == *id;
                    lemma_found_at_insertion_point(old_ids, *id, j);
                }
                let rec = &mut self.pending_records[pos];
                let rm = StoreRefMut {
                    current_meta: &self.current_meta,
                    value: &mut rec.value,
                    meta: &mut rec.meta,
                };
                proof {
                    let ids = self.pending_ids@;
                    let recs = after_borrow(self.pending_records)@;
                    lemma_pending_map(ids, recs);
                    assert forall|k: ObjectId| #![auto] pending_map(ids, recs).contains_key(k) == old_map.insert(*id, (*final(rm.value_ref()), *final(rm.meta_ref()))).contains_key(k) by {
                        if old_map.contains_key(k) {
                            let j = choose|j: int| 0 <= j < old_ids.len() && old_ids[j] == k;
                            assert(ids[j] == k);
                        }
                    }
                    assert forall|k: ObjectId| #![auto] pending_map(ids, recs).contains_key(k) implies pending_map(ids, recs)[k] == old_map.insert(*id, (*final(rm.value_ref()), *final(rm.meta_ref())))[k] by {
                        let j = choose|j: int| 0 <= j < ids.len() && ids[j] == k;
                        if j != pos {
                            assert(recs[j] == old_recs[j]);
                        }
                    }
                    assert(pending_map(ids, recs) =~= old_map.insert(*id, (*final(rm.value_ref()), *final(rm.meta_ref()))));
                }
                Some(rm)
            },
            _ => None,
        }
    }

    /// Mutable access to slot `index`, live or dead.
    pub fn get_by_index_mut(&mut self, index: usize) -> (r: Option<StoreRefMut<'_, T, M>>)
        requires
            old(self).wf(),
        ensures
            final(self).wf(),
            final(self).current() == old(self).current(),
            final(self).spec_keys() == old(self).spec_keys(),
            final(self).pending() == old(self).pending(),
            if index < old(self).spec_values().len() {
                r matches Some(rm) && {
                    &&& *rm.value_ref() == old(self).spec_values()[index as int]
                    &&& *rm.meta_ref() == old(self).spec_meta()[index as int]
                    &&& *rm.current_ref() == old(self).current()
                    &&& final(self).spec_values() == old(self).spec_values().update(
                        index as int,
                        *final(rm.value_ref()),
                    )
                    &&& final(self).spec_meta() == old(self).spec_meta().update(
                        index as int,
                        *final(rm.meta_ref()),
                    )
                }
            } else {
                &&& r is None
                &&& final(self).spec_values() == old(self).spec_values()
                &&& final(self).spec_meta() == old(self).spec_meta()
            },
    {
        if index < self.values.len() {
            Some(
                StoreRefMut {
                    current_meta: &self.current_meta,
                    value: &mut self.values[index],
                    meta: &mut self.meta[index],
                },
            )
        } else {
            None
        }
    }

    /// Drop every dead slot from the index portion, keeping the order of the
    /// live ones.
    fn compact(&mut self)
        requires
            old(self).wf(),
        ensures
            final(self).wf(),
            final(self).index_entries() == old(self).index_entries().filter(
                |e: Entry<T, M>| entry_alive(e),
            ),
            forall|q: int| 0 <= q < final(self).spec_meta().len() ==> #[trigger] final(self).spec_meta()[q] is Alive,
            forall|k: ObjectId| #[trigger] final(self).live_in_index(k) == old(self).live_in_index(k),
            forall|k: ObjectId| #[trigger] final(self).live_in_index(k) ==> {
                let fp = insertion_point(final(self).spec_keys(), k);
                let op = insertion_point(old(self).spec_keys(), k);
                &&& final(self).spec_values()[fp] == old(self).spec_values()[op]
                &&& final(self).spec_meta()[fp] == old(self).spec_meta()[op]
            },
            final(self).pending() == old(self).pending(),
            final(self).pending_ids == old(self).pending_ids,
            final(self).pending_records == old(self).pending_records,
            final(self).current() == old(self).current(),
    {
        let ghost old_entries = self.index_entries();
        let ghost old_keys = self.keys@;
        let ghost pred = |e: Entry<T, M>| entry_alive(e);
        let n = self.keys.len();
        let mut w: usize = 0;
        let mut i: usize = 0;
        while i < n
            invariant
                old(self).wf(),
                n == old_entries.len(),
                old_entries == old(self).index_entries(),
                old_keys == old(self).spec_keys(),
                pred == (|e: Entry<T, M>| entry_alive(e)),
                0 <= w <= i <= n,
                self.keys@.len() == n,
                self.values@.len() == n,
                self.meta@.len() == n,
                self.index_entries().take(w as int) == old_entries.take(i as int).filter(pred),
                forall|j: int| i <= j < n ==> #[trigger] self.index_entries()[j] == old_entries[j],
                forall|a: int, b: int| 0 <= a < b < w ==> oid_lt(self.keys@[a], self.keys@[b]),
                forall|a: int, j: int|
                    #![trigger self.keys@[a], old_keys[j]]
                    0 <= a < w && i <= j < n ==> oid_lt(self.keys@[a], old_keys[j]),
                self.pending_ids == old(self).pending_ids,
                self.pending_records == old(self).pending_records,
                self.current_meta == old(self).current_meta,
            decreases n - i,
        {
            let ghost cur = self.index_entries();
            proof {
                reveal(Seq::filter);
                assert(old_entries.take(i + 1).drop_last() == old_entries.take(i as int));
                assert(old_entries.take(i + 1).last() == old_entries[i as int]);
            }
            assert(cur[i as int] == old_entries[i as int]);
            if self.meta[i].is_alive() {
                if w < i {
                    vec_swap(&mut self.values, w, i);
                    vec_swap(&mut self.meta, w, i);
                    let k = self.keys[i];
                    self.keys.set(w, k);
                }
                proof {
                    let now = self.index_entries();
                    assert(now[w as int] == old_entries[i as int]);
                    assert forall|j: int| 0 <= j < w implies now[j] == cur[j] by {}
                    assert(now.take(w + 1) =~= cur.take(w as int).push(old_entries[i as int]));
                    assert forall|j: int| i + 1 <= j < n implies #[trigger] now[j] == old_entries[j] by {
                        assert(now[j] == cur[j]);
                    }
                    assert forall|a: int, j: int|
                        #![trigger self.keys@[a], old_keys[j]]
                        0 <= a < w + 1 && i + 1 <= j < n implies oid_lt(self.keys@[a], old_keys[j]) by {
                        if a == w {
                            assert(self.keys@[a] == old_keys[i as int]);
                        }
                    }
                }
                w = w + 1;
            } else {
                proof {
                    assert(self.index_entries().take(w as int) == old_entries.take(i + 1).filter(pred));
                }
            }
            i = i + 1;
        }
        self.keys.truncate(w);
        self.values.truncate(w);
        self.meta.truncate(w);
        proof {
            assert(old_entries.take(n as int) == old_entries);
            assert(self.index_entries() =~= old_entries.filter(pred));
            let new_entries = self.index_entries();
            #[allow(deprecated)]
            old_entries.filter_lemma(pred);
            lemma_filter_subset(old_entries, pred);
            assert forall|q: int| 0 <= q < self.meta@.len() implies #[trigger] self.meta@[q] is Alive by {
                assert(pred(new_entries[q]));
            }
            assert forall|k: ObjectId| #[trigger] self.live_in_index(k) == old(self).live_in_index(k) by {
                lemma_insertion_point(old_keys, k);
                lemma_insertion_point(self.keys@, k);
                if self.live_in_index(k) {
                    let q = insertion_point(self.keys@, k);
                    assert(old_entries.contains(new_entries[q]));
                    let j = choose|j: int| 0 <= j < old_entries.len() && old_entries[j] == new_entries[q];
                    assert(old_keys[j] == k);
                    lemma_found_at_insertion_point(old_keys, k, j);
                }
                if old(self).live_in_index(k) {
                    let j = insertion_point(old_keys, k);
                    assert(pred(old_entries[j]));
                    assert(new_entries.contains(old_entries[j]));
                    let q = choose|q: int| 0 <= q < new_entries.len() && new_entries[q] == old_entries[j];
                    assert(self.keys@[q] == k);
                    lemma_found_at_insertion_point(self.keys@, k, q);
                    assert(self.meta@[q] is Alive);
                }
            }
            assert forall|k: ObjectId| #[trigger] self.live_in_index(k) implies ({
                let fp = insertion_point(self.keys@, k);
                let op = insertion_point(old_keys, k);
                &&& self.values@[fp] == old(self).values@[op]
                &&& self.meta@[fp] == old(self).meta@[op]
            }) by {
                lemma_insertion_point(self.keys@, k);
                let q = insertion_point(self.keys@, k);
                assert(old_entries.contains(new_entries[q]));
                let j = choose|j: int| 0 <= j < old_entries.len() && old_entries[j] == new_entries[q];
                assert(old_keys[j] == k);
                lemma_found_at_insertion_point(old_keys, k, j);
            }
        }
    }

    /// How merging the pending inserts turns `self` into `new`: no pending
    /// inserts are left, every slot is alive, the live ids are those of the
    /// index portion and the live pending ones, a merged record keeps its value
    /// and the metadata it was inserted with (committing changes no object),
    /// and every other slot keeps its value and metadata.
    pub open spec fn commit_result(self, new: Self) -> bool {
        &&& new.current() == self.current()
        &&& new.pending() == Map::<ObjectId, (T, Meta<M>)>::empty()
        &&& forall|q: int| 0 <= q < new.spec_meta().len() ==> #[trigger] new.spec_meta()[q] is Alive
        &&& forall|k: ObjectId| #[trigger] new.live_in_index(k) == (self.live_in_index(k)
            || self.pending_alive(k))
        &&& forall|k: ObjectId| #[trigger] new.live_in_index(k) ==> {
            let fp = insertion_point(new.spec_keys(), k);
            if self.pending_alive(k) {
                &&& new.spec_values()[fp] == self.pending()[k].0
                &&& new.spec_meta()[fp] == self.pending()[k].1
            } else {
                let op = insertion_point(self.spec_keys(), k);
                &&& new.spec_values()[fp] == self.spec_values()[op]
                &&& new.spec_meta()[fp] == self.spec_meta()[op]
            }
        }
    }

    /// Merge the pending inserts into the index portion.
    ///
    /// Dead slots are dropped first; then the live pending records are merged
    /// in id order, each with its value and the metadata it was inserted with.
    /// A record whose id is already in the index replaces that slot.  While
    /// the index is empty or a record's id does not sort after the last slot,
    /// the record is placed by binary search; from the first record that sorts
    /// after the last slot on, the remaining records are appended.
    pub fn commit_pending_inserts(&mut self)
        requires
            old(self).wf(),
        ensures
            final(self).wf(),
            old(self).commit_result(*final(self)),

    {
        self.compact();
        proof {
            assert forall|k: ObjectId| #[trigger] live_at(self.keys@, self.meta@, k) == old(self).live_in_index(k) by {
                assert(self.live_in_index(k) == old(self).live_in_index(k));
            }
            assert forall|k: ObjectId| #[trigger] live_at(self.keys@, self.meta@, k) implies ({
                let fp = insertion_point(self.keys@, k);
                let op = insertion_point(old(self).spec_keys(), k);
                &&& self.values@[fp] == old(self).spec_values()[op]
                &&& self.meta@[fp] == old(self).spec_meta()[op]
            }) by {
                assert(self.live_in_index(k));
            }
        }
        let ghost ck = self.keys@;
        let ghost cv = self.values@;
        let ghost cm = self.meta@;
        let mut ids: Vec<ObjectId> = Vec::new();
        let mut recs: Vec<PendingInsertRecord<T, M>> = Vec::new();
        std::mem::swap(&mut ids, &mut self.pending_ids);
        std::mem::swap(&mut recs, &mut self.pending_records);
        let ghost pids = ids@;
        let ghost precs = recs@;
        let ghost pmap = pending_map(pids, precs);
        proof {
            lemma_pending_map(pids, precs);
            assert(pmap == old(self).pending());
            lemma_pending_map(self.pending_ids@, self.pending_records@);
            assert(self.pending() =~= Map::<ObjectId, (T, Meta<M>)>::empty());
        }
        let mut pushing = false;
        let mut n: usize = 0;
        let plen = ids.len();
        proof {
            lemma_merge_start(self.keys@, self.values@, self.meta@, *old(self), pids);
        }
        for rec in it: recs.into_iter()
            invariant
                old(self).wf(),
                n == it.index(),
                it.seq() == precs,
                plen == pids.len(),
                pids.len() == precs.len(),
                ids@ == pids,
                pids == old(self).pending_ids@,
                precs == old(self).pending_records@,
                pmap == old(self).pending(),
                self.current_meta == old(self).current_meta,
                self.pending_ids@.len() == 0,
                self.pending_records@.len() == 0,
                merge_inv(self.keys@, self.values@, self.meta@, n as int, *old(self), pids),
                pushing ==> self.keys@.len() > 0,
                pushing ==> forall|q: int, j: int|
                    #![trigger self.keys@[q], pids[j]]
                    0 <= q < self.keys@.len() && n <= j < pids.len() ==> oid_lt(self.keys@[q], pids[j]),
        {
            let k = ids[n];
            let ghost keys0 = self.keys@;
            let ghost values0 = self.values@;
            let ghost meta0 = self.meta@;
            proof {
                lemma_pending_map(pids, precs);
                assert(rec == precs[n as int]);
                assert(pmap[k] == (rec.value, rec.meta));
                assert(sorted_ids(pids));
            }
            if rec.meta.is_alive() {
                if pushing {
                    proof {
                        assert forall|q: int| 0 <= q < keys0.len() implies oid_lt(#[trigger] keys0[q], k) by {
                            assert(oid_lt(keys0[q], pids[n as int]));
                        }
                        lemma_merge_push(keys0, values0, meta0, n as int, *old(self), pids, rec.value, rec.meta);
                    }
                    self.keys.push(k);
                    self.values.push(rec.value);
                    self.meta.push(rec.meta);
                } else {
                    let len = self.keys.len();
                    if len > 0 && self.keys[len - 1].precedes(&k) {
                        proof {
                            assert forall|q: int| 0 <= q < keys0.len() implies oid_lt(#[trigger] keys0[q], k) by {
                                if q < len - 1 {
                                    assert(oid_lt(keys0[q], keys0[len - 1]));
                                    lemma_oid_order(keys0[q], keys0[len - 1], k);
                                }
                            }
                            lemma_merge_push(keys0, values0, meta0, n as int, *old(self), pids, rec.value, rec.meta);
                        }
                        self.keys.push(k);
                        self.values.push(rec.value);
                        self.meta.push(rec.meta);
                        pushing = true;
                    } else {
                        let (found, ind) = search_ids(&self.keys, &k);
                        proof {
                            lemma_insertion_point(keys0, k);
                        }
                        let ghost rm = rec.meta;
                        if found {
                            self.values.set(ind, rec.value);
                            self.meta.set(ind, rec.meta);
                            proof {
                                lemma_merge_overwrite(keys0, values0, meta0, n as int, *old(self), pids, ind as int, rm);
                            }
                        } else if ind < self.meta.len() && self.meta[ind].is_dead() {
                            self.keys.set(ind, k);
                            self.values.set(ind, rec.value);
                            self.meta.set(ind, rec.meta);
                        } else {
                            self.keys.insert(ind, k);
                            self.values.insert(ind, rec.value);
                            self.meta.insert(ind, rec.meta);
                            proof {
                                lemma_merge_insert(keys0, values0, meta0, n as int, *old(self), pids, ind as int, rm);
                            }
                        }
                    }
                }
                proof {
                    if pushing {
                        assert forall|q: int, j: int|
                            #![trigger self.keys@[q], pids[j]]
                            0 <= q < self.keys@.len() && n + 1 <= j < pids.len() implies oid_lt(self.keys@[q], pids[j]) by {
                            assert(oid_lt(pids[n as int], pids[j]));
                            if q < keys0.len() {
                                assert(self.keys@[q] == keys0[q]);
                                assert(oid_lt(keys0[q], pids[n as int]));
                                lemma_oid_order(keys0[q], pids[n as int], pids[j]);
                            }
                        }
                    }
                }
            } else {
                proof {
                    lemma_merge_skip(keys0, values0, meta0, n as int, *old(self), pids);
                }
            }
            n = n + 1;
        }
        let _final_len = self.keys.len();
        proof {
            let o = *old(self);
            assert forall|k: ObjectId| merged(o, pids, plen as int, k) == o.pending_alive(k) by {
                if o.pending_alive(k) {
                    lemma_pending_position(o, pids, k);
                }
            }
            lemma_pending_map(self.pending_ids@, self.pending_records@);
            assert(self.pending() =~= Map::<ObjectId, (T, Meta<M>)>::empty());
            assert forall|k: ObjectId| #[trigger] self.live_in_index(k) implies ({
                let fp = insertion_point(self.spec_keys(), k);
                if o.pending_alive(k) {
                    &&& self.spec_values()[fp] == o.pending()[k].0
                    &&& self.spec_meta()[fp] == o.pending()[k].1
                } else {
                    let op = insertion_point(o.spec_keys(), k);
                    &&& self.spec_values()[fp] == o.spec_values()[op]
                    &&& self.spec_meta()[fp] == o.spec_meta()[op]
                }
            }) by {
                lemma_live_at_position(self.keys@, self.meta@, k);
                assert(merge_slot_ok(self.keys@, self.values@, self.meta@, plen as int, o, pids, insertion_point(self.keys@, k)));
            }
        }
    }

    /// Commit the pending inserts, drop dead slots and release spare capacity.
    pub fn maintenance(&mut self)
        requires
            old(self).wf(),
        ensures
            final(self).wf(),
            old(self).commit_result(*final(self)),

    {
        self.commit_pending_inserts();
        let ghost mid = *self;
        self.compact();
        let ghost pc = *self;
        proof {
            assert forall|k: ObjectId| #[trigger] pc.live_in_index(k) implies mid.live_in_index(k) by {}
        }
        shrink_vec(&mut self.keys);
        shrink_vec(&mut self.values);
        shrink_vec(&mut self.meta);
        proof {
            assert(self.keys@ == pc.keys@ && self.values@ == pc.values@ && self.meta@ == pc.meta@);
            assert forall|k: ObjectId| #[trigger] self.live_in_index(k) == pc.live_in_index(k) by {}
            assert forall|k: ObjectId| #[trigger] self.live_in_index(k) implies ({
                let fp = insertion_point(self.spec_keys(), k);
                if old(self).pending_alive(k) {
                    &&& self.spec_values()[fp] == old(self).pending()[k].0
                    &&& self.spec_meta()[fp] == old(self).pending()[k].1
                } else {
                    let op = insertion_point(old(self).spec_keys(), k);
                    &&& self.spec_values()[fp] == old(self).spec_values()[op]
                    &&& self.spec_meta()[fp] == old(self).spec_meta()[op]
                }
            }) by {
                assert(pc.live_in_index(k));
                assert(mid.live_in_index(k));
                lemma_live_at_position(mid.keys@, mid.meta@, k);
                lemma_live_at_position(pc.keys@, pc.meta@, k);
            }
        }
    }

    /// The live slots of the index portion, in index order, as
    /// `(index, id, value)`.
    pub fn iter(&self) -> (r: Vec<(usize, ObjectId, StoreRef<'_, T, M>)>)
        requires
            self.wf(),
        ensures
            forall|a: int, b: int| 0 <= a < b < r@.len() ==> r@[a].0 < r@[b].0,
            forall|t: int|
                #![trigger r@[t]]
                0 <= t < r@.len() ==> {
                    &&& r@[t].0 < self.spec_keys().len()
                    &&& self.spec_meta()[r@[t].0 as int] is Alive
                    &&& r@[t].1 == self.spec_keys()[r@[t].0 as int]
                    &&& r@[t].2@ == self.spec_values()[r@[t].0 as int]
                },
            forall|i: int|
                0 <= i < self.spec_meta().len() && #[trigger] self.spec_meta()[i] is Alive ==> exists|t: int|
                    0 <= t < r@.len() && r@[t].0 == i,
    {
        let mut r: Vec<(usize, ObjectId, StoreRef<'_, T, M>)> = Vec::new();
        let n = self.keys.len();
        let mut i: usize = 0;
        while i < n
            invariant
                self.wf(),
                n == self.spec_keys().len(),
                0 <= i <= n,
                forall|a: int, b: int| 0 <= a < b < r@.len() ==> r@[a].0 < r@[b].0,
                forall|t: int|
                    #![trigger r@[t]]
                    0 <= t < r@.len() ==> {
                        &&& r@[t].0 < i
                        &&& self.spec_meta()[r@[t].0 as int] is Alive
                        &&& r@[t].1 == self.spec_keys()[r@[t].0 as int]
                        &&& r@[t].2@ == self.spec_values()[r@[t].0 as int]
                    },
                forall|j: int|
                    0 <= j < i && #[trigger] self.spec_meta()[j] is Alive ==> exists|t: int|
                        0 <= t < r@.len() && r@[t].0 == j,
            decreases n - i,
        {
            if self.meta[i].is_alive() {
                let ghost before = r@;
                r.push((i, self.keys[i], StoreRef { value: &self.values[i], meta: core::marker::PhantomData }));
                proof {
                    assert forall|j: int|
                        0 <= j < i + 1 && #[trigger] self.spec_meta()[j] is Alive implies exists|t: int|
                            0 <= t < r@.len() && r@[t].0 == j by {
                        if j < i {
                            let t = choose|t: int| 0 <= t < before.len() && before[t].0 == j;
                            assert(r@[t] == before[t]);
                        } else {
                            assert(r@[before.len() as int].0 == j);
                        }
                    }
                }
            }
            i = i + 1;
        }
        r
    }

    /// Mutable references to the live slots of the index portion, in index
    /// order, as `(index, id, reference)`.
    pub fn iter_mut(&mut self) -> (r: Vec<(usize, ObjectId, StoreRefMut<'_, T, M>)>)
        requires
            old(self).wf(),
        ensures
            final(self).wf(),
            final(self).current() == old(self).current(),
            final(self).spec_keys() == old(self).spec_keys(),
            final(self).pending() == old(self).pending(),
            forall|a: int, b: int| 0 <= a < b < r@.len() ==> r@[a].0 < r@[b].0,
            forall|t: int|
                #![trigger r@[t]]
                0 <= t < r@.len() ==> {
                    let i = r@[t].0 as int;
                    &&& i < old(self).spec_keys().len()
                    &&& old(self).spec_meta()[i] is Alive
                    &&& r@[t].1 == old(self).spec_keys()[i]
                    &&& *r@[t].2.value_ref() == old(self).spec_values()[i]
                    &&& *r@[t].2.meta_ref() == old(self).spec_meta()[i]
                    &&& *r@[t].2.current_ref() == old(self).current()
                    &&& final(self).spec_values()[i] == *final(r@[t].2.value_ref())
                    &&& final(self).spec_meta()[i] == *final(r@[t].2.meta_ref())
                },
            forall|i: int|
                0 <= i < old(self).spec_meta().len() && #[trigger] old(self).spec_meta()[i] is Alive
                    ==> exists|t: int| 0 <= t < r@.len() && r@[t].0 == i,
            forall|i: int|
                0 <= i < old(self).spec_meta().len() && #[trigger] old(self).spec_meta()[i] is Dead
                    ==> final(self).spec_values()[i] == old(self).spec_values()[i]
                    && final(self).spec_meta()[i] == old(self).spec_meta()[i],
            final(self).spec_values().len() == old(self).spec_values().len(),
            final(self).spec_meta().len() == old(self).spec_meta().len(),
    {
        let r = collect_live_mut(
            self.keys.as_slice(),
            self.values.as_mut_slice(),
            self.meta.as_mut_slice(),
            &self.current_meta,
            0,
        );
        proof {
            assert forall|i: int|
                0 <= i < old(self).spec_meta().len() && #[trigger] old(self).spec_meta()[i] is Alive
                    implies exists|t: int| 0 <= t < r@.len() && r@[t].0 == i by {
                assert(old(self).meta@[i] is Alive);
                let t = choose|t: int| 0 <= t < r@.len() && r@[t].0 == 0 + i;
            }
        }
        r
    }

    /// The metadata of slot `index`, if that slot is alive.
    pub fn meta_for_index(&self, index: usize) -> (r: Option<&M>)
        ensures
            match r {
                Some(m) => index < self.spec_meta().len() && self.spec_meta()[index as int]
                    == Meta::Alive(*m),
                None => index >= self.spec_meta().len() || self.spec_meta()[index as int] is Dead,
            },
    {
        if index < self.meta.len() {
            self.meta[index].get_alive_meta()
        } else {
            None
        }
    }
}

} // verus!

verus! {

impl<T, M> Store<T, M> {
    /// Whether every live pending insert can be looked up, i.e. none waits
    /// behind a dead slot or behind a slot that holds its own id.
    pub open spec fn pending_visible(&self) -> bool {
        forall|k: ObjectId| #[trigger] self.pending_alive(k) ==> self.spec_search(k)
            == SearchResult::Pending
    }

    /// A live indexed id is found at its insertion point.
    pub proof fn lemma_search_live(&self, k: ObjectId)
        requires
            self.wf(),
            self.live_in_index(k),
        ensures
            self.spec_search(k) == SearchResult::Found(insertion_point(self.spec_keys(), k) as usize),
            self.lookup(k) == Some(self.spec_values()[insertion_point(self.spec_keys(), k)]),
    {
        lemma_insertion_point(self.spec_keys(), k);
    }

    /// In a store whose slots are all alive and that has no pending inserts, an
    /// id can be looked up exactly when it is live in the index.
    pub proof fn lemma_lookup_all_alive(&self, k: ObjectId)
        requires
            self.wf(),
            forall|q: int| 0 <= q < self.spec_meta().len() ==> #[trigger] self.spec_meta()[q] is Alive,
            self.pending() == Map::<ObjectId, (T, Meta<M>)>::empty(),
        ensures
            self.lookup(k) == (if self.live_in_index(k) {
                Some(self.spec_values()[insertion_point(self.spec_keys(), k)])
            } else {
                None
            }),
    {
        lemma_insertion_point(self.spec_keys(), k);
        let p = insertion_point(self.spec_keys(), k);
        if p < self.spec_meta().len() {
            assert(self.spec_meta()[p] is Alive);
        }
        if self.spec_meta().len() > 0 {
            assert(self.spec_meta()[self.spec_meta().len() - 1] is Alive);
        }
    }
}

/// What `insert(id, val)` stored can be read back: afterwards, looking `id` up
/// gives `val`.
pub proof fn law_lookup_after_insert<T, M: Clone>(
    s1: Store<T, M>,
    s2: Store<T, M>,
    id: ObjectId,
    val: T,
    r: Option<T>,
)
    requires
        s1.wf(),
        s2.wf(),
        s1.insert_result(s2, id, val, r),
    ensures
        s2.lookup(id) == Some(val),
{
    lemma_insertion_point(s1.spec_keys(), id);
    lemma_insertion_point(s2.spec_keys(), id);
    lemma_oid_order(id, id, id);
    match s1.spec_search(id) {
        SearchResult::Found(i) => {},
        SearchResult::TombstoneAvailable(i) => {
            lemma_found_at_insertion_point(s2.spec_keys(), id, i as int);
        },
        SearchResult::InsertBefore(i) => {
            if i == s1.spec_keys().len() {
                lemma_found_at_insertion_point(s2.spec_keys(), id, i as int);
            }
        },
        SearchResult::Pending => {},
    }
}

/// `insert(id, val)` returns what looking `id` up gave before, unless a dead
/// pending record for `id` is overwritten.
pub proof fn law_insert_returns_previous<T, M: Clone>(
    s1: Store<T, M>,
    s2: Store<T, M>,
    id: ObjectId,
    val: T,
    r: Option<T>,
)
    requires
        s1.wf(),
        s2.wf(),
        s1.insert_result(s2, id, val, r),
        s1.pending().contains_key(id) ==> s1.pending_alive(id),
    ensures
        r == s1.lookup(id),
{
    lemma_insertion_point(s1.spec_keys(), id);
}

/// After `delete_id(id)`, looking `id` up gives nothing, and `delete_id`
/// reported whether it could be looked up before.
pub proof fn law_lookup_after_delete<T, M: Clone>(
    s1: Store<T, M>,
    s2: Store<T, M>,
    id: ObjectId,
    deleted: bool,
)
    requires
        s1.wf(),
        s2.wf(),
        s1.delete_result(s2, id, deleted),
    ensures
        s2.lookup(id) is None,
        deleted == s1.lookup(id) is Some,
{
    lemma_insertion_point(s1.spec_keys(), id);
    lemma_insertion_point(s2.spec_keys(), id);
}

/// Merging the pending inserts (by `commit_pending_inserts` or
/// `maintenance`) changes no lookup, provided every live pending insert could
/// be looked up before.
pub proof fn law_commit_preserves_lookup<T, M: Clone>(s1: Store<T, M>, s2: Store<T, M>, k: ObjectId)
    requires
        s1.wf(),
        s2.wf(),
        s1.commit_result(s2),
        s1.pending_visible(),
    ensures
        s2.lookup(k) == s1.lookup(k),
{
    s2.lemma_lookup_all_alive(k);
    lemma_insertion_point(s1.spec_keys(), k);
    if s1.pending_alive(k) {
        assert(s1.spec_search(k) == SearchResult::Pending);
        assert(s2.live_in_index(k));
    } else if s1.live_in_index(k) {
        s1.lemma_search_live(k);
        assert(s2.live_in_index(k));
    } else {
        assert(!s2.live_in_index(k));
    }
}

/// Writing `id` over one slot of a sorted sequence moves the insertion point
/// of any id by at most one place, across that slot.
proof fn lemma_insertion_point_update(s: Seq<ObjectId>, i: int, id: ObjectId, k: ObjectId)
    requires
        sorted_ids(s),
        sorted_ids(s.update(i, id)),
        0 <= i < s.len(),
    ensures
        ({
            let p1 = insertion_point(s, k);
            let p2 = insertion_point(s.update(i, id), k);
            p1 == p2 || (p2 == p1 + 1 && i == p1) || (p1 == p2 + 1 && i == p2)
        }),
{
    let t = s.update(i, id);
    lemma_insertion_point(s, k);
    lemma_insertion_point(t, k);
    let p1 = insertion_point(s, k);
    let p2 = insertion_point(t, k);
    if p1 < p2 {
        if p1 != i {
            assert(s[p1] == t[p1]);
        }
        if p2 > p1 + 1 {
            assert(s[p1 + 1] == t[p1 + 1]);
        }
    } else if p2 < p1 {
        if p2 != i {
            assert(s[p2] == t[p2]);
        }
        if p1 > p2 + 1 {
            assert(s[p2 + 1] == t[p2 + 1]);
        }
    }
}

impl<T, M> Store<T, M> {
    /// When every live pending insert is visible, a lookup finds the live
    /// slot of the index, else the live pending insert, else nothing.
    pub proof fn lemma_lookup_visible(&self, k: ObjectId)
        requires
            self.wf(),
            self.pending_visible(),
        ensures
            self.lookup(k) == (if self.live_in_index(k) {
                Some(self.spec_values()[insertion_point(self.spec_keys(), k)])
            } else if self.pending_alive(k) {
                Some(self.pending()[k].0)
            } else {
                None
            }),
    {
        lemma_insertion_point(self.spec_keys(), k);
        if self.live_in_index(k) {
            self.lemma_search_live(k);
        }
    }
}

impl<T, M: Clone> Store<T, M> {
    /// An insert changes neither the liveness nor the value of any other id,
    /// in the index or pending, and keeps every live pending insert visible if
    /// they all were.
    proof fn lemma_insert_frame(self, new: Self, id: ObjectId, val: T, r: Option<T>, k: ObjectId)
        requires
            self.wf(),
            new.wf(),
            self.insert_result(new, id, val, r),
            k != id,
        ensures
            new.live_in_index(k) == self.live_in_index(k),
            new.live_in_index(k) ==> new.spec_values()[insertion_point(new.spec_keys(), k)]
                == self.spec_values()[insertion_point(self.spec_keys(), k)],
            new.pending_alive(k) == self.pending_alive(k),
            new.pending_alive(k) ==> new.pending()[k].0 == self.pending()[k].0,
            self.pending_visible() && new.pending_alive(k) ==> new.spec_search(k) == SearchResult::Pending,
    {
        let k1 = self.spec_keys();
        let k2 = new.spec_keys();
        let m1 = self.spec_meta();
        let m2 = new.spec_meta();
        lemma_insertion_point(k1, k);
        lemma_insertion_point(k2, k);
        lemma_insertion_point(k1, id);
        self.lemma_search_bounds(id);
        let p1 = insertion_point(k1, k);
        let p2 = insertion_point(k2, k);
        match self.spec_search(id) {
            SearchResult::Found(i) => {
                assert(k2 == k1);
                if self.pending_visible() && self.pending_alive(k) {
                    assert(self.spec_search(k) == SearchResult::Pending);
                    if p1 < m1.len() {
                        if p1 == i {
                            assert(m2[p1] is Alive);
                        } else {
                            assert(m2[p1] == m1[p1]);
                        }
                    }
                }
            },
            SearchResult::TombstoneAvailable(i) => {
                let ii = i as int;
                lemma_insertion_point_update(k1, ii, id, k);
                if self.live_in_index(k) {
                    assert(p1 != ii);
                    assert(k2[p1] == k1[p1]);
                    lemma_found_at_insertion_point(k2, k, p1);
                }
                if new.live_in_index(k) {
                    assert(p2 != ii);
                    assert(k2[p2] == k1[p2]);
                    lemma_found_at_insertion_point(k1, k, p2);
                }
                if self.pending_visible() && self.pending_alive(k) {
                    assert(self.spec_search(k) == SearchResult::Pending);
                    if p1 < m1.len() {
                        assert(m1[p1] !is Dead);
                    }
                    assert(p1 != ii);
                    if p2 == ii {
                        assert(k2[ii] == id);
                    } else if p2 < k2.len() {
                        assert(k2[p2] == k1[p2]);
                        assert(m2[p2] == m1[p2]);
                    }
                }
            },
            SearchResult::InsertBefore(i) => {
                if i == k1.len() {
                    assert(k2 == k1.push(id));
                    if self.live_in_index(k) {
                        assert(k2[p1] == k1[p1]);
                        lemma_found_at_insertion_point(k2, k, p1);
                    }
                    if new.live_in_index(k) {
                        assert(k2[p2] != id);
                        assert(p2 < k1.len());
                        assert(k2[p2] == k1[p2]);
                        lemma_found_at_insertion_point(k1, k, p2);
                    }
                    if self.pending_visible() && self.pending_alive(k) {
                        assert(self.spec_search(k) == SearchResult::Pending);
                        if p1 < k1.len() {
                            assert(m1[p1] !is Dead);
                            assert(k2[p1] == k1[p1]);
                            assert(p2 == p1) by {
                                lemma_insertion_point_unique(k2, k, p1);
                            }
                        } else {
                            if p2 == k1.len() {
                                assert(k2[p2] == id);
                            }
                        }
                    }
                } else {
                    assert(k2 == k1);
                    assert(new.pending()[k] == self.pending()[k]);
                    if self.pending_visible() && self.pending_alive(k) {
                        assert(self.spec_search(k) == SearchResult::Pending);
                    }
                }
            },
            SearchResult::Pending => {
                assert(k2 == k1);
                assert(new.pending()[k] == self.pending()[k]);
                if self.pending_visible() && self.pending_alive(k) {
                    assert(self.spec_search(k) == SearchResult::Pending);
                }
            },
        }
    }
}

/// An insert keeps every live pending insert visible, if they all were.
proof fn lemma_insert_keeps_visible<T, M: Clone>(
    s1: Store<T, M>,
    s2: Store<T, M>,
    id: ObjectId,
    val: T,
    r: Option<T>,
)
    requires
        s1.wf(),
        s2.wf(),
        s1.insert_result(s2, id, val, r),
        s1.pending_visible(),
    ensures
        s2.pending_visible(),
{
    assert forall|q: ObjectId| #[trigger] s2.pending_alive(q) implies s2.spec_search(q)
        == SearchResult::Pending by {
        if q != id {
            s1.lemma_insert_frame(s2, id, val, r, q);
        } else {
            lemma_insertion_point(s1.spec_keys(), id);
            s1.lemma_search_bounds(id);
            match s1.spec_search(id) {
                SearchResult::InsertBefore(i) => {
                    if i == s1.spec_keys().len() {
                        assert(s1.pending_alive(id));
                    }
                },
                SearchResult::Pending => {},
                _ => {
                    assert(s1.pending_alive(id));
                },
            }
        }
    }
}

/// Inserting one id changes no lookup of any other id, provided every live
/// pending insert could be looked up before; and that stays so.
pub proof fn law_insert_keeps_other_lookups<T, M: Clone>(
    s1: Store<T, M>,
    s2: Store<T, M>,
    id: ObjectId,
    val: T,
    r: Option<T>,
    k: ObjectId,
)
    requires
        s1.wf(),
        s2.wf(),
        s1.insert_result(s2, id, val, r),
        s1.pending_visible(),
        k != id,
    ensures
        s2.lookup(k) == s1.lookup(k),
        s2.pending_visible(),
{
    lemma_insert_keeps_visible(s1, s2, id, val, r);
    s1.lemma_insert_frame(s2, id, val, r, k);
    s1.lemma_lookup_visible(k);
    s2.lemma_lookup_visible(k);
}

/// Deleting one id changes no lookup of any other id, provided every live
/// pending insert can be looked up before and after.
pub proof fn law_delete_keeps_other_lookups<T, M: Clone>(
    s1: Store<T, M>,
    s2: Store<T, M>,
    id: ObjectId,
    deleted: bool,
    k: ObjectId,
)
    requires
        s1.wf(),
        s2.wf(),
        s1.delete_result(s2, id, deleted),
        s1.pending_visible(),
        s2.pending_visible(),
        k != id,
    ensures
        s2.lookup(k) == s1.lookup(k),
{
    lemma_insertion_point(s1.spec_keys(), k);
    lemma_insertion_point(s1.spec_keys(), id);
    s1.lemma_search_bounds(id);
    s1.lemma_lookup_visible(k);
    s2.lemma_lookup_visible(k);
    let p = insertion_point(s1.spec_keys(), k);
    match s1.spec_search(id) {
        SearchResult::Found(i) => {
            if p < s1.spec_keys().len() && s1.spec_keys()[p] == k {
                assert(p != i);
                assert(s2.spec_meta()[p] == s1.spec_meta()[p]);
            }
        },
        SearchResult::Pending => {
            assert(s2.pending()[k] == s1.pending()[k]);
        },
        _ => {},
    }
}

/// Two sequences of strictly increasing ids that hold the same ids are equal.
pub proof fn lemma_sorted_same_ids(a: Seq<ObjectId>, b: Seq<ObjectId>)
    requires
        sorted_ids(a),
        sorted_ids(b),
        forall|k: ObjectId| a.contains(k) == b.contains(k),
    ensures
        a == b,
    decreases a.len() + b.len(),
{
    if a.len() == 0 {
        if b.len() > 0 {
            assert(b.contains(b[0]));
        }
        assert(a =~= b);
    } else if b.len() == 0 {
        assert(a.contains(a[0]));
    } else {
        let x = a.last();
        let y = b.last();
        assert(a.contains(x));
        assert(b.contains(y));
        let j = choose|j: int| 0 <= j < b.len() && b[j] == x;
        let i = choose|i: int| 0 <= i < a.len() && a[i] == y;
        lemma_oid_order(x, y, x);
        if j < b.len() - 1 {
            assert(oid_lt(x, y));
            if i < a.len() - 1 {
                assert(oid_lt(y, x));
            }
        }
        assert(x == y);
        let a2 = a.drop_last();
        let b2 = b.drop_last();
        assert forall|k: ObjectId| a2.contains(k) == b2.contains(k) by {
            if a2.contains(k) {
                let p = choose|p: int| 0 <= p < a2.len() && a2[p] == k;
                assert(a[p] == k);
                assert(oid_lt(k, x));
                lemma_oid_order(k, x, k);
                assert(a.contains(k));
                let q = choose|q: int| 0 <= q < b.len() && b[q] == k;
                assert(q != b.len() - 1);
                assert(b2[q] == k);
            }
            if b2.contains(k) {
                let q = choose|q: int| 0 <= q < b2.len() && b2[q] == k;
                assert(b[q] == k);
                assert(oid_lt(k, y));
                lemma_oid_order(k, y, k);
                assert(b.contains(k));
                let p = choose|p: int| 0 <= p < a.len() && a[p] == k;
                assert(p != a.len() - 1);
                assert(a2[p] == k);
            }
        }
        lemma_sorted_same_ids(a2, b2);
        assert(a =~= a2.push(x));
        assert(b =~= b2.push(y));
    }
}

/// A second maintenance changes nothing: once the pending inserts are merged
/// and the dead slots dropped, merging again leaves every id, value and
/// metadata at its index, with no pending inserts and the same current
/// metadata.
pub proof fn law_maintenance_idempotent<T, M: Clone>(
    s0: Store<T, M>,
    s1: Store<T, M>,
    s2: Store<T, M>,
)
    requires
        s0.wf(),
        s0.commit_result(s1),
        s1.wf(),
        s1.commit_result(s2),
        s2.wf(),
    ensures
        s2.spec_keys() == s1.spec_keys(),
        s2.spec_values() == s1.spec_values(),
        s2.spec_meta() == s1.spec_meta(),
        s2.pending() == s1.pending(),
        s2.current() == s1.current(),
{
    s1.lemma_wf();
    s2.lemma_wf();
    let a = s1.spec_keys();
    let b = s2.spec_keys();
    assert forall|k: ObjectId| a.contains(k) == b.contains(k) by {
        assert(!s1.pending_alive(k));
        if a.contains(k) {
            let p = choose|p: int| 0 <= p < a.len() && a[p] == k;
            lemma_found_at_insertion_point(a, k, p);
            assert(s1.spec_meta()[p] is Alive);
            assert(s1.live_in_index(k));
            assert(s2.live_in_index(k));
            lemma_insertion_point(b, k);
            assert(b[insertion_point(b, k)] == k);
        }
        if b.contains(k) {
            let q = choose|q: int| 0 <= q < b.len() && b[q] == k;
            lemma_found_at_insertion_point(b, k, q);
            assert(s2.spec_meta()[q] is Alive);
            assert(s2.live_in_index(k));
            assert(s1.live_in_index(k));
            lemma_insertion_point(a, k);
            assert(a[insertion_point(a, k)] == k);
        }
    }
    lemma_sorted_same_ids(a, b);
    assert forall|q: int| 0 <= q < a.len() implies s2.spec_values()[q] == s1.spec_values()[q]
        && s2.spec_meta()[q] == s1.spec_meta()[q] by {
        let k = a[q];
        assert(!s1.pending_alive(k));
        lemma_found_at_insertion_point(a, k, q);
        assert(s1.spec_meta()[q] is Alive);
        assert(s1.live_in_index(k));
        assert(s2.live_in_index(k));
    }
    assert(s2.spec_values() =~= s1.spec_values());
    assert(s2.spec_meta() =~= s1.spec_meta());
}

impl<T, M> Store<T, M> {
    /// What the store holds for `id`, merged or not: the value of its live
    /// slot, else the value of its live pending insert.
    pub open spec fn holds(&self, id: ObjectId) -> Option<T> {
        if self.live_in_index(id) {
            Some(self.spec_values()[insertion_point(self.spec_keys(), id)])
        } else if self.pending_alive(id) {
            Some(self.pending()[id].0)
        } else {
            None
        }
    }

    /// Whether `id` waits alive among the pending inserts where a lookup
    /// cannot reach it: a dead slot sits where it would be found.
    pub open spec fn hidden(&self, id: ObjectId) -> bool {
        self.pending_alive(id) && self.spec_search(id) != SearchResult::Pending
    }
}

/// Whether no id is both live in the index and alive among the pending inserts.
pub open spec fn no_double<T, M>(s: Store<T, M>) -> bool {
    forall|k: ObjectId| !(#[trigger] s.live_in_index(k) && s.pending_alive(k))
}

/// A lookup gives what the store holds, for every id that is not hidden.
pub proof fn lemma_lookup_holds<T, M>(s: Store<T, M>, k: ObjectId)
    requires
        s.wf(),
        no_double(s),
        !s.hidden(k),
    ensures
        s.lookup(k) == s.holds(k),
{
    s.lemma_wf();
    s.lemma_search_bounds(k);
    lemma_insertion_point(s.spec_keys(), k);
    assert(!(s.live_in_index(k) && s.pending_alive(k)));
    if s.live_in_index(k) {
        s.lemma_search_live(k);
    }
}

/// A call that changes what a store holds, with what it returned: the steps
/// of a run of calls on one store.
pub enum StoreCall<T> {
    /// `insert(id, val)`, which returned the third field.
    Insert(ObjectId, T, Option<T>),
    /// `delete_id(id)`, which returned the second field.
    Delete(ObjectId, bool),
    /// `delete_index(index)` on the slot of the id in the second field, which
    /// returned the third field.
    DeleteIndex(usize, ObjectId, bool),
    /// Writing the second field through the reference that
    /// `get_by_id_mut(id)` gave.
    Write(ObjectId, T),
    /// `delete` on the reference that `get_by_id_mut(id)` gave.
    DeleteRef(ObjectId),
    /// `commit_pending_inserts()` or `maintenance()`.
    Commit,
}

/// The map of ids to values after `call`, from `m` before it.
pub open spec fn apply_call<T>(m: Map<ObjectId, T>, call: StoreCall<T>) -> Map<ObjectId, T> {
    match call {
        StoreCall::Insert(id, v, _) => m.insert(id, v),
        StoreCall::Delete(id, _) => m.remove(id),
        StoreCall::DeleteIndex(_, id, was_alive) => if was_alive {
            m.remove(id)
        } else {
            m
        },
        StoreCall::Write(id, v) => m.insert(id, v),
        StoreCall::DeleteRef(id) => m.remove(id),
        StoreCall::Commit => m,
    }
}

/// What a run of calls from an empty store wrote: each id inserted and not
/// deleted since, mapped to the value it was last given.
pub open spec fn history<T>(calls: Seq<StoreCall<T>>) -> Map<ObjectId, T>
    decreases calls.len(),
{
    if calls.len() == 0 {
        Map::empty()
    } else {
        apply_call(history(calls.drop_last()), calls.last())
    }
}

/// The value that `m` gives `k`, if any.
pub open spec fn map_get<T>(m: Map<ObjectId, T>, k: ObjectId) -> Option<T> {
    if m.contains_key(k) {
        Some(m[k])
    } else {
        None
    }
}

/// The value that a run of calls left for `k`, if any.
pub open spec fn recorded<T>(calls: Seq<StoreCall<T>>, k: ObjectId) -> Option<T> {
    map_get(history(calls), k)
}

/// Whether `call` turns `s1` into `s2`, as the contracts of the calls state.
/// A write or a delete through a reference needs `get_by_id_mut` to have given
/// one, that is a lookup that reaches the id.
pub open spec fn call_result<T, M: Clone>(s1: Store<T, M>, call: StoreCall<T>, s2: Store<T, M>) -> bool {
    &&& s2.current() == s1.current()
    &&& match call {
        StoreCall::Insert(id, v, r) => s1.insert_result(s2, id, v, r),
        StoreCall::Delete(id, d) => s1.delete_result(s2, id, d),
        StoreCall::DeleteIndex(i, id, was_alive) => {
            &&& i < s1.spec_meta().len()
            &&& s1.spec_keys()[i as int] == id
            &&& was_alive == (s1.spec_meta()[i as int] is Alive)
            &&& s2.spec_meta() == s1.spec_meta().update(i as int, Meta::Dead)
            &&& s2.spec_keys() == s1.spec_keys()
            &&& s2.spec_values() == s1.spec_values()
            &&& s2.pending() == s1.pending()
        },
        StoreCall::Write(id, v) => {
            &&& s2.spec_keys() == s1.spec_keys()
            &&& match s1.spec_search(id) {
                SearchResult::Found(i) => {
                    &&& s2.spec_values() == s1.spec_values().update(i as int, v)
                    &&& s2.spec_meta() == s1.spec_meta().update(i as int, s2.spec_meta()[i as int])
                    &&& fresh_meta(s2.spec_meta()[i as int], s1.current())
                    &&& s2.pending() == s1.pending()
                },
                SearchResult::Pending => {
                    &&& s2.spec_values() == s1.spec_values()
                    &&& s2.spec_meta() == s1.spec_meta()
                    &&& s2.pending() == s1.pending().insert(id, (v, s2.pending()[id].1))
                    &&& fresh_meta(s2.pending()[id].1, s1.current())
                },
                _ => false,
            }
        },
        StoreCall::DeleteRef(id) => {
            &&& s2.spec_keys() == s1.spec_keys()
            &&& s2.spec_values() == s1.spec_values()
            &&& match s1.spec_search(id) {
                SearchResult::Found(i) => {
                    &&& s2.spec_meta() == s1.spec_meta().update(i as int, Meta::Dead)
                    &&& s2.pending() == s1.pending()
                },
                SearchResult::Pending => {
                    &&& s2.spec_meta() == s1.spec_meta()
                    &&& s2.pending() == s1.pending().insert(id, (s1.pending()[id].0, Meta::Dead))
                },
                _ => false,
            }
        },
        StoreCall::Commit => s1.commit_result(s2),
    }
}

/// Whether `call` avoids the one case the model leaves out: inserting or
/// deleting by id an id that is hidden.
pub open spec fn call_allowed<T, M>(s: Store<T, M>, call: StoreCall<T>) -> bool {
    match call {
        StoreCall::Insert(id, _, _) => !s.hidden(id),
        StoreCall::Delete(id, _) => !s.hidden(id),
        _ => true,
    }
}

/// What one call returns, against the model before it.
pub open spec fn call_returned<T, M>(s: Store<T, M>, m: Map<ObjectId, T>, call: StoreCall<T>) -> bool {
    match call {
        StoreCall::Insert(id, _, r) => (s.pending().contains_key(id) ==> s.pending_alive(id)) ==> r
            == map_get(m, id),
        StoreCall::Delete(id, d) => d == m.contains_key(id),
        StoreCall::DeleteIndex(_, id, was_alive) => was_alive ==> m.contains_key(id),
        _ => true,
    }
}

/// One allowed call keeps a store holding its model.
proof fn lemma_step_holds<T, M: Clone>(
    s1: Store<T, M>,
    call: StoreCall<T>,
    s2: Store<T, M>,
    m: Map<ObjectId, T>,
)
    requires
        s1.wf(),
        s2.wf(),
        no_double(s1),
        forall|k: ObjectId| #[trigger] s1.holds(k) == map_get(m, k),
        call_result(s1, call, s2),
        call_allowed(s1, call),
    ensures
        no_double(s2),
        forall|k: ObjectId| #[trigger] s2.holds(k) == map_get(apply_call(m, call), k),
        call_returned(s1, m, call),
{
    s1.lemma_wf();
    s2.lemma_wf();
    let k1 = s1.spec_keys();
    let k2 = s2.spec_keys();
    match call {
        StoreCall::Insert(id, v, r) => {
            s1.lemma_search_bounds(id);
            lemma_insertion_point(k1, id);
            assert(s1.holds(id) == map_get(m, id));
            assert forall|k: ObjectId|
                #![trigger s2.holds(k)]
                #![trigger s2.live_in_index(k)]
                s2.holds(k) == map_get(apply_call(m, call), k) && !(s2.live_in_index(k)
                    && s2.pending_alive(k)) by {
                assert(s1.holds(k) == map_get(m, k));
                assert(!(s1.live_in_index(k) && s1.pending_alive(k)));
                if k != id {
                    s1.lemma_insert_frame(s2, id, v, r, k);
                } else {
                    match s1.spec_search(id) {
                        SearchResult::Found(i) => {
                            lemma_found_at_insertion_point(k2, id, i as int);
                        },
                        SearchResult::TombstoneAvailable(i) => {
                            lemma_found_at_insertion_point(k2, id, i as int);
                        },
                        SearchResult::InsertBefore(i) => {
                            if i == k1.len() {
                                lemma_found_at_insertion_point(k2, id, i as int);
                            }
                        },
                        SearchResult::Pending => {},
                    }
                }
            }
        },
        StoreCall::Delete(id, d) => {
            s1.lemma_search_bounds(id);
            lemma_insertion_point(k1, id);
            assert(s1.holds(id) == map_get(m, id));
            assert forall|k: ObjectId|
                #![trigger s2.holds(k)]
                #![trigger s2.live_in_index(k)]
                s2.holds(k) == map_get(apply_call(m, call), k) && !(s2.live_in_index(k)
                    && s2.pending_alive(k)) by {
                assert(s1.holds(k) == map_get(m, k));
                assert(!(s1.live_in_index(k) && s1.pending_alive(k)));
                lemma_insertion_point(k1, k);
            }
        },
        StoreCall::DeleteIndex(i, id, was_alive) => {
            lemma_found_at_insertion_point(k1, id, i as int);
            assert(s1.holds(id) == map_get(m, id));
            assert forall|k: ObjectId|
                #![trigger s2.holds(k)]
                #![trigger s2.live_in_index(k)]
                s2.holds(k) == map_get(apply_call(m, call), k) && !(s2.live_in_index(k)
                    && s2.pending_alive(k)) by {
                assert(s1.holds(k) == map_get(m, k));
                assert(!(s1.live_in_index(k) && s1.pending_alive(k)));
                lemma_insertion_point(k1, k);
                if !was_alive {
                    assert(s2.spec_meta() =~= s1.spec_meta());
                }
            }
        },
        StoreCall::Write(id, v) => {
            s1.lemma_search_bounds(id);
            lemma_insertion_point(k1, id);
            assert forall|k: ObjectId|
                #![trigger s2.holds(k)]
                #![trigger s2.live_in_index(k)]
                s2.holds(k) == map_get(apply_call(m, call), k) && !(s2.live_in_index(k)
                    && s2.pending_alive(k)) by {
                assert(s1.holds(k) == map_get(m, k));
                assert(!(s1.live_in_index(k) && s1.pending_alive(k)));
                lemma_insertion_point(k1, k);
                assert(s1.holds(id) == map_get(m, id));
            }
        },
        StoreCall::DeleteRef(id) => {
            s1.lemma_search_bounds(id);
            lemma_insertion_point(k1, id);
            assert forall|k: ObjectId|
                #![trigger s2.holds(k)]
                #![trigger s2.live_in_index(k)]
                s2.holds(k) == map_get(apply_call(m, call), k) && !(s2.live_in_index(k)
                    && s2.pending_alive(k)) by {
                assert(s1.holds(k) == map_get(m, k));
                assert(!(s1.live_in_index(k) && s1.pending_alive(k)));
                lemma_insertion_point(k1, k);
                assert(s1.holds(id) == map_get(m, id));
            }
        },
        StoreCall::Commit => {
            assert forall|k: ObjectId|
                #![trigger s2.holds(k)]
                #![trigger s2.live_in_index(k)]
                s2.holds(k) == map_get(apply_call(m, call), k) && !(s2.live_in_index(k)
                    && s2.pending_alive(k)) by {
                assert(s1.holds(k) == map_get(m, k));
                assert(!(s1.live_in_index(k) && s1.pending_alive(k)));
            }
        },
    }
}

/// The model of the first `n` calls of a run holds of the store they reach.
proof fn lemma_history_prefix<T, M: Clone>(ss: Seq<Store<T, M>>, calls: Seq<StoreCall<T>>, n: int)
    requires
        ss.len() == calls.len() + 1,
        forall|j: int| 0 <= j < ss.len() ==> #[trigger] ss[j].wf(),
        ss[0].spec_keys().len() == 0,
        ss[0].pending() == Map::<ObjectId, (T, Meta<M>)>::empty(),
        forall|j: int| 0 <= j < calls.len() ==> call_result(ss[j], #[trigger] calls[j], ss[j + 1]),
        forall|j: int| 0 <= j < calls.len() ==> call_allowed(ss[j], #[trigger] calls[j]),
        0 <= n < ss.len(),
    ensures
        no_double(ss[n]),
        forall|k: ObjectId| #[trigger] ss[n].holds(k) == recorded(calls.take(n), k),
        n < calls.len() ==> call_returned(ss[n], history(calls.take(n)), calls[n]),
    decreases n,
{
    let s = ss[n];
    assert(s.wf());
    s.lemma_wf();
    if n == 0 {
        assert(calls.take(0) =~= Seq::<StoreCall<T>>::empty());
        assert forall|k: ObjectId| #[trigger] s.holds(k) == recorded(calls.take(n), k) by {
            assert(!s.pending_alive(k));
        }
    } else {
        lemma_history_prefix(ss, calls, n - 1);
        let s1 = ss[n - 1];
        assert(s1.wf());
        let c = calls[n - 1];
        assert(call_result(s1, c, s));
        assert(call_allowed(s1, c));
        assert(calls.take(n).drop_last() =~= calls.take(n - 1));
        assert(calls.take(n).last() == c);
        let m = history(calls.take(n - 1));
        assert(history(calls.take(n)) == apply_call(m, c));
        lemma_step_holds(s1, c, s, m);
    }
    if n < calls.len() {
        let c = calls[n];
        assert(call_result(s, c, ss[n + 1]));
        assert(call_allowed(s, c));
        assert(ss[n + 1].wf());
        lemma_step_holds(s, c, ss[n + 1], history(calls.take(n)));
    }
}

/// A store reached from a new store by a run of calls (inserts, deletes by
/// id, by index or through a reference, writes through a reference, commits)
/// holds what the run wrote, as long as no insert or delete by id names an id
/// that waits hidden behind a dead slot:
/// - what it holds for each id, merged or not, is the value the id was last
///   given, or nothing if it was never inserted or was deleted since;
/// - a lookup gives that value for every id that is not hidden;
/// - each insert returned the value it replaced (unless a pending record for
///   the id had been deleted through a reference), each delete by id reported
///   whether the id was there, and a delete by index that found its slot alive
///   deleted a recorded id;
/// - after a commit nothing is hidden, every lookup gives the recorded value,
///   and the index holds exactly as many slots as there are recorded ids.
pub proof fn law_store_models_history<T, M: Clone>(ss: Seq<Store<T, M>>, calls: Seq<StoreCall<T>>)
    requires
        ss.len() == calls.len() + 1,
        forall|j: int| 0 <= j < ss.len() ==> #[trigger] ss[j].wf(),
        ss[0].spec_keys().len() == 0,
        ss[0].pending() == Map::<ObjectId, (T, Meta<M>)>::empty(),
        forall|j: int| 0 <= j < calls.len() ==> call_result(ss[j], #[trigger] calls[j], ss[j + 1]),
        forall|j: int| 0 <= j < calls.len() ==> call_allowed(ss[j], #[trigger] calls[j]),
    ensures
        forall|j: int, k: ObjectId|
            0 <= j < ss.len() ==> #[trigger] ss[j].holds(k) == recorded(calls.take(j), k),
        forall|j: int, k: ObjectId|
            0 <= j < ss.len() && !ss[j].hidden(k) ==> #[trigger] ss[j].lookup(k) == recorded(
                calls.take(j),
                k,
            ),
        forall|j: int| 0 <= j < calls.len() ==> call_returned(ss[j], history(calls.take(j)), #[trigger] calls[j]),
        forall|j: int, k: ObjectId|
            #![trigger calls[j], ss[j + 1].lookup(k)]
            0 <= j < calls.len() && calls[j] is Commit ==> !ss[j + 1].hidden(k)
                && ss[j + 1].lookup(k) == recorded(calls.take(j + 1), k),
        forall|j: int|
            0 <= j < calls.len() && #[trigger] calls[j] is Commit ==> ss[j + 1].spec_keys().len()
                == history(calls.take(j + 1)).dom().len(),
{
    assert forall|j: int, k: ObjectId| 0 <= j < ss.len() implies #[trigger] ss[j].holds(k) == recorded(
        calls.take(j),
        k,
    ) by {
        lemma_history_prefix(ss, calls, j);
    }
    assert forall|j: int, k: ObjectId| 0 <= j < ss.len() && !ss[j].hidden(k) implies #[trigger] ss[j].lookup(
        k,
    ) == recorded(calls.take(j), k) by {
        lemma_history_prefix(ss, calls, j);
        assert(ss[j].wf());
        lemma_lookup_holds(ss[j], k);
    }
    assert forall|j: int| 0 <= j < calls.len() implies call_returned(
        ss[j],
        history(calls.take(j)),
        #[trigger] calls[j],
    ) by {
        lemma_history_prefix(ss, calls, j);
    }
    assert forall|j: int, k: ObjectId|
        #![trigger calls[j], ss[j + 1].lookup(k)]
        0 <= j < calls.len() && calls[j] is Commit implies !ss[j + 1].hidden(k) && ss[j + 1].lookup(k)
            == recorded(calls.take(j + 1), k) by {
        lemma_history_prefix(ss, calls, j + 1);
        let s = ss[j + 1];
        assert(s.wf());
        assert(call_result(ss[j], calls[j], s));
        assert(!s.pending_alive(k));
        lemma_lookup_holds(s, k);
    }
    assert forall|j: int| 0 <= j < calls.len() && #[trigger] calls[j] is Commit implies ss[j
        + 1].spec_keys().len() == history(calls.take(j + 1)).dom().len() by {
        lemma_history_prefix(ss, calls, j + 1);
        let s = ss[j + 1];
        assert(s.wf());
        s.lemma_wf();
        assert(call_result(ss[j], calls[j], s));
        let keys = s.spec_keys();
        let h = history(calls.take(j + 1));
        assert(keys.no_duplicates()) by {
            assert forall|a: int, b: int| 0 <= a < keys.len() && 0 <= b < keys.len() && a != b implies keys[a]
                != keys[b] by {
                lemma_oid_order(keys[a], keys[b], keys[a]);
            }
        }
        keys.unique_seq_to_set();
        assert forall|k: ObjectId| #[trigger] keys.to_set().contains(k) == h.dom().contains(k) by {
            assert(s.holds(k) == recorded(calls.take(j + 1), k));
            assert(!s.pending_alive(k));
            if keys.to_set().contains(k) {
                let q = choose|q: int| 0 <= q < keys.len() && keys[q] == k;
                lemma_found_at_insertion_point(keys, k, q);
                assert(s.spec_meta()[q] is Alive);
            }
            if s.live_in_index(k) {
                lemma_insertion_point(keys, k);
                assert(keys[insertion_point(keys, k)] == k);
            }
        }
        assert(keys.to_set() =~= h.dom());
    }
}

/// Writing `v` through the reference that `get_by_id_mut(id)` gives: when a
/// reference is given, the store changes as `StoreCall::Write` says.
#[allow(dead_code)]
fn write_through_reference<T, M: Clone>(s: &mut Store<T, M>, id: &ObjectId, v: T) -> (written: bool)
    requires
        old(s).wf(),
    ensures
        final(s).wf(),
        written == (old(s).spec_search(*id) is Found || old(s).spec_search(*id) is Pending),
        written ==> call_result(*old(s), StoreCall::Write(*id, v), *final(s)),
{
    let ghost s0 = *s;
    let ghost v0 = v;
    let written = match s.get_by_id_mut(id) {
        Some(mut rm) => {
            let out = rm.deref_mut();
            *out = v;
            proof {
                assert(has_resolved(rm));
                assert(*rm.meta_ref() == *final(rm.meta_ref()));
            }
            true
        },
        None => false,
    };
    proof {
        if let SearchResult::Found(i) = s0.spec_search(*id) {
            s0.lemma_search_bounds(*id);
            assert(s.spec_meta() =~= s0.spec_meta().update(i as int, s.spec_meta()[i as int]));
        }
        if written {
            assert(call_result(s0, StoreCall::Write(*id, v0), *s));
        }
    }
    written
}

/// Deleting through the reference that `get_by_id_mut(id)` gives: when a
/// reference is given, the store changes as `StoreCall::DeleteRef` says.
#[allow(dead_code)]
fn delete_through_reference<T, M: Clone>(s: &mut Store<T, M>, id: &ObjectId) -> (deleted: bool)
    requires
        old(s).wf(),
    ensures
        final(s).wf(),
        deleted == (old(s).spec_search(*id) is Found || old(s).spec_search(*id) is Pending),
        deleted ==> call_result(*old(s), StoreCall::DeleteRef(*id), *final(s)),
{
    let ghost s0 = *s;
    let deleted = match s.get_by_id_mut(id) {
        Some(rm) => {
            rm.delete();
            true
        },
        None => false,
    };
    proof {
        if let SearchResult::Found(i) = s0.spec_search(*id) {
            s0.lemma_search_bounds(*id);
            assert(s.spec_values() =~= s0.spec_values());
        }
        if deleted {
            assert(call_result(s0, StoreCall::DeleteRef(*id), *s));
        }
    }
    deleted
}

/// After a commit, a lookup of an id that waited alive among the pending
/// inserts gives its pending value, even where a dead slot hid it before; a
/// lookup of any other id gives what its live slot held, or nothing.
pub proof fn law_commit_lookups<T, M: Clone>(s1: Store<T, M>, s2: Store<T, M>, k: ObjectId)
    requires
        s1.wf(),
        s2.wf(),
        s1.commit_result(s2),
    ensures
        s2.lookup(k) == (if s1.pending_alive(k) {
            Some(s1.pending()[k].0)
        } else if s1.live_in_index(k) {
            Some(s1.spec_values()[insertion_point(s1.spec_keys(), k)])
        } else {
            None
        }),
{
    s2.lemma_lookup_all_alive(k);
}

impl<T, M: Default + Clone> Default for Store<T, M> {
    /// An empty store whose metadata is `M`'s default.
    fn default() -> (s: Self)
        ensures
            s.wf(),
            s.spec_keys().len() == 0,
            s.spec_values().len() == 0,
            s.spec_meta().len() == 0,
            s.pending() == Map::<ObjectId, (T, Meta<M>)>::empty(),
    {
        Store::new(M::default())
    }
}

} // verus!
