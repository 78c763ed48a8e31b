//! A self-organizing list to speed up linear searches when caching.
//!
//! A hit is moved one place toward the front ("transpose"), so that keys read
//! often drift to the front.  The list holds at most `ENTRIES` entries; once
//! it is full, a new entry replaces the last one.
use vstd::prelude::*;
use vstd::laws_eq::obeys_concrete_eq;
use vstd::std_specs::cmp::PartialEqSpec;

verus! {

/// A key and its cached value.
#[derive(Copy, Clone, Debug)]
struct Entry<K, V> {
    key: K,
    value: V,
}

/// A cache of at most `ENTRIES` key/value pairs, searched front to back.
#[derive(Debug)]
pub struct SelfOrganizingList<K, V, const ENTRIES: usize> {
    entries: Vec<Entry<K, V>>,
}

/// Whether `i` is the first position of `s` whose key is `k`.
pub open spec fn first_match<K, V>(s: Seq<(K, V)>, k: K, i: int) -> bool {
    &&& 0 <= i < s.len()
    &&& s[i].0 == k
    &&& forall|j: int| 0 <= j < i ==> #[trigger] s[j].0 != k
}

/// Whether some entry of `s` has the key `k`.
pub open spec fn has_key<K, V>(s: Seq<(K, V)>, k: K) -> bool {
    exists|j: int| 0 <= j < s.len() && #[trigger] s[j].0 == k
}

/// `s` with the entry at `i` swapped with the one before it, if any.
pub open spec fn transposed<A>(s: Seq<A>, i: int) -> Seq<A> {
    if i == 0 {
        s
    } else {
        s.update(i - 1, s[i]).update(i, s[i - 1])
    }
}

/// `s` with `(k, v)` added: pushed while there is room for `cap` entries,
/// else written over the last entry.
pub open spec fn added<K, V>(s: Seq<(K, V)>, k: K, v: V, cap: nat) -> Seq<(K, V)> {
    if s.len() < cap {
        s.push((k, v))
    } else {
        s.update(s.len() - 1, (k, v))
    }
}

impl<K, V, const ENTRIES: usize> SelfOrganizingList<K, V, ENTRIES> {
    /// The entries, front first, as key/value pairs.
    pub closed spec fn view(&self) -> Seq<(K, V)> {
        self.entries@.map_values(|e: Entry<K, V>| (e.key, e.value))
    }

    /// The list never holds more than `ENTRIES` entries.
    pub open spec fn wf(&self) -> bool {
        self.view().len() <= ENTRIES
    }
}

impl<K: Copy + Eq, V: Copy + Eq, const ENTRIES: usize> SelfOrganizingList<K, V, ENTRIES> {
    pub fn new() -> (l: Self)
        ensures
            l@ == Seq::<(K, V)>::empty(),
            l.wf(),
    {
        let l = SelfOrganizingList { entries: Vec::new() };
        proof {
            assert(l@ =~= Seq::<(K, V)>::empty());
        }
        l
    }

    /// Look `key` up.  A hit is moved one place toward the front.
    pub fn read_cache(&mut self, key: &K) -> (r: Option<V>)
        requires
            obeys_concrete_eq::<K>(),
        ensures
            match r {
                Some(v) => exists|i: int|
                    first_match(old(self)@, *key, i) && v == old(self)@[i].1 && final(self)@
                        == transposed(old(self)@, i),
                None => !has_key(old(self)@, *key) && final(self)@ == old(self)@,
            },
    {
        proof {
            reveal(obeys_concrete_eq);
        }
        let len = self.entries.len();
        let mut i: usize = 0;
        while i < len
            invariant
                K::obeys_eq_spec(),
                forall|x: K, y: K| x.eq_spec(&y) <==> x == y,
                len == self.entries@.len(),
                self.entries@ == old(self).entries@,
                0 <= i <= len,
                forall|j: int| 0 <= j < i ==> #[trigger] self@[j].0 != *key,
            decreases len - i,
        {
            proof {
                assert(self@[i as int] == (self.entries@[i as int].key, self.entries@[i as int].value));
            }
            if self.entries[i].key == *key {
                let ret = Some(self.entries[i].value);
                proof {
                    assert(first_match(old(self)@, *key, i as int));
                }
                self.transpose(i);
                return ret;
            }
            i = i + 1;
        }
        proof {
            assert forall|j: int| 0 <= j < old(self)@.len() implies #[trigger] old(self)@[j].0 != *key by {
                assert(self@[j].0 != *key);
            }
        }
        None
    }

    /// Swap the entry at `index` with the one before it, if any.
    fn transpose(&mut self, index: usize)
        requires
            index < old(self)@.len(),
        ensures
            final(self)@ == transposed(old(self)@, index as int),
            final(self).entries@.len() == old(self).entries@.len(),
    {
        if index == 0 {
            return;
        }
        let e1 = self.entries[index - 1];
        let e2 = self.entries[index];
        self.entries.set(index - 1, e2);
        self.entries.set(index, e1);
        proof {
            assert(self@ =~= transposed(old(self)@, index as int));
        }
    }

    /// Add an entry, replacing the last one when the list is full.
    pub fn add_to_cache(&mut self, key: K, value: V)
        requires
            ENTRIES > 0,
            old(self).wf(),
        ensures
            final(self)@ == added(old(self)@, key, value, ENTRIES as nat),
            final(self).wf(),
    {
        let ent = Entry { key, value };
        let len = self.entries.len();
        if len < ENTRIES {
            self.entries.push(ent);
        } else {
            self.entries.set(len - 1, ent);
        }
        proof {
            assert(self@ =~= added(old(self)@, key, value, ENTRIES as nat));
        }
    }

    /// Either read the cache or insert into it.  On a miss, `callback` gives
    /// the value to cache, or `None` to cache nothing.
    pub fn read_or_insert<F: Fn(&K) -> Option<V>>(&mut self, key: &K, callback: F) -> (r: Option<V>)
        requires
            ENTRIES > 0,
            old(self).wf(),
            obeys_concrete_eq::<K>(),
            callback.requires((key,)),
        ensures
            final(self).wf(),
            if has_key(old(self)@, *key) {
                exists|i: int|
                    first_match(old(self)@, *key, i) && r == Some(old(self)@[i].1) && final(self)@
                        == transposed(old(self)@, i)
            } else {
                &&& callback.ensures((key,), r)
                &&& r matches Some(v) ==> final(self)@ == added(old(self)@, *key, v, ENTRIES as nat)
                &&& r is None ==> final(self)@ == old(self)@
            },
    {
        if let Some(v) = self.read_cache(key) {
            return Some(v);
        }
        let nv = callback(key);
        match nv {
            Some(v) => {
                self.add_to_cache(*key, v);
                Some(v)
            },
            None => None,
        }
    }

    /// Empty the cache.
    pub fn clear(&mut self)
        ensures
            final(self)@ == Seq::<(K, V)>::empty(),
    {
        self.entries.clear();
        proof {
            assert(self@ =~= Seq::<(K, V)>::empty());
        }
    }

    /// The entries, front first, as key/value pairs.
    pub fn entries(&self) -> (r: Vec<(K, V)>)
        ensures
            r@ == self@,
    {
        let mut out: Vec<(K, V)> = Vec::new();
        let mut i: usize = 0;
        while i < self.entries.len()
            invariant
                0 <= i <= self.entries@.len(),
                out@ == self@.take(i as int),
            decreases self.entries@.len() - i,
        {
            let e = self.entries[i];
            out.push((e.key, e.value));
            proof {
                assert(out@ =~= self@.take(i + 1));
            }
            i = i + 1;
        }
        proof {
            assert(self@.take(self@.len() as int) =~= self@);
        }
        out
    }
}

impl<K: Copy + Eq, V: Copy + Eq, const ENTRIES: usize> Default for SelfOrganizingList<K, V, ENTRIES> {
    fn default() -> (l: Self)
        ensures
            l@ == Seq::<(K, V)>::empty(),
    {
        Self::new()
    }
}

/// No key occurs twice in `s`.
pub open spec fn keys_unique<K, V>(s: Seq<(K, V)>) -> bool {
    forall|i: int, j: int| 0 <= i < j < s.len() ==> s[i].0 != s[j].0
}

/// A key added to a list that lacked it is then found, with the value it was
/// added with.
pub proof fn law_added_key_found<K, V>(s: Seq<(K, V)>, k: K, v: V, cap: nat)
    requires
        cap > 0,
        s.len() <= cap,
        !has_key(s, k),
    ensures
        has_key(added(s, k, v, cap), k),
        exists|i: int| first_match(added(s, k, v, cap), k, i) && added(s, k, v, cap)[i].1 == v,
{
    let a = added(s, k, v, cap);
    let i = if s.len() < cap { s.len() as int } else { s.len() - 1 };
    assert forall|j: int| 0 <= j < i implies #[trigger] a[j].0 != k by {
        assert(a[j] == s[j]);
    }
    assert(first_match(a, k, i));
}

/// Moving an entry one place forward changes no lookup when keys are unique,
/// and keeps them unique.
pub proof fn law_transpose_keeps_lookups<K, V>(s: Seq<(K, V)>, i: int, k: K)
    requires
        keys_unique(s),
        0 <= i < s.len(),
    ensures
        keys_unique(transposed(s, i)),
        has_key(transposed(s, i), k) == has_key(s, k),
        forall|a: int, b: int|
            first_match(s, k, a) && first_match(transposed(s, i), k, b) ==> s[a].1 == transposed(
                s,
                i,
            )[b].1,
{
    let t = transposed(s, i);
    if i > 0 {
        assert forall|p: int, q: int| 0 <= p < q < t.len() implies t[p].0 != t[q].0 by {
            let pp = if p == i - 1 { i } else if p == i { i - 1 } else { p };
            let qq = if q == i - 1 { i } else if q == i { i - 1 } else { q };
            assert(t[p] == s[pp]);
            assert(t[q] == s[qq]);
            if pp < qq {
            } else {
                assert(s[qq].0 != s[pp].0);
            }
        }
        if has_key(s, k) {
            let j = choose|j: int| 0 <= j < s.len() && #[trigger] s[j].0 == k;
            let jj = if j == i - 1 { i } else if j == i { i - 1 } else { j };
            assert(t[jj] == s[j]);
        }
        if has_key(t, k) {
            let j = choose|j: int| 0 <= j < t.len() && #[trigger] t[j].0 == k;
            let jj = if j == i - 1 { i } else if j == i { i - 1 } else { j };
            assert(t[j] == s[jj]);
        }
        assert forall|a: int, b: int|
            first_match(s, k, a) && first_match(t, k, b) implies s[a].1 == t[b].1 by {
            let bb = if b == i - 1 { i } else if b == i { i - 1 } else { b };
            assert(t[b] == s[bb]);
            if a != bb {
                if a < bb {
                    assert(s[a].0 != s[bb].0);
                } else {
                    assert(s[bb].0 != s[a].0);
                }
            }
        }
    }
}

} // verus!
