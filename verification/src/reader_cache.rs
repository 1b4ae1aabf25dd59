//! Reader cache: key (a path or URL) → opened reader, with a time-to-live and
//! a capacity above which the oldest insertion leaves. Times are monotonic
//! clock readings in nanoseconds that the caller supplies; opening a reader on
//! a miss is the caller's work.

use vstd::prelude::*;
use crate::assoc::{
    assoc_map, has_key, keys_unique, lemma_assoc_len, lemma_assoc_map, lemma_assoc_push, lemma_assoc_remove,
    lemma_assoc_update,
};

verus! {

/// Time elapsed from `since` to `now` (zero if the clock reads earlier).
pub open spec fn elapsed(now: u64, since: u64) -> int {
    if now >= since {
        now - since
    } else {
        0
    }
}

/// The entries of `m` that are younger than `ttl` at `now`.
pub open spec fn fresh_entries<V>(m: Map<Seq<char>, (V, u64)>, now: u64, ttl: u64) -> Map<
    Seq<char>,
    (V, u64),
> {
    Map::new(|k: Seq<char>| m.contains_key(k) && elapsed(now, m[k].1) < ttl, |k: Seq<char>| m[k])
}

/// A lookup of `key` at `now` finds an entry younger than the time-to-live
/// (caching is on when the time-to-live is positive).
pub open spec fn hits<V>(m: Map<Seq<char>, (V, u64)>, ttl: u64, key: Seq<char>, now: u64) -> bool {
    ttl > 0 && m.contains_key(key) && elapsed(now, m[key].1) < ttl
}

/// `after` is the entry map once a reader `value` was stored under `key` at
/// `now` into `before`: nothing changes with a time-to-live of zero; else the
/// stale entries leave, then, when the cache is full and `key` is new, one
/// oldest entry leaves, and the entry is inserted (replacing one with the same
/// key).
pub open spec fn stored<V>(
    before: Map<Seq<char>, (V, u64)>,
    ttl: u64,
    cap: usize,
    key: Seq<char>,
    value: V,
    now: u64,
    after: Map<Seq<char>, (V, u64)>,
) -> bool {
    &&& ttl == 0 ==> after == before
    &&& ttl > 0 ==> ({
        let f = fresh_entries(before, now, ttl);
        if f.dom().len() >= cap && !f.contains_key(key) && f.dom().len() > 0 {
            exists|v: Seq<char>| is_oldest(f, v) && after == f.remove(v).insert(key, (value, now))
        } else {
            after == f.insert(key, (value, now))
        }
    })
    &&& ttl > 0 ==> after.contains_key(key) && after[key] == (value, now)
}

/// `k` was inserted no later than any other entry of `m`.
pub open spec fn is_oldest<V>(m: Map<Seq<char>, (V, u64)>, k: Seq<char>) -> bool {
    &&& m.contains_key(k)
    &&& forall|k2: Seq<char>| #[trigger] m.contains_key(k2) ==> m[k].1 <= m[k2].1
}

/// Cache of opened readers by key.
pub struct ReaderCache<V> {
    ttl: u64,
    cap: usize,
    entries: Vec<(String, (V, u64))>,
}

/// The entry list with each key read as its characters.
pub open spec fn key_views<V>(s: Seq<(String, (V, u64))>) -> Seq<(Seq<char>, (V, u64))> {
    s.map_values(|e: (String, (V, u64))| (e.0@, e.1))
}

impl<V> ReaderCache<V> {
    /// Entries by key: the value and the time it was inserted.
    pub closed spec fn entries_map(&self) -> Map<Seq<char>, (V, u64)> {
        assoc_map(key_views(self.entries@))
    }

    pub closed spec fn time_to_live(&self) -> u64 {
        self.ttl
    }

    pub closed spec fn capacity(&self) -> usize {
        self.cap
    }

    /// Unique keys, and no more entries than the capacity (or one, when the
    /// capacity is zero).
    pub closed spec fn wf(&self) -> bool {
        &&& keys_unique(key_views(self.entries@))
        &&& self.entries@.len() <= if self.cap == 0 { 1 } else { self.cap as int }
    }

    /// Number of entries.
    pub closed spec fn size(&self) -> nat {
        self.entries@.len()
    }

    proof fn lemma_view(&self)
        requires
            keys_unique(key_views(self.entries@)),
        ensures
            self.entries_map().dom().finite(),
            self.entries_map().dom().len() == self.size(),
            forall|k: Seq<char>| #[trigger] self.entries_map().contains_key(k) <==> has_key(
                key_views(self.entries@),
                k,
            ),
            forall|i: int|
                0 <= i < self.entries@.len() ==> #[trigger] self.entries_map()[self.entries@[i].0@]
                    == self.entries@[i].1,
    {
        let kv = key_views(self.entries@);
        lemma_assoc_map(kv);
        assert forall|i: int| 0 <= i < self.entries@.len() implies #[trigger] self.entries_map()[self.entries@[i].0@]
            == self.entries@[i].1 by {
            assert(kv[i] == (self.entries@[i].0@, self.entries@[i].1));
        }
        lemma_assoc_len(kv);
    }

    /// An empty cache. A `ttl` of zero disables caching.
    pub fn new(ttl: u64, cap: usize) -> (c: Self)
        ensures
            c.wf(),
            c.entries_map() == Map::<Seq<char>, (V, u64)>::empty(),
            c.time_to_live() == ttl,
            c.capacity() == cap,
    {
        let c = ReaderCache { ttl, cap, entries: Vec::new() };
        proof {
            assert(key_views(c.entries@) =~= Seq::empty());
        }
        c
    }

    /// Index of the entry with key `key`.
    fn find(&self, key: &String) -> (r: Option<usize>)
        ensures
            r matches Some(i) ==> i < self.entries@.len() && self.entries@[i as int].0@ == key@,
            r is None ==> forall|j: int| 0 <= j < self.entries@.len() ==> self.entries@[j].0@ != key@,
    {
        let mut i: usize = 0;
        while i < self.entries.len()
            invariant
                i <= self.entries@.len(),
                forall|j: int| 0 <= j < i ==> self.entries@[j].0@ != key@,
            decreases self.entries@.len() - i,
        {
            if self.entries[i].0 == *key {
                return Some(i);
            }
            i = i + 1;
        }
        None
    }
}

impl<V> ReaderCache<V> {
    /// Removing an entry removes its key from the map.
    proof fn lemma_remove_at(s: Seq<(String, (V, u64))>, i: int)
        requires
            keys_unique(key_views(s)),
            0 <= i < s.len(),
        ensures
            key_views(s.remove(i)) == key_views(s).remove(i),
            keys_unique(key_views(s.remove(i))),
            assoc_map(key_views(s.remove(i))) == assoc_map(key_views(s)).remove(s[i].0@),
    {
        assert(key_views(s.remove(i)) =~= key_views(s).remove(i));
        lemma_assoc_remove(key_views(s), i);
    }

    /// Drops the entries that are not younger than the time-to-live at `now`.
    fn drop_stale(&mut self, now: u64)
        requires
            old(self).wf(),
        ensures
            final(self).wf(),
            final(self).time_to_live() == old(self).time_to_live(),
            final(self).capacity() == old(self).capacity(),
            final(self).size() <= old(self).size(),
            final(self).entries_map() == fresh_entries(old(self).entries_map(), now, old(self).time_to_live()),
    {
        let ghost m0 = self.entries_map();
        proof {
            self.lemma_view();
        }
        let mut i: usize = 0;
        while i < self.entries.len()
            invariant
                self.ttl == old(self).ttl,
                self.cap == old(self).cap,
                keys_unique(key_views(self.entries@)),
                self.entries@.len() <= old(self).entries@.len(),
                i <= self.entries@.len(),
                forall|k: Seq<char>| #[trigger] self.entries_map().contains_key(k) ==> m0.contains_key(k)
                    && self.entries_map()[k] == m0[k],
                forall|k: Seq<char>|
                    #[trigger] m0.contains_key(k) && elapsed(now, m0[k].1) < self.ttl
                        ==> self.entries_map().contains_key(k),
                forall|j: int| 0 <= j < i ==> elapsed(now, (#[trigger] self.entries@[j]).1.1) < self.ttl,
                m0 == old(self).entries_map(),
                m0.dom().finite(),
            decreases self.entries@.len() - i,
        {
            proof {
                self.lemma_view();
            }
            let ins = self.entries[i].1.1;
            let age = if now >= ins { now - ins } else { 0 };
            if age < self.ttl {
                i = i + 1;
            } else {
                let ghost s0 = self.entries@;
                let ghost k = s0[i as int].0@;
                proof {
                    Self::lemma_remove_at(s0, i as int);
                    assert(self.entries_map()[k] == s0[i as int].1);
                }
                self.entries.remove(i);
                proof {
                    let s1 = self.entries@;
                    assert(forall|j: int| 0 <= j < s1.len() ==> #[trigger] s1[j] == (if j < i { s0[j] } else { s0[j + 1] }));
                }
            }
        }
        proof {
            self.lemma_view();
            let f = fresh_entries(m0, now, self.ttl);
            assert forall|k: Seq<char>| #[trigger] self.entries_map().contains_key(k) implies elapsed(
                now,
                m0[k].1,
            ) < self.ttl by {
                let j = choose|j: int|
                    0 <= j < key_views(self.entries@).len() && key_views(self.entries@)[j].0 == k;
                assert(key_views(self.entries@)[j] == (self.entries@[j].0@, self.entries@[j].1));
                assert(self.entries_map()[self.entries@[j].0@] == self.entries@[j].1);
            }
            assert(self.entries_map() =~= f);
        }
    }

    /// Index of the entry inserted first.
    fn oldest_index(&self) -> (r: usize)
        requires
            self.entries@.len() > 0,
        ensures
            r < self.entries@.len(),
            forall|j: int| 0 <= j < self.entries@.len() ==> self.entries@[r as int].1.1 <= (
            #[trigger] self.entries@[j]).1.1,
    {
        let mut best: usize = 0;
        let mut i: usize = 1;
        while i < self.entries.len()
            invariant
                1 <= i <= self.entries@.len(),
                best < i,
                forall|j: int| 0 <= j < i ==> self.entries@[best as int].1.1 <= (
                #[trigger] self.entries@[j]).1.1,
            decreases self.entries@.len() - i,
        {
            if self.entries[i].1.1 < self.entries[best].1.1 {
                best = i;
            }
            i = i + 1;
        }
        best
    }

    /// Records a freshly opened reader under `key` at time `now`: stale
    /// entries leave; when the cache is full and `key` is new, the oldest
    /// insertion leaves; then the entry is inserted (replacing one with the
    /// same key). With a time-to-live of zero nothing is kept.
    pub fn store(&mut self, key: String, value: V, now: u64)
        requires
            old(self).wf(),
        ensures
            final(self).wf(),
            final(self).time_to_live() == old(self).time_to_live(),
            final(self).capacity() == old(self).capacity(),
            stored(
                old(self).entries_map(),
                old(self).time_to_live(),
                old(self).capacity(),
                key@,
                value,
                now,
                final(self).entries_map(),
            ),
    {
        if self.ttl == 0 {
            return;
        }
        self.drop_stale(now);
        let ghost f = self.entries_map();
        proof {
            self.lemma_view();
        }
        let existing = self.find(&key);
        if self.entries.len() >= self.cap && existing.is_none() && self.entries.len() > 0 {
            let o = self.oldest_index();
            let ghost s0 = self.entries@;
            let ghost v = s0[o as int].0@;
            proof {
                Self::lemma_remove_at(s0, o as int);
                assert(key_views(s0)[o as int] == (s0[o as int].0@, s0[o as int].1));
                assert(f.contains_key(v));
                assert(f[v] == s0[o as int].1);
                assert forall|k2: Seq<char>| #[trigger] f.contains_key(k2) implies f[v].1 <= f[k2].1 by {
                    let j = choose|j: int| 0 <= j < key_views(s0).len() && key_views(s0)[j].0 == k2;
                    assert(key_views(s0)[j] == (s0[j].0@, s0[j].1));
                    assert(f[s0[j].0@] == s0[j].1);
                }
                assert(is_oldest(f, v));
            }
            self.entries.remove(o);
            let ghost s1 = self.entries@;
            proof {
                assert(!has_key(key_views(s1), key@)) by {
                    if has_key(key_views(s1), key@) {
                        let j = choose|j: int| 0 <= j < key_views(s1).len() && key_views(s1)[j].0 == key@;
                        assert(key_views(s1)[j] == (s1[j].0@, s1[j].1));
                        let j2 = if j < o { j } else { j + 1 };
                        assert(s1[j] == s0[j2]);
                    }
                }
                lemma_assoc_push(key_views(s1), key@, (value, now));
            }
            self.entries.push((key, (value, now)));
            proof {
                assert(key_views(self.entries@) =~= key_views(s1).push((key@, (value, now))));
                assert(self.entries_map() == f.remove(v).insert(key@, (value, now)));
            }
        } else {
            match existing {
                Some(i) => {
                    let ghost s0 = self.entries@;
                    proof {
                        lemma_assoc_update(key_views(s0), i as int, (value, now));
                        assert(key_views(s0)[i as int].0 == key@);
                    }
                    self.entries.set(i, (key, (value, now)));
                    proof {
                        assert(key_views(self.entries@) =~= key_views(s0).update(
                            i as int,
                            (key_views(s0)[i as int].0, (value, now)),
                        ));
                    }
                },
                None => {
                    let ghost s0 = self.entries@;
                    proof {
                        assert(!has_key(key_views(s0), key@)) by {
                            if has_key(key_views(s0), key@) {
                                let j = choose|j: int|
                                    0 <= j < key_views(s0).len() && key_views(s0)[j].0 == key@;
                                assert(key_views(s0)[j] == (s0[j].0@, s0[j].1));
                            }
                        }
                        lemma_assoc_push(key_views(s0), key@, (value, now));
                    }
                    self.entries.push((key, (value, now)));
                    proof {
                        assert(key_views(self.entries@) =~= key_views(s0).push((key@, (value, now))));
                    }
                },
            }
        }
    }
}

impl<V: Clone> ReaderCache<V> {
    /// Completes an open after a missed lookup: an opened reader is stored
    /// under `key` at `now` and a clone of it is handed back; a failed open
    /// is handed back unchanged and nothing is stored.
    pub fn finish_open<E>(&mut self, key: String, opened: Result<V, E>, now: u64) -> (r: Result<V, E>)
        requires
            old(self).wf(),
        ensures
            final(self).wf(),
            final(self).time_to_live() == old(self).time_to_live(),
            final(self).capacity() == old(self).capacity(),
            opened matches Err(e) ==> r == Err::<V, E>(e) && final(self).entries_map() == old(
                self,
            ).entries_map(),
            opened matches Ok(v) ==> {
                &&& r matches Ok(c) && cloned(v, c)
                &&& stored(
                    old(self).entries_map(),
                    old(self).time_to_live(),
                    old(self).capacity(),
                    key@,
                    v,
                    now,
                    final(self).entries_map(),
                )
            },
    {
        match opened {
            Err(e) => Err(e),
            Ok(v) => {
                let c = v.clone();
                self.store(key, v, now);
                Ok(c)
            },
        }
    }

    /// The reader stored under `key`, if caching is on and the entry is
    /// younger than the time-to-live at `now`.
    pub fn lookup(&self, key: &String, now: u64) -> (r: Option<V>)
        requires
            self.wf(),
        ensures
            hits(self.entries_map(), self.time_to_live(), key@, now) ==> (r matches Some(v) && cloned(
                self.entries_map()[key@].0,
                v,
            )),
            !hits(self.entries_map(), self.time_to_live(), key@, now) ==> r is None,
    {
        proof {
            self.lemma_view();
        }
        if self.ttl == 0 {
            return None;
        }
        match self.find(key) {
            None => {
                proof {
                    if self.entries_map().contains_key(key@) {
                        let j = choose|j: int|
                            0 <= j < key_views(self.entries@).len() && key_views(self.entries@)[j].0
                                == key@;
                        assert(key_views(self.entries@)[j] == (self.entries@[j].0@, self.entries@[j].1));
                    }
                }
                None
            },
            Some(i) => {
                proof {
                    assert(key_views(self.entries@)[i as int] == (self.entries@[i as int].0@, self.entries@[i as int].1));
                    assert(self.entries_map().contains_key(key@));
                    assert(self.entries_map()[self.entries@[i as int].0@] == self.entries@[i as int].1);
                }
                let ins = self.entries[i].1.1;
                let age = if now >= ins { now - ins } else { 0 };
                if age < self.ttl {
                    Some(self.entries[i].1.0.clone())
                } else {
                    None
                }
            },
        }
    }
}

/// Read after write: the reader that `store` recorded under `key` at `stamp`
/// is what a lookup of `key` returns at any `now` less than the time-to-live
/// after `stamp`, so a second open of the same key within that time opens
/// nothing.
pub proof fn lemma_lookup_after_store<V>(c: &ReaderCache<V>, key: Seq<char>, value: V, stamp: u64, now: u64)
    requires
        c.time_to_live() > 0,
        c.entries_map().contains_key(key),
        c.entries_map()[key] == (value, stamp),
        elapsed(now, stamp) < c.time_to_live(),
    ensures
        hits(c.entries_map(), c.time_to_live(), key, now),
        c.entries_map()[key].0 == value,
{
}

/// A time-to-live of zero disables the cache: no lookup ever hits.
pub proof fn lemma_zero_ttl_never_hits<V>(c: &ReaderCache<V>, key: Seq<char>, now: u64)
    requires
        c.time_to_live() == 0,
    ensures
        !hits(c.entries_map(), c.time_to_live(), key, now),
{
}

/// Oldest out: when the fresh entries fill a cache of capacity one with key
/// `a`, storing another key `b` drops `a`, so reopening `a` afterwards misses
/// (a, b, a opens three times).
pub proof fn lemma_store_evicts_oldest<V>(
    before: Map<Seq<char>, (V, u64)>,
    ttl: u64,
    a: Seq<char>,
    b: Seq<char>,
    value: V,
    now: u64,
    after: Map<Seq<char>, (V, u64)>,
)
    requires
        ttl > 0,
        a != b,
        fresh_entries(before, now, ttl).dom() == set![a],
        stored(before, ttl, 1, b, value, now, after),
    ensures
        !after.contains_key(a),
        after.contains_key(b),
        after[b] == (value, now),
{
    let f = fresh_entries(before, now, ttl);
    assert(f.dom().len() == 1) by {
        assert(f.dom() =~= Set::empty().insert(a));
    }
    assert(!f.contains_key(b));
    let v = choose|v: Seq<char>| is_oldest(f, v) && after == f.remove(v).insert(b, (value, now));
    assert(f.contains_key(v));
    assert(v == a);
}

/// The cache never holds more readers than its capacity (one, when the
/// capacity is zero).
pub proof fn lemma_reader_cache_size<V>(c: &ReaderCache<V>)
    requires
        c.wf(),
    ensures
        c.entries_map().dom().finite(),
        c.entries_map().dom().len() <= if c.capacity() == 0 { 1 } else { c.capacity() as int },
{
    c.lemma_view();
}

} // verus!
