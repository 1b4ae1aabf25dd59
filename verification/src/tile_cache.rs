//! Decoded-tile cache: a byte-budgeted LRU keyed by (reader, tile_x, tile_y),
//! with a claim protocol that lets concurrent callers of a cold tile settle on
//! a single fetch. This is the state machine; the locking, the waiting on a
//! pending fetch and the fetch itself belong to the caller, which performs the
//! action that each transition hands back.

use vstd::prelude::*;
use crate::assoc::{assoc_map, has_key, keys_unique, lemma_assoc_map, lemma_assoc_push, lemma_assoc_remove};

verus! {

/// Identifier that the cache issues to a reader; a reopened reader gets a new
/// one, so tiles of the old reader become unreachable.
#[derive(Clone, Copy, Debug, PartialEq, Eq, Structural, Hash, PartialOrd, Ord)]
pub struct ReaderId(u64);

impl ReaderId {
    /// The number behind the identifier.
    pub closed spec fn number(self) -> u64 {
        self.0
    }

    /// The number behind the identifier.
    pub fn get(&self) -> (n: u64)
        ensures
            n == self.number(),
    {
        self.0
    }
}

/// The number of the reader registered `i` registrations after the counter
/// stood at `start` (the counter wraps, as an atomic counter does).
pub open spec fn nth_reader(start: u64, i: nat) -> u64 {
    ((start as nat + i) % 0x1_0000_0000_0000_0000) as u64
}

/// Successive registrations hand out `nth_reader(start, 0)`,
/// `nth_reader(start, 1)`, …: each `register` moves the counter from one to
/// the next, and any 2^64 successive identifiers are pairwise distinct, so a
/// reader registered later is never served another reader's tiles.
pub proof fn lemma_register_sequence(start: u64, i: nat, j: nat)
    requires
        i < j < 0x1_0000_0000_0000_0000,
    ensures
        nth_reader(start, 0) == start,
        nth_reader(start, i).wrapping_add(1) == nth_reader(start, i + 1),
        nth_reader(start, i) != nth_reader(start, j),
{
    let m: int = 0x1_0000_0000_0000_0000;
    let a = start as int + i;
    let b = start as int + j;
    assert(0 < b - a < m);
    assert(a % m != b % m) by (nonlinear_arith)
        requires
            0 < b - a < m,
            m == 0x1_0000_0000_0000_0000,
            a >= 0,
    {
        if a % m == b % m {
            assert((b - a) % m == 0) by {
                vstd::arithmetic::div_mod::lemma_sub_mod_noop(b, a, m);
            }
        }
    }
    assert((a + 1) % m == if a % m + 1 == m { 0 } else { a % m + 1 }) by {
        vstd::arithmetic::div_mod::lemma_add_mod_noop(a, 1, m);
    }
}

/// Cache key: a tile of level 0 of one reader.
#[derive(Clone, Copy, Debug, PartialEq, Eq, Structural, Hash)]
pub struct TileKey {
    pub reader: ReaderId,
    pub tile_x: usize,
    pub tile_y: usize,
}

/// What the cache holds for a key: a decoded tile, or a fetch in progress
/// together with the handle its waiters wait on.
pub enum Slot<V, W> {
    Ready { value: V, bytes: usize, last_used: u64 },
    Pending(W),
}

/// Outcome of claiming a key.
pub enum Claim<V, W> {
    /// The tile is resident; here is (a clone of) it.
    Hit(V),
    /// Another caller is fetching it; wait on this handle, then claim again.
    Wait(W),
    /// Nobody has it: the caller must fetch it and then either `fulfill` or
    /// `abort` the key.
    Mine,
}

/// Counter snapshot of a cache.
#[derive(Clone, Copy, Debug, PartialEq, Eq)]
pub struct TileCacheStats {
    pub hits: u64,
    pub misses: u64,
    pub evictions: u64,
    pub bytes: usize,
    pub max_bytes: usize,
}

/// `x + n`, held at `u64::MAX`.
pub open spec fn sat_add(x: u64, n: nat) -> u64 {
    if x + n > u64::MAX {
        u64::MAX
    } else {
        (x + n) as u64
    }
}

/// `k` holds a resident tile in `m`.
pub open spec fn ready_in<V, W>(m: Map<TileKey, Slot<V, W>>, k: TileKey) -> bool {
    m.contains_key(k) && m[k] is Ready
}

/// `k` is the least recently used resident tile of `m`.
pub open spec fn is_lru<V, W>(m: Map<TileKey, Slot<V, W>>, k: TileKey) -> bool {
    &&& ready_in(m, k)
    &&& forall|k2: TileKey| #[trigger] ready_in(m, k2) ==> m[k]->last_used <= m[k2]->last_used
}

/// A finite map with a resident tile has a least recently used one.
pub proof fn lemma_lru_exists<V, W>(m: Map<TileKey, Slot<V, W>>, k0: TileKey)
    requires
        m.dom().finite(),
        ready_in(m, k0),
    ensures
        exists|k: TileKey| is_lru(m, k),
    decreases m.dom().len(),
{
    let rest = m.remove(k0);
    if exists|k1: TileKey| ready_in(rest, k1) {
        let k1 = choose|k1: TileKey| ready_in(rest, k1);
        lemma_lru_exists(rest, k1);
        let k2 = choose|k: TileKey| is_lru(rest, k);
        if m[k0]->last_used <= m[k2]->last_used {
            assert forall|k3: TileKey| #[trigger] ready_in(m, k3) implies m[k0]->last_used
                <= m[k3]->last_used by {
                if k3 != k0 {
                    assert(ready_in(rest, k3));
                }
            }
            assert(is_lru(m, k0));
        } else {
            assert forall|k3: TileKey| #[trigger] ready_in(m, k3) implies m[k2]->last_used
                <= m[k3]->last_used by {
                if k3 != k0 {
                    assert(ready_in(rest, k3));
                }
            }
            assert(is_lru(m, k2));
        }
    } else {
        assert forall|k3: TileKey| #[trigger] ready_in(m, k3) implies m[k0]->last_used
            <= m[k3]->last_used by {
            if k3 != k0 {
                assert(ready_in(rest, k3));
            }
        }
        assert(is_lru(m, k0));
    }
}

/// Evicts least recently used tiles from `m`, whose resident size is counted
/// as `used`, until `used <= budget` or nothing resident is left. Returns the
/// remaining map, the remaining count and the number of evictions.
pub open spec fn evict_lru<V, W>(m: Map<TileKey, Slot<V, W>>, used: int, budget: int) -> (
    Map<TileKey, Slot<V, W>>,
    int,
    nat,
)
    decreases m.dom().len(),
    when m.dom().finite()
{
    if used <= budget {
        (m, used, 0)
    } else if exists|k: TileKey| ready_in(m, k) {
        proof {
            lemma_lru_exists(m, choose|k: TileKey| ready_in(m, k));
        }
        let k = choose|k: TileKey| is_lru(m, k);
        let r = evict_lru(m.remove(k), used - m[k]->bytes, budget);
        (r.0, r.1, r.2 + 1)
    } else {
        (m, used, 0)
    }
}

/// Eviction settles the budget, removes only resident tiles, keeps the
/// values of what it keeps, evicts older tiles before newer ones, and counts
/// one eviction per removed key.
pub proof fn lemma_evict_lru<V, W>(m: Map<TileKey, Slot<V, W>>, used: int, budget: int)
    requires
        m.dom().finite(),
    ensures
        ({
            let r = evict_lru(m, used, budget);
            &&& r.1 <= budget || forall|k: TileKey| !ready_in(r.0, k)
            &&& r.0.dom().finite()
            &&& forall|k: TileKey| #[trigger] r.0.contains_key(k) ==> m.contains_key(k) && r.0[k] == m[k]
            &&& forall|k: TileKey|
                m.contains_key(k) && !(m[k] is Ready) ==> #[trigger] r.0.contains_key(k)
            &&& forall|k: TileKey, k2: TileKey|
                #[trigger] m.contains_key(k) && !r.0.contains_key(k) && #[trigger] ready_in(r.0, k2)
                    ==> m[k] is Ready && m[k]->last_used <= m[k2]->last_used
            &&& r.2 + r.0.dom().len() == m.dom().len()
            &&& used <= budget ==> r == (m, used, 0nat)
        }),
    decreases m.dom().len(),
{
    let r = evict_lru(m, used, budget);
    if used <= budget {
    } else if exists|k: TileKey| ready_in(m, k) {
        lemma_lru_exists(m, choose|k: TileKey| ready_in(m, k));
        let k = choose|k: TileKey| is_lru(m, k);
        let m1 = m.remove(k);
        lemma_evict_lru(m1, used - m[k]->bytes, budget);
        let r1 = evict_lru(m1, used - m[k]->bytes, budget);
        assert(r == (r1.0, r1.1, r1.2 + 1));
        assert forall|a: TileKey, b: TileKey|
            #[trigger] m.contains_key(a) && !r.0.contains_key(a) && #[trigger] ready_in(r.0, b) implies m[a] is Ready
            && m[a]->last_used <= m[b]->last_used by {
            assert(ready_in(m1, b));
            assert(ready_in(m, b));
            if a != k {
                assert(m1.contains_key(a));
            }
        }
    } else {
    }
}

/// Sum of the sizes of the resident tiles of an entry list.
pub open spec fn ready_sum<V, W>(s: Seq<(TileKey, Slot<V, W>)>) -> int
    decreases s.len(),
{
    if s.len() == 0 {
        0
    } else {
        ready_sum(s.drop_last()) + match s.last().1 {
            Slot::Ready { bytes, .. } => bytes as int,
            Slot::Pending(_) => 0,
        }
    }
}

/// Size that an entry contributes to the resident total.
pub open spec fn entry_bytes<V, W>(e: (TileKey, Slot<V, W>)) -> int {
    match e.1 {
        Slot::Ready { bytes, .. } => bytes as int,
        Slot::Pending(_) => 0,
    }
}

proof fn lemma_ready_sum_push<V, W>(s: Seq<(TileKey, Slot<V, W>)>, e: (TileKey, Slot<V, W>))
    ensures
        ready_sum(s.push(e)) == ready_sum(s) + entry_bytes(e),
{
    assert(s.push(e).drop_last() == s);
}

proof fn lemma_ready_sum_nonneg<V, W>(s: Seq<(TileKey, Slot<V, W>)>)
    ensures
        ready_sum(s) >= 0,
    decreases s.len(),
{
    if s.len() > 0 {
        lemma_ready_sum_nonneg(s.drop_last());
    }
}

proof fn lemma_ready_sum_remove<V, W>(s: Seq<(TileKey, Slot<V, W>)>, i: int)
    requires
        0 <= i < s.len(),
    ensures
        ready_sum(s.remove(i)) == ready_sum(s) - entry_bytes(s[i]),
    decreases s.len(),
{
    if i == s.len() - 1 {
        assert(s.remove(i) == s.drop_last());
    } else {
        let t = s.drop_last();
        lemma_ready_sum_remove(t, i);
        assert(s.remove(i) == t.remove(i).push(s.last()));
        lemma_ready_sum_push(t.remove(i), s.last());
    }
}

proof fn lemma_ready_sum_single<V, W>(s: Seq<(TileKey, Slot<V, W>)>, i: int)
    requires
        0 <= i < s.len(),
        forall|j: int| 0 <= j < s.len() && j != i ==> !((#[trigger] s[j]).1 is Ready),
    ensures
        ready_sum(s) == entry_bytes(s[i]),
    decreases s.len(),
{
    if i == s.len() - 1 {
        lemma_ready_sum_zero(s.drop_last());
    } else {
        let t = s.drop_last();
        assert(forall|j: int| 0 <= j < t.len() ==> #[trigger] t[j] == s[j]);
        lemma_ready_sum_single(t, i);
    }
}

proof fn lemma_ready_sum_zero<V, W>(s: Seq<(TileKey, Slot<V, W>)>)
    requires
        forall|j: int| 0 <= j < s.len() ==> !((#[trigger] s[j]).1 is Ready),
    ensures
        ready_sum(s) == 0,
    decreases s.len(),
{
    if s.len() > 0 {
        let t = s.drop_last();
        assert(forall|j: int| 0 <= j < t.len() ==> #[trigger] t[j] == s[j]);
        lemma_ready_sum_zero(t);
    }
}

/// The state of a tile cache. `V` is the decoded tile, `W` the handle that
/// waiters of a pending fetch wait on.
pub struct TileCache<V, W> {
    entries: Vec<(TileKey, Slot<V, W>)>,
    used: usize,
    tick: u64,
    max_bytes: usize,
    next_id: u64,
    hits: u64,
    misses: u64,
    evictions: u64,
}

impl<V, W> TileCache<V, W> {
    /// Slots by key.
    pub closed spec fn slots(&self) -> Map<TileKey, Slot<V, W>> {
        assoc_map(self.entries@)
    }

    /// The resident-bytes counter.
    pub closed spec fn used(&self) -> int {
        self.used as int
    }

    /// The use clock: bumped by every claim and every fulfil.
    pub closed spec fn clock(&self) -> u64 {
        self.tick
    }

    /// The byte budget.
    pub closed spec fn budget(&self) -> usize {
        self.max_bytes
    }

    /// The number the next registered reader gets.
    pub closed spec fn next_reader(&self) -> u64 {
        self.next_id
    }

    pub closed spec fn hit_count(&self) -> u64 {
        self.hits
    }

    pub closed spec fn miss_count(&self) -> u64 {
        self.misses
    }

    pub closed spec fn eviction_count(&self) -> u64 {
        self.evictions
    }

    /// Total size of the resident tiles.
    pub closed spec fn resident_bytes(&self) -> int {
        ready_sum(self.entries@)
    }

    /// The resident-bytes counter equals the size of the resident tiles.
    pub open spec fn exact(&self) -> bool {
        self.used() == self.resident_bytes()
    }

    /// Internal consistency: unique keys, a counter that covers the resident
    /// tiles, use stamps that are distinct and not ahead of the clock.
    pub closed spec fn wf(&self) -> bool {
        &&& keys_unique(self.entries@)
        &&& self.used as int >= ready_sum(self.entries@)
        &&& forall|i: int|
            0 <= i < self.entries@.len() && (#[trigger] self.entries@[i]).1 is Ready
                ==> self.entries@[i].1->last_used <= self.tick
        &&& forall|i: int, j: int|
            0 <= i < self.entries@.len() && 0 <= j < self.entries@.len() && i != j
                && (#[trigger] self.entries@[i]).1 is Ready && (#[trigger] self.entries@[j]).1 is Ready
                ==> self.entries@[i].1->last_used != self.entries@[j].1->last_used
    }

    /// An empty cache with a budget of `max_bytes`.
    pub fn new(max_bytes: usize) -> (c: Self)
        ensures
            c.wf(),
            c.exact(),
            c.slots() == Map::<TileKey, Slot<V, W>>::empty(),
            c.used() == 0,
            c.clock() == 0,
            c.budget() == max_bytes,
            c.next_reader() == 0,
            c.hit_count() == 0,
            c.miss_count() == 0,
            c.eviction_count() == 0,
    {
        TileCache {
            entries: Vec::new(),
            used: 0,
            tick: 0,
            max_bytes,
            next_id: 0,
            hits: 0,
            misses: 0,
            evictions: 0,
        }
    }

    /// Issues a reader identifier: the current number, then the counter moves
    /// on (wrapping, as an atomic counter does).
    pub fn register(&mut self) -> (id: ReaderId)
        ensures
            id.number() == old(self).next_reader(),
            final(self).next_reader() == old(self).next_reader().wrapping_add(1),
            final(self).slots() == old(self).slots(),
            final(self).used() == old(self).used(),
            final(self).clock() == old(self).clock(),
            final(self).budget() == old(self).budget(),
            final(self).hit_count() == old(self).hit_count(),
            final(self).miss_count() == old(self).miss_count(),
            final(self).eviction_count() == old(self).eviction_count(),
            final(self).resident_bytes() == old(self).resident_bytes(),
            old(self).wf() ==> final(self).wf(),
    {
        let id = ReaderId(self.next_id);
        self.next_id = self.next_id.wrapping_add(1);
        id
    }

    /// The use clock.
    pub fn clock_value(&self) -> (t: u64)
        ensures
            t == self.clock(),
    {
        self.tick
    }

    /// Counter snapshot.
    pub fn stats(&self) -> (s: TileCacheStats)
        ensures
            s.hits == self.hit_count(),
            s.misses == self.miss_count(),
            s.evictions == self.eviction_count(),
            s.bytes == self.used(),
            s.max_bytes == self.budget(),
    {
        TileCacheStats {
            hits: self.hits,
            misses: self.misses,
            evictions: self.evictions,
            bytes: self.used,
            max_bytes: self.max_bytes,
        }
    }

    /// Index of the resident entry with the oldest use stamp.
    fn lru_index(&self) -> (r: Option<usize>)
        ensures
            r matches Some(i) ==> {
                &&& i < self.entries@.len()
                &&& self.entries@[i as int].1 is Ready
                &&& forall|j: int|
                    0 <= j < self.entries@.len() && (#[trigger] self.entries@[j]).1 is Ready
                        ==> self.entries@[i as int].1->last_used <= self.entries@[j].1->last_used
            },
            r is None ==> forall|j: int|
                0 <= j < self.entries@.len() ==> !((#[trigger] self.entries@[j]).1 is Ready),
    {
        let mut best: Option<usize> = None;
        let mut best_used: u64 = 0;
        let mut i: usize = 0;
        while i < self.entries.len()
            invariant
                i <= self.entries@.len(),
                best matches Some(b) ==> {
                    &&& b < i
                    &&& self.entries@[b as int].1 is Ready
                    &&& self.entries@[b as int].1->last_used == best_used
                    &&& forall|j: int|
                        0 <= j < i && (#[trigger] self.entries@[j]).1 is Ready ==> best_used
                            <= self.entries@[j].1->last_used
                },
                best is None ==> forall|j: int|
                    0 <= j < i ==> !((#[trigger] self.entries@[j]).1 is Ready),
            decreases self.entries@.len() - i,
        {
            match &self.entries[i].1 {
                Slot::Ready { last_used, .. } => {
                    if best.is_none() || *last_used < best_used {
                        best = Some(i);
                        best_used = *last_used;
                    }
                },
                Slot::Pending(_) => {},
            }
            i = i + 1;
        }
        best
    }

    /// Index of the entry with key `key`.
    fn find(&self, key: TileKey) -> (r: Option<usize>)
        ensures
            r matches Some(i) ==> i < self.entries@.len() && self.entries@[i as int].0 == key,
            r is None ==> !has_key(self.entries@, key),
    {
        let mut i: usize = 0;
        while i < self.entries.len()
            invariant
                i <= self.entries@.len(),
                forall|j: int| 0 <= j < i ==> self.entries@[j].0 != key,
            decreases self.entries@.len() - i,
        {
            if self.entries[i].0 == key {
                return Some(i);
            }
            i = i + 1;
        }
        None
    }
}


/// What `claim(key, fresh)` does: it takes the cache from `c0` to `c1` and
/// answers `r`. A resident tile is a hit (a clone of its value) and becomes
/// the most recently used; a pending one hands back (a clone of) its wait
/// handle; an absent one becomes pending with `fresh` as its handle, and the
/// caller must fetch it.
pub open spec fn claim_step<V: Clone, W: Clone>(
    c0: TileCache<V, W>,
    key: TileKey,
    fresh: W,
    r: Claim<V, W>,
    c1: TileCache<V, W>,
) -> bool {
    &&& c1.wf()
    &&& c1.clock() == c0.clock() + 1
    &&& c1.used() == c0.used()
    &&& c1.resident_bytes() == c0.resident_bytes()
    &&& c1.budget() == c0.budget()
    &&& c1.next_reader() == c0.next_reader()
    &&& c1.eviction_count() == c0.eviction_count()
    &&& ready_in(c0.slots(), key) ==> {
        &&& r matches Claim::Hit(v) && cloned(c0.slots()[key]->value, v)
        &&& c1.slots() == c0.slots().insert(
            key,
            Slot::Ready {
                value: c0.slots()[key]->value,
                bytes: c0.slots()[key]->bytes,
                last_used: (c0.clock() + 1) as u64,
            },
        )
        &&& c1.hit_count() == sat_add(c0.hit_count(), 1)
        &&& c1.miss_count() == c0.miss_count()
    }
    &&& c0.slots().contains_key(key) && c0.slots()[key] is Pending ==> {
        &&& r matches Claim::Wait(w) && cloned(c0.slots()[key]->Pending_0, w)
        &&& c1.slots() == c0.slots()
        &&& c1.hit_count() == c0.hit_count()
        &&& c1.miss_count() == c0.miss_count()
    }
    &&& !c0.slots().contains_key(key) ==> {
        &&& r is Mine
        &&& c1.slots() == c0.slots().insert(key, Slot::Pending(fresh))
        &&& c1.hit_count() == c0.hit_count()
        &&& c1.miss_count() == sat_add(c0.miss_count(), 1)
    }
}

/// What `fulfill(key, value, bytes)` does: it takes the cache from `c0` to
/// `c1` and answers `r`. The tile is stored as the most recently used, then
/// least recently used tiles are evicted while the resident bytes exceed the
/// budget; the pending handle of the key, if any, is handed back so that its
/// waiters can be woken. Stored on an exact counter for a key that held no
/// resident tile, the counter stays exact, and a tile larger than the budget
/// leaves nothing resident (it is the newest, so it goes last, after every
/// other tile); afterwards the resident bytes are within the budget unless no
/// tile is resident.
pub open spec fn fulfill_step<V, W>(
    c0: TileCache<V, W>,
    key: TileKey,
    value: V,
    bytes: usize,
    r: Option<W>,
    c1: TileCache<V, W>,
) -> bool {
    &&& c1.wf()
    &&& ({
        let m0 = c0.slots().insert(
            key,
            Slot::Ready { value, bytes, last_used: (c0.clock() + 1) as u64 },
        );
        let ev = evict_lru(m0, c0.used() + bytes, c0.budget() as int);
        &&& c1.slots() == ev.0
        &&& c1.used() == ev.1
        &&& c1.eviction_count() == sat_add(c0.eviction_count(), ev.2)
    })
    &&& c1.clock() == c0.clock() + 1
    &&& c1.budget() == c0.budget()
    &&& c1.next_reader() == c0.next_reader()
    &&& c1.hit_count() == c0.hit_count()
    &&& c1.miss_count() == c0.miss_count()
    &&& c0.slots().contains_key(key) && c0.slots()[key] is Pending ==> r == Some(
        c0.slots()[key]->Pending_0,
    )
    &&& !(c0.slots().contains_key(key) && c0.slots()[key] is Pending) ==> r is None
    &&& c0.exact() && !ready_in(c0.slots(), key) ==> c1.exact()
    &&& c0.exact() && !ready_in(c0.slots(), key) && bytes <= c0.budget() ==> ready_in(
        c1.slots(),
        key,
    )
    &&& c0.exact() && !ready_in(c0.slots(), key) && bytes > c0.budget() ==> forall|k: TileKey|
        !ready_in(c1.slots(), k)
    &&& c1.slots().dom().finite()
    &&& c1.used() <= c1.budget() || forall|k: TileKey| !ready_in(c1.slots(), k)
}

impl<V: Clone, W: Clone> TileCache<V, W> {
    /// Claims `key`: a resident tile is a hit (and becomes the most recently
    /// used); a pending one hands back the handle to wait on; an absent one
    /// becomes pending with `fresh` as its handle and the caller must fetch it.
    pub fn claim(&mut self, key: TileKey, fresh: W) -> (r: Claim<V, W>)
        requires
            old(self).wf(),
            old(self).clock() < u64::MAX,
        ensures
            claim_step(*old(self), key, fresh, r, *final(self)),
    {
        proof {
            lemma_assoc_map(self.entries@);
        }
        self.tick = self.tick + 1;
        let t = self.tick;
        match self.find(key) {
            None => {
                proof {
                    lemma_assoc_push(self.entries@, key, Slot::Pending(fresh));
                    lemma_ready_sum_push(self.entries@, (key, Slot::Pending(fresh)));
                }
                let ghost s0 = self.entries@;
                self.entries.push((key, Slot::Pending(fresh)));
                proof {
                    assert forall|j: int| 0 <= j < s0.len() implies #[trigger] self.entries@[j]
                        == s0[j] by {}
                    assert(self.slots() =~= old(self).slots().insert(key, Slot::Pending(fresh)));
                }
                if self.misses < u64::MAX {
                    self.misses = self.misses + 1;
                }
                Claim::Mine
            },
            Some(i) => {
                let ready = match &self.entries[i].1 {
                    Slot::Ready { .. } => true,
                    Slot::Pending(_) => false,
                };
                if !ready {
                    let w = match &self.entries[i].1 {
                        Slot::Pending(w) => w.clone(),
                        Slot::Ready { .. } => {
                            proof {
                                assert(false);
                            }
                            fresh
                        },
                    };
                    return Claim::Wait(w);
                }
                let ghost s0 = self.entries@;
                proof {
                    lemma_assoc_remove(s0, i as int);
                    lemma_ready_sum_remove(s0, i as int);
                }
                let (k, slot) = self.entries.remove(i);
                match slot {
                    Slot::Ready { value, bytes, last_used: _ } => {
                        let out = value.clone();
                        let ghost s1 = self.entries@;
                        let e = (k, Slot::Ready { value, bytes, last_used: t });
                        proof {
                            assert(!has_key(s1, key)) by {
                                if has_key(s1, key) {
                                    let j = choose|j: int| 0 <= j < s1.len() && s1[j].0 == key;
                                    let j2 = if j < i { j } else { j + 1 };
                                    assert(s1[j] == s0[j2]);
                                }
                            }
                            lemma_assoc_push(s1, key, e.1);
                            lemma_ready_sum_push(s1, e);
                        }
                        self.entries.push(e);
                        proof {
                            let s2 = self.entries@;
                            assert forall|j: int| 0 <= j < s2.len() && (#[trigger] s2[j]).1 is Ready
                                implies s2[j].1->last_used <= self.tick by {
                                if j < s1.len() {
                                    let j2 = if j < i { j } else { j + 1 };
                                    assert(s2[j] == s0[j2]);
                                }
                            }
                            assert forall|a: int, b: int|
                                0 <= a < s2.len() && 0 <= b < s2.len() && a != b
                                    && (#[trigger] s2[a]).1 is Ready && (#[trigger] s2[b]).1 is Ready
                                    implies s2[a].1->last_used != s2[b].1->last_used by {
                                let a2 = if a < i { a } else { a + 1 };
                                let b2 = if b < i { b } else { b + 1 };
                                if a < s1.len() {
                                    assert(s2[a] == s0[a2]);
                                }
                                if b < s1.len() {
                                    assert(s2[b] == s0[b2]);
                                }
                            }
                            assert(old(self).slots()[key] == s0[i as int].1);
                            assert(self.slots() =~= old(self).slots().insert(
                                key,
                                Slot::Ready {
                                    value: old(self).slots()[key]->value,
                                    bytes: old(self).slots()[key]->bytes,
                                    last_used: t,
                                },
                            ));
                        }
                        if self.hits < u64::MAX {
                            self.hits = self.hits + 1;
                        }
                        Claim::Hit(out)
                    },
                    Slot::Pending(_) => {
                        proof {
                            assert(false);
                        }
                        Claim::Mine
                    },
                }
            },
        }
    }

    /// Gives up a pending key after a failed fetch; hands back its wait
    /// handle so the caller can wake the waiters. A resident or absent key is
    /// left as it is.
    pub fn abort(&mut self, key: TileKey) -> (r: Option<W>)
        requires
            old(self).wf(),
        ensures
            final(self).wf(),
            final(self).clock() == old(self).clock(),
            final(self).used() == old(self).used(),
            final(self).resident_bytes() == old(self).resident_bytes(),
            final(self).budget() == old(self).budget(),
            final(self).next_reader() == old(self).next_reader(),
            final(self).hit_count() == old(self).hit_count(),
            final(self).miss_count() == old(self).miss_count(),
            final(self).eviction_count() == old(self).eviction_count(),
            old(self).slots().contains_key(key) && old(self).slots()[key] is Pending ==> {
                &&& r == Some(old(self).slots()[key]->Pending_0)
                &&& final(self).slots() == old(self).slots().remove(key)
            },
            !(old(self).slots().contains_key(key) && old(self).slots()[key] is Pending) ==> {
                &&& r is None
                &&& final(self).slots() == old(self).slots()
            },
    {
        proof {
            lemma_assoc_map(self.entries@);
        }
        match self.find(key) {
            None => None,
            Some(i) => {
                let pending = match &self.entries[i].1 {
                    Slot::Ready { .. } => false,
                    Slot::Pending(_) => true,
                };
                if !pending {
                    return None;
                }
                let ghost s0 = self.entries@;
                proof {
                    lemma_assoc_remove(s0, i as int);
                    lemma_ready_sum_remove(s0, i as int);
                }
                let (_, slot) = self.entries.remove(i);
                proof {
                    let s1 = self.entries@;
                    assert(forall|j: int| 0 <= j < s1.len() ==> #[trigger] s1[j] == (if j < i { s0[j] } else { s0[j + 1] }));
                    assert(old(self).slots()[key] == s0[i as int].1);
                }
                match slot {
                    Slot::Pending(w) => Some(w),
                    Slot::Ready { .. } => None,
                }
            },
        }
    }
}


impl<V, W> TileCache<V, W> {
    /// The entry list's map is finite and its resident keys are exactly the
    /// resident entries.
    proof fn lemma_slots(&self)
        requires
            self.wf(),
        ensures
            self.slots().dom().finite(),
            forall|k: TileKey| #[trigger] self.slots().contains_key(k) <==> has_key(self.entries@, k),
            forall|i: int|
                0 <= i < self.entries@.len() ==> #[trigger] self.slots()[self.entries@[i].0]
                    == self.entries@[i].1,
    {
        lemma_assoc_map(self.entries@);
    }

    /// No resident tile carries a use stamp ahead of the clock.
    proof fn lemma_stamps(&self)
        requires
            self.wf(),
        ensures
            forall|k: TileKey| #[trigger] ready_in(self.slots(), k) ==> self.slots()[k]->last_used
                <= self.clock(),
    {
        self.lemma_slots();
        assert forall|k: TileKey| #[trigger] ready_in(self.slots(), k) implies self.slots()[k]->last_used
            <= self.clock() by {
            let j = choose|j: int| 0 <= j < self.entries@.len() && self.entries@[j].0 == k;
            assert(self.slots()[self.entries@[j].0] == self.entries@[j].1);
        }
    }

    /// A well-formed cache holds finitely many slots (so `evict_lru` and
    /// `lemma_evict_lru` speak of its slot map).
    pub proof fn lemma_slots_finite(&self)
        requires
            self.wf(),
        ensures
            self.slots().dom().finite(),
    {
        self.lemma_slots();
    }

    /// The resident entry at `i` is the unique least recently used key.
    proof fn lemma_lru_unique(&self, i: int)
        requires
            self.wf(),
            0 <= i < self.entries@.len(),
            self.entries@[i].1 is Ready,
            forall|j: int|
                0 <= j < self.entries@.len() && (#[trigger] self.entries@[j]).1 is Ready
                    ==> self.entries@[i].1->last_used <= self.entries@[j].1->last_used,
        ensures
            is_lru(self.slots(), self.entries@[i].0),
            (choose|k: TileKey| is_lru(self.slots(), k)) == self.entries@[i].0,
    {
        self.lemma_slots();
        let m = self.slots();
        let k = self.entries@[i].0;
        assert forall|k2: TileKey| #[trigger] ready_in(m, k2) implies m[k]->last_used
            <= m[k2]->last_used by {
            let j = choose|j: int| 0 <= j < self.entries@.len() && self.entries@[j].0 == k2;
            assert(m[self.entries@[j].0] == self.entries@[j].1);
        }
        assert(is_lru(m, k));
        let c = choose|k: TileKey| is_lru(m, k);
        assert(is_lru(m, c));
        let j = choose|j: int| 0 <= j < self.entries@.len() && self.entries@[j].0 == c;
        assert(m[self.entries@[j].0] == self.entries@[j].1);
        if j != i {
            assert(ready_in(m, c));
            assert(ready_in(m, k));
            assert(self.entries@[j].1->last_used == self.entries@[i].1->last_used);
        }
    }
}

impl<V, W> TileCache<V, W> {
    /// Stores the fetched tile of a claimed key and wakes its waiters (hands
    /// back the pending handle, if the key was pending); then evicts least
    /// recently used tiles while the resident bytes exceed the budget. A tile
    /// larger than the budget is evicted at once.
    pub fn fulfill(&mut self, key: TileKey, value: V, bytes: usize) -> (r: Option<W>)
        requires
            old(self).wf(),
            old(self).clock() < u64::MAX,
            old(self).used() + bytes <= usize::MAX,
        ensures
            fulfill_step(*old(self), key, value, bytes, r, *final(self)),
    {
        proof {
            self.lemma_slots();
        }
        self.tick = self.tick + 1;
        let t = self.tick;
        let ghost was_exact = self.used as int == ready_sum(self.entries@);
        let prev = match self.find(key) {
            None => None,
            Some(i) => {
                let ghost s0 = self.entries@;
                proof {
                    lemma_assoc_remove(s0, i as int);
                    lemma_ready_sum_remove(s0, i as int);
                    lemma_ready_sum_nonneg(s0.remove(i as int));
                    assert(old(self).slots()[key] == s0[i as int].1);
                }
                let (_, slot) = self.entries.remove(i);
                proof {
                    let s1 = self.entries@;
                    assert(forall|j: int| 0 <= j < s1.len() ==> #[trigger] s1[j] == (if j < i { s0[j] } else { s0[j + 1] }));
                }
                match slot {
                    Slot::Pending(w) => Some(w),
                    Slot::Ready { .. } => None,
                }
            },
        };
        let ghost s1 = self.entries@;
        let e = (key, Slot::Ready { value, bytes, last_used: t });
        proof {
            assert(!has_key(s1, key));
            lemma_assoc_push(s1, key, e.1);
            lemma_ready_sum_push(s1, e);
            assert(assoc_map(s1) == old(self).slots().remove(key));
        }
        self.entries.push(e);
        self.used = self.used + bytes;
        proof {
            let s2 = self.entries@;
            assert(forall|j: int| 0 <= j < s1.len() ==> #[trigger] s2[j] == s1[j]);
            assert(self.slots() =~= old(self).slots().insert(
                key,
                Slot::Ready { value, bytes, last_used: (old(self).clock() + 1) as u64 },
            ));
            assert(was_exact && !ready_in(old(self).slots(), key) ==> self.used as int == ready_sum(
                s2,
            ));
        }
        let ghost target = evict_lru(self.slots(), self.used as int, self.max_bytes as int);
        let ghost exact_before = self.used as int == ready_sum(self.entries@);
        let ghost ev0 = self.evictions;
        let ghost n: nat = 0;
        while self.used > self.max_bytes
            invariant
                self.wf(),
                self.tick == t,
                self.max_bytes == old(self).max_bytes,
                self.next_id == old(self).next_id,
                self.hits == old(self).hits,
                self.misses == old(self).misses,
                self.evictions == sat_add(ev0, n),
                evict_lru(self.slots(), self.used as int, self.max_bytes as int).0 == target.0,
                evict_lru(self.slots(), self.used as int, self.max_bytes as int).1 == target.1,
                evict_lru(self.slots(), self.used as int, self.max_bytes as int).2 + n == target.2,
                exact_before ==> self.used as int == ready_sum(self.entries@),
                exact_before && bytes <= self.max_bytes ==> has_key(self.entries@, key),
                forall|j: int| 0 <= j < self.entries@.len() && (#[trigger] self.entries@[j]).0 == key
                    ==> self.entries@[j].1 is Ready && self.entries@[j].1->last_used == t
                        && self.entries@[j].1->bytes == bytes,
            ensures
                self.wf(),
                self.tick == t,
                self.max_bytes == old(self).max_bytes,
                self.next_id == old(self).next_id,
                self.hits == old(self).hits,
                self.misses == old(self).misses,
                self.evictions == sat_add(ev0, n),
                evict_lru(self.slots(), self.used as int, self.max_bytes as int).0 == target.0,
                evict_lru(self.slots(), self.used as int, self.max_bytes as int).1 == target.1,
                evict_lru(self.slots(), self.used as int, self.max_bytes as int).2 + n == target.2,
                exact_before ==> self.used as int == ready_sum(self.entries@),
                self.used <= self.max_bytes || forall|k: TileKey| !ready_in(self.slots(), k),
                exact_before && bytes <= self.max_bytes ==> has_key(self.entries@, key),
                forall|j: int| 0 <= j < self.entries@.len() && (#[trigger] self.entries@[j]).0 == key
                    ==> self.entries@[j].1 is Ready && self.entries@[j].1->last_used == t
                        && self.entries@[j].1->bytes == bytes,
            decreases self.entries@.len(),
        {
            proof {
                self.lemma_slots();
            }
            match self.lru_index() {
                None => {
                    proof {
                        assert forall|k: TileKey| !ready_in(self.slots(), k) by {
                            if ready_in(self.slots(), k) {
                                let j = choose|j: int|
                                    0 <= j < self.entries@.len() && self.entries@[j].0 == k;
                                assert(self.slots()[self.entries@[j].0] == self.entries@[j].1);
                            }
                        }
                    }
                    break;
                },
                Some(i) => {
                    let ghost s0 = self.entries@;
                    let ghost m = self.slots();
                    let ghost k = s0[i as int].0;
                    proof {
                        self.lemma_lru_unique(i as int);
                        if k == key && exact_before && bytes <= self.max_bytes {
                            assert forall|j: int| 0 <= j < s0.len() && j != i implies !((
                            #[trigger] s0[j]).1 is Ready) by {
                                if s0[j].1 is Ready {
                                    assert(s0[j].1->last_used <= t);
                                    assert(s0[i as int].1->last_used <= s0[j].1->last_used);
                                }
                            }
                            lemma_ready_sum_single(s0, i as int);
                            assert(false);
                        }
                        assert(ready_in(m, k));
                        assert(m[k] == s0[i as int].1);
                        lemma_assoc_remove(s0, i as int);
                        lemma_ready_sum_remove(s0, i as int);
                        lemma_ready_sum_nonneg(s0.remove(i as int));
                    }
                    let (_, slot) = self.entries.remove(i);
                    proof {
                        let s1 = self.entries@;
                        assert(forall|j: int| 0 <= j < s1.len() ==> #[trigger] s1[j] == (if j < i { s0[j] } else { s0[j + 1] }));
                        if exact_before && bytes <= self.max_bytes {
                            let j = choose|j: int| 0 <= j < s0.len() && s0[j].0 == key;
                            assert(j != i);
                            if j < i {
                                assert(s1[j].0 == key);
                            } else {
                                assert(s1[j - 1].0 == key);
                            }
                        }
                    }
                    match slot {
                        Slot::Ready { bytes: b, .. } => {
                            self.used = self.used - b;
                            if self.evictions < u64::MAX {
                                self.evictions = self.evictions + 1;
                            }
                            proof {
                                n = n + 1;
                            }
                        },
                        Slot::Pending(_) => {
                            proof {
                                assert(false);
                            }
                        },
                    }
                },
            }
        }
        proof {
            self.lemma_slots();
            if exact_before && bytes <= self.max_bytes {
                let j = choose|j: int| 0 <= j < self.entries@.len() && self.entries@[j].0 == key;
                assert(self.slots()[self.entries@[j].0] == self.entries@[j].1);
            }
            if exact_before && bytes > self.max_bytes {
                let m0 = old(self).slots().insert(
                    key,
                    Slot::Ready { value, bytes, last_used: t },
                );
                old(self).lemma_stamps();
                lemma_evict_lru(m0, old(self).used() + bytes, old(self).budget() as int);
                assert(self.slots() == evict_lru(m0, old(self).used() + bytes, old(self).budget() as int).0);
                if has_key(self.entries@, key) {
                    let j = choose|j: int| 0 <= j < self.entries@.len() && self.entries@[j].0 == key;
                    lemma_ready_sum_remove(self.entries@, j);
                    lemma_ready_sum_nonneg(self.entries@.remove(j));
                    assert(self.used > self.max_bytes);
                    assert(ready_in(self.slots(), key));
                }
                assert forall|k: TileKey| !ready_in(self.slots(), k) by {
                    if ready_in(self.slots(), k) {
                        assert(!self.slots().contains_key(key));
                        assert(m0.contains_key(key));
                        assert(m0[key]->last_used <= m0[k]->last_used);
                        assert(k != key);
                        assert(ready_in(old(self).slots(), k));
                    }
                }
            }
        }
        prev
    }
}

/// A cold tile goes round trip: claiming an absent key hands it out as
/// `Mine` (one miss); fulfilling it wakes that claim's waiters (hands back the
/// handle it was claimed with) and, if the tile fits the budget, keeps it
/// resident with the counter exact; the next claim of the key is then a hit
/// on (a clone of) the stored tile (one hit).
pub proof fn lemma_fulfilled_tile_is_hit<V: Clone, W: Clone>(
    c0: TileCache<V, W>,
    key: TileKey,
    fresh: W,
    r1: Claim<V, W>,
    c1: TileCache<V, W>,
    value: V,
    bytes: usize,
    r2: Option<W>,
    c2: TileCache<V, W>,
    fresh2: W,
    r3: Claim<V, W>,
    c3: TileCache<V, W>,
)
    requires
        c0.wf(),
        c0.exact(),
        !c0.slots().contains_key(key),
        bytes <= c0.budget(),
        claim_step(c0, key, fresh, r1, c1),
        fulfill_step(c1, key, value, bytes, r2, c2),
        claim_step(c2, key, fresh2, r3, c3),
    ensures
        r1 is Mine,
        r2 == Some(fresh),
        c2.exact(),
        c3.exact(),
        r3 matches Claim::Hit(v) && cloned(value, v),
        c3.miss_count() == sat_add(c0.miss_count(), 1),
        c3.hit_count() == sat_add(c0.hit_count(), 1),
{
    assert(c1.slots()[key] == Slot::<V, W>::Pending(fresh));
    assert(!ready_in(c1.slots(), key));
    assert(c1.exact());
    c1.lemma_slots_finite();
    let m0 = c1.slots().insert(
        key,
        Slot::Ready { value, bytes, last_used: (c1.clock() + 1) as u64 },
    );
    lemma_evict_lru(m0, c1.used() + bytes, c1.budget() as int);
    assert(ready_in(c2.slots(), key));
    assert(c2.slots()[key] == m0[key]);
}

} // verus!
