//! The browser-side registry: open readers by URL, so that a reader (and with
//! it its tile-cache key space) is reused across calls, and the configuration
//! of the tile cache itself.

use vstd::prelude::*;
use crate::assoc::{assoc_map, has_key, keys_unique, lemma_assoc_len, lemma_assoc_map, lemma_assoc_push, lemma_assoc_update};
use crate::tile_cache::{TileCache, TileCacheStats, TileKey, Slot};

verus! {

/// The registry holds at most this many readers; inserting into a full
/// registry first empties it.
pub const MAX_READERS: usize = 64;

/// Tile cache budget of a fresh browser session, in MiB.
pub const DEFAULT_TILE_CACHE_MB: u32 = 64;

/// Entries keyed by the view of their URL.
pub open spec fn url_keys<R>(s: Seq<(String, R)>) -> Seq<(Seq<char>, R)> {
    s.map_values(|e: (String, R)| (e.0@, e.1))
}

/// Open readers by URL.
pub struct ReaderRegistry<R> {
    entries: Vec<(String, R)>,
}

impl<R> ReaderRegistry<R> {
    /// The readers by URL.
    pub closed spec fn readers(&self) -> Map<Seq<char>, R> {
        assoc_map(url_keys(self.entries@))
    }

    /// No URL twice, never more than `MAX_READERS` entries.
    pub closed spec fn wf(&self) -> bool {
        &&& keys_unique(url_keys(self.entries@))
        &&& self.entries@.len() <= MAX_READERS
    }

    proof fn lemma_view(&self)
        requires
            self.wf(),
        ensures
            self.readers().dom().finite(),
            self.readers().dom().len() == self.entries@.len(),
            forall|k: Seq<char>| #[trigger] self.readers().contains_key(k) <==> has_key(
                url_keys(self.entries@),
                k,
            ),
            forall|i: int|
                0 <= i < self.entries@.len() ==> #[trigger] self.readers()[self.entries@[i].0@]
                    == self.entries@[i].1,
    {
        let kv = url_keys(self.entries@);
        lemma_assoc_map(kv);
        lemma_assoc_len(kv);
        assert forall|i: int| 0 <= i < self.entries@.len() implies #[trigger] self.readers()[self.entries@[i].0@]
            == self.entries@[i].1 by {
            assert(kv[i] == (self.entries@[i].0@, self.entries@[i].1));
        }
    }

    /// An empty registry.
    pub fn new() -> (g: Self)
        ensures
            g.wf(),
            g.readers() == Map::<Seq<char>, R>::empty(),
    {
        let g = ReaderRegistry { entries: Vec::new() };
        proof {
            assert(url_keys(g.entries@) =~= Seq::<(Seq<char>, R)>::empty());
        }
        g
    }

    /// Forgets every reader.
    pub fn clear(&mut self)
        ensures
            final(self).wf(),
            final(self).readers() == Map::<Seq<char>, R>::empty(),
    {
        self.entries = Vec::new();
        proof {
            assert(url_keys(self.entries@) =~= Seq::<(Seq<char>, R)>::empty());
        }
    }

    fn find(&self, url: &String) -> (r: Option<usize>)
        ensures
            r matches Some(i) ==> i < self.entries@.len() && self.entries@[i as int].0@ == url@,
            r is None ==> forall|j: int| 0 <= j < self.entries@.len() ==> self.entries@[j].0@ != url@,
    {
        let mut i: usize = 0;
        while i < self.entries.len()
            invariant
                i <= self.entries@.len(),
                forall|j: int| 0 <= j < i ==> self.entries@[j].0@ != url@,
            decreases self.entries@.len() - i,
        {
            if self.entries[i].0 == *url {
                return Some(i);
            }
            i = i + 1;
        }
        None
    }

    /// Registers `reader` under `url`. A registry that already holds
    /// `MAX_READERS` readers is emptied first (the readers it dropped are
    /// reopened on their next use).
    pub fn insert(&mut self, url: String, reader: R)
        requires
            old(self).wf(),
        ensures
            final(self).wf(),
            old(self).readers().dom().len() >= MAX_READERS ==> final(self).readers() == Map::<
                Seq<char>,
                R,
            >::empty().insert(url@, reader),
            old(self).readers().dom().len() < MAX_READERS ==> final(self).readers() == old(
                self,
            ).readers().insert(url@, reader),
            final(self).readers().contains_key(url@),
            final(self).readers()[url@] == reader,
    {
        proof {
            self.lemma_view();
        }
        if self.entries.len() >= MAX_READERS {
            self.entries = Vec::new();
            proof {
                assert(url_keys(self.entries@) =~= Seq::<(Seq<char>, R)>::empty());
            }
        }
        let ghost s0 = self.entries@;
        match self.find(&url) {
            Some(i) => {
                proof {
                    lemma_assoc_update(url_keys(s0), i as int, reader);
                    assert(url_keys(s0)[i as int].0 == url@);
                }
                self.entries.set(i, (url, reader));
                proof {
                    assert(url_keys(self.entries@) =~= url_keys(s0).update(
                        i as int,
                        (url_keys(s0)[i as int].0, reader),
                    ));
                }
            },
            None => {
                proof {
                    assert(!has_key(url_keys(s0), url@)) by {
                        if has_key(url_keys(s0), url@) {
                            let j = choose|j: int|
                                0 <= j < url_keys(s0).len() && url_keys(s0)[j].0 == url@;
                            assert(url_keys(s0)[j] == (s0[j].0@, s0[j].1));
                        }
                    }
                    lemma_assoc_push(url_keys(s0), url@, reader);
                }
                let ghost u = url@;
                self.entries.push((url, reader));
                proof {
                    assert(url_keys(self.entries@) =~= url_keys(s0).push((u, reader)));
                }
            },
        }
    }
}

impl<R: Clone> ReaderRegistry<R> {
    /// The reader registered under `url`, if any.
    pub fn lookup(&self, url: &String) -> (r: Option<R>)
        requires
            self.wf(),
        ensures
            self.readers().contains_key(url@) ==> (r matches Some(v) && cloned(self.readers()[url@], v)),
            !self.readers().contains_key(url@) ==> r is None,
    {
        proof {
            self.lemma_view();
        }
        match self.find(url) {
            Some(i) => {
                proof {
                    assert(url_keys(self.entries@)[i as int] == (self.entries@[i as int].0@, self.entries@[i as int].1));
                    assert(self.readers()[self.entries@[i as int].0@] == self.entries@[i as int].1);
                }
                Some(self.entries[i].1.clone())
            },
            None => {
                proof {
                    if self.readers().contains_key(url@) {
                        let j = choose|j: int|
                            0 <= j < url_keys(self.entries@).len() && url_keys(self.entries@)[j].0
                                == url@;
                        assert(url_keys(self.entries@)[j] == (self.entries@[j].0@, self.entries@[j].1));
                    }
                }
                None
            },
        }
    }
}

/// A registry never holds more than `MAX_READERS` readers.
pub proof fn lemma_registry_bounded<R>(g: &ReaderRegistry<R>)
    requires
        g.wf(),
    ensures
        g.readers().dom().finite(),
        g.readers().dom().len() <= MAX_READERS,
{
    g.lemma_view();
}

/// The counters a tile-cache configuration reports: the cache's own, all
/// zero when caching is off.
pub open spec fn cache_stats<V, W>(cache: Option<TileCache<V, W>>) -> TileCacheStats {
    match cache {
        Some(c) => TileCacheStats {
            hits: c.hit_count(),
            misses: c.miss_count(),
            evictions: c.eviction_count(),
            bytes: c.used() as usize,
            max_bytes: c.budget(),
        },
        None => TileCacheStats { hits: 0, misses: 0, evictions: 0, bytes: 0, max_bytes: 0 },
    }
}

/// Reconfigures the tile cache to a budget of `mb` MiB: the new cache is none
/// when `mb` is 0 (caching off), else an empty cache with that budget and
/// zero counters. The reader registry is emptied with it (a cold reset: no
/// reader keeps using the old cache, every URL is reopened on its next use).
pub fn configure_tile_cache<R, V, W>(readers: &mut ReaderRegistry<R>, mb: u32) -> (r: Option<
    TileCache<V, W>,
>)
    requires
        mb as int * 1048576 <= usize::MAX,
    ensures
        final(readers).wf(),
        final(readers).readers() == Map::<Seq<char>, R>::empty(),
        mb == 0 <==> r is None,
        r matches Some(c) ==> {
            &&& c.wf()
            &&& c.exact()
            &&& c.budget() == mb as int * 1048576
            &&& c.slots() == Map::<TileKey, Slot<V, W>>::empty()
            &&& c.used() == 0
            &&& c.clock() == 0
            &&& c.next_reader() == 0
            &&& c.hit_count() == 0
            &&& c.miss_count() == 0
            &&& c.eviction_count() == 0
        },
        cache_stats(r) == (TileCacheStats {
            hits: 0,
            misses: 0,
            evictions: 0,
            bytes: 0,
            max_bytes: (mb as int * 1048576) as usize,
        }),
{
    readers.clear();
    if mb == 0 {
        None
    } else {
        let bytes: usize = (mb as usize) * 1024 * 1024;
        Some(TileCache::new(bytes))
    }
}

/// Counter snapshot of the configured tile cache; all zero when caching is
/// off.
pub fn tile_cache_stats<V, W>(cache: &Option<TileCache<V, W>>) -> (s: TileCacheStats)
    ensures
        s == cache_stats(*cache),
{
    match cache {
        Some(c) => c.stats(),
        None => TileCacheStats { hits: 0, misses: 0, evictions: 0, bytes: 0, max_bytes: 0 },
    }
}

} // verus!
