//! Read routing: the short-lived cache of resolved routes, the route
//! counters, and the choice of the backend that serves a read.

use vstd::prelude::*;
use vstd::string::*;
use crate::strmap::StrMap;
use crate::sync::clone_opt_string;

verus! {

/// Time elapsed from `then` to `now`, 0 when `then` is later.
pub open spec fn spec_elapsed(now: u64, then: u64) -> u64 {
    if now >= then { (now - then) as u64 } else { 0 }
}

fn elapsed(now: u64, then: u64) -> (r: u64)
    ensures
        r == spec_elapsed(now, then),
{
    if now >= then { now - then } else { 0 }
}

/// A cached read route: the backend that served the path (`None` for a
/// miss) and when it was cached.
#[derive(Debug)]
pub struct ReadRouteCacheEntry {
    pub backend_name: Option<String>,
    pub cached_at: u64,
}

/// Cache of resolved read routes, bounded in age and in size. Times are
/// readings of a monotonic clock in one unit, handed in by the caller.
#[derive(Debug)]
pub struct ReadRouteCache {
    pub entries: StrMap<ReadRouteCacheEntry>,
    pub ttl: u64,
    pub capacity: usize,
}

impl ReadRouteCache {
    /// An empty cache.
    pub fn new(ttl: u64, capacity: usize) -> (r: ReadRouteCache)
        ensures
            r.entries.view() == Map::<Seq<char>, ReadRouteCacheEntry>::empty(),
            r.ttl == ttl,
            r.capacity == capacity,
    {
        ReadRouteCache { entries: StrMap::new(), ttl, capacity }
    }

    /// Forget the route of `path` (after a write changed where it lives).
    pub fn invalidate_read_route(&mut self, path: &str)
        ensures
            final(self).entries.view() == old(self).entries.view().remove(path@),
            final(self).ttl == old(self).ttl,
            final(self).capacity == old(self).capacity,
    {
        let _ = self.entries.remove(path);
    }

    /// The cached route of `path` at time `now`: `Some(route)` while the
    /// entry is fresh; an expired entry is dropped and `None` returned.
    pub fn cached_read_route(&mut self, path: &str, now: u64) -> (r: Option<Option<String>>)
        ensures
            final(self).ttl == old(self).ttl,
            final(self).capacity == old(self).capacity,
            !old(self).entries.view().contains_key(path@) ==> r is None && final(self).entries.view() == old(self).entries.view(),
            old(self).entries.view().contains_key(path@) ==> {
                let e = old(self).entries.view()[path@];
                if spec_elapsed(now, e.cached_at) > old(self).ttl {
                    r is None && final(self).entries.view() == old(self).entries.view().remove(path@)
                } else {
                    r == Some(e.backend_name) && final(self).entries.view() == old(self).entries.view()
                }
            },
            r == spec_lookup(old(self).entries.view(), old(self).ttl, path@, now),
    {
        let (name, at) = match self.entries.get(path) {
            Some(e) => (clone_opt_string(&e.backend_name), e.cached_at),
            None => {
                return None;
            },
        };
        if elapsed(now, at) > self.ttl {
            let _ = self.entries.remove(path);
            None
        } else {
            Some(name)
        }
    }

    /// Cache the route of `path` at `now`: the entry is set, every entry
    /// older than the time-to-live is dropped, and then the oldest entries
    /// are dropped until the capacity holds.
    pub fn cache_read_route(&mut self, path: String, backend_name: Option<String>, now: u64)
        ensures
            final(self).ttl == old(self).ttl,
            final(self).capacity == old(self).capacity,
            spec_cache_update(
                old(self).entries.view(),
                old(self).ttl,
                old(self).capacity,
                path@,
                backend_name,
                now,
                final(self).entries.view(),
            ),
    {
        let ttl = self.ttl;
        let cap = self.capacity;
        let ghost pv = path@;
        let ghost old_view = self.entries.view();
        self.entries.insert(path, ReadRouteCacheEntry { backend_name, cached_at: now });
        let ghost inserted = self.entries.view();
        let ghost fresh = spec_fresh_part(inserted, ttl, now);
        proof {
            assert(inserted == old_view.insert(pv, ReadRouteCacheEntry { backend_name, cached_at: now }));
        }
        // Drop stale entries.
        let mut stale: Vec<String> = Vec::new();
        let n = self.entries.len();
        let mut i: usize = 0;
        while i < n
            invariant
                self.ttl == ttl,
                self.capacity == cap,
                n == self.entries.pairs().len(),
                i <= n,
                self.entries.view() == inserted,
                forall|j: int| 0 <= j < stale@.len() ==> {
                    &&& inserted.contains_key(#[trigger] stale@[j]@)
                    &&& !spec_is_fresh(ttl, inserted[stale@[j]@], now)
                },
                forall|j: int| 0 <= j < i ==> {
                    let k = #[trigger] self.entries.pairs()[j].0;
                    !spec_is_fresh(ttl, inserted[k], now) ==> exists|t: int| 0 <= t < stale@.len() && #[trigger] stale@[t]@ == k
                },
            decreases n - i,
        {
            proof {
                use_type_invariant(&self.entries);
                self.entries.lemma_pairs();
            }
            let ghost old_stale = stale@;
            let key = self.entries.key_at(i);
            let e = self.entries.value_at(i);
            if elapsed(now, e.cached_at) > ttl {
                stale.push(key.clone());
                proof {
                    assert(stale@[stale@.len() - 1]@ == key@);
                }
            }
            proof {
                assert(inserted[self.entries.pairs()[i as int].0] == self.entries.pairs()[i as int].1);
                assert forall|j: int| 0 <= j < i + 1 implies {
                    let k = #[trigger] self.entries.pairs()[j].0;
                    !spec_is_fresh(ttl, inserted[k], now) ==> exists|t: int| 0 <= t < stale@.len() && #[trigger] stale@[t]@ == k
                } by {
                    let k = self.entries.pairs()[j].0;
                    if !spec_is_fresh(ttl, inserted[k], now) {
                        if j == i {
                            assert(stale@[stale@.len() - 1]@ == k);
                        } else {
                            let t = choose|t: int| 0 <= t < old_stale.len() && #[trigger] old_stale[t]@ == k;
                            assert(stale@[t] == old_stale[t]);
                        }
                    }
                }
            }
            i = i + 1;
        }
        proof {
            use_type_invariant(&self.entries);
            self.entries.lemma_pairs();
            assert forall|k: Seq<char>| #[trigger] inserted.contains_key(k) && !spec_is_fresh(ttl, inserted[k], now) implies exists|t: int|
                0 <= t < stale@.len() && #[trigger] stale@[t]@ == k by {
                let j = choose|j: int| 0 <= j < self.entries.pairs().len() && self.entries.pairs()[j].0 == k;
                assert(self.entries.pairs()[j].0 == k);
            }
        }
        let mut s: usize = 0;
        while s < stale.len()
            invariant
                self.ttl == ttl,
                self.capacity == cap,
                s <= stale.len(),
                forall|j: int| 0 <= j < stale@.len() ==> {
                    &&& inserted.contains_key(#[trigger] stale@[j]@)
                    &&& !spec_is_fresh(ttl, inserted[stale@[j]@], now)
                },
                self.entries.view().submap_of(inserted),
                forall|k: Seq<char>| #[trigger] inserted.contains_key(k) && spec_is_fresh(ttl, inserted[k], now) ==> self.entries.view().contains_key(k),
                forall|k: Seq<char>| #[trigger] self.entries.view().contains_key(k) && !spec_is_fresh(ttl, inserted[k], now) ==> exists|t: int|
                    s <= t < stale@.len() && #[trigger] stale@[t]@ == k,
            decreases stale.len() - s,
        {
            let ghost before = self.entries.view();
            let _ = self.entries.remove(stale[s].as_str());
            proof {
                assert forall|k: Seq<char>| #[trigger] self.entries.view().dom().contains(k) implies inserted.dom().contains(k)
                    && self.entries.view()[k] == inserted[k] by {
                    assert(before.dom().contains(k));
                }
                assert(self.entries.view().submap_of(inserted));
                assert forall|k: Seq<char>| #[trigger] self.entries.view().contains_key(k) && !spec_is_fresh(ttl, inserted[k], now) implies exists|t: int|
                    s + 1 <= t < stale@.len() && #[trigger] stale@[t]@ == k by {
                    let t = choose|t: int| s <= t < stale@.len() && #[trigger] stale@[t]@ == k;
                    assert(t != s);
                }
            }
            s = s + 1;
        }
        proof {
            use_type_invariant(&self.entries);
            self.entries.lemma_pairs();
            assert forall|k: Seq<char>| self.entries.view().contains_key(k) <==> fresh.contains_key(k) by {
                if self.entries.view().contains_key(k) && !spec_is_fresh(ttl, inserted[k], now) {
                    let t = choose|t: int| stale@.len() <= t < stale@.len() && #[trigger] stale@[t]@ == k;
                }
            }
            assert(self.entries.view() =~= fresh);
        }
        // Evict the oldest entries until the capacity holds.
        let ghost mut max_ev: u64 = 0;
        while self.entries.len() > cap
            invariant
                self.ttl == ttl,
                self.capacity == cap,
                self.entries.view().submap_of(fresh),
                fresh.dom().finite(),
                forall|a: Seq<char>| fresh.contains_key(a) && !self.entries.view().contains_key(a) ==> #[trigger] fresh[a].cached_at <= max_ev,
                forall|b: Seq<char>| #[trigger] self.entries.view().contains_key(b) ==> self.entries.view()[b].cached_at >= max_ev,
                self.entries.view().len() >= if fresh.len() <= cap { fresh.len() } else { cap as nat },
            decreases self.entries.view().len(),
        {
            proof {
                use_type_invariant(&self.entries);
                self.entries.lemma_pairs();
            }
            let m = self.entries.len();
            let mut best: usize = 0;
            let mut j: usize = 1;
            while j < m
                invariant
                    m == self.entries.pairs().len(),
                    m >= 1,
                    1 <= j <= m,
                    best < j,
                    forall|t: int| 0 <= t < j ==> self.entries.pairs()[best as int].1.cached_at <= #[trigger] self.entries.pairs()[t].1.cached_at,
                decreases m - j,
            {
                if self.entries.value_at(j).cached_at < self.entries.value_at(best).cached_at {
                    best = j;
                }
                j = j + 1;
            }
            let key = self.entries.key_at(best).clone();
            let ghost before = self.entries.view();
            let ghost oldest = self.entries.pairs()[best as int].1.cached_at;
            proof {
                assert forall|b: Seq<char>| #[trigger] before.contains_key(b) implies before[b].cached_at >= oldest by {
                    let t = choose|t: int| 0 <= t < self.entries.pairs().len() && self.entries.pairs()[t].0 == b;
                    assert(before[self.entries.pairs()[t].0] == self.entries.pairs()[t].1);
                }
                assert(before[key@] == self.entries.pairs()[best as int].1);
            }
            let _ = self.entries.remove(key.as_str());
            proof {
                max_ev = oldest;
                lemma_submap_len(self.entries.view(), before);
                assert(before.len() == self.entries.view().len() + 1);
            }
        }
        proof {
            lemma_submap_len(self.entries.view(), fresh);
        }
    }
}

/// The entry is fresh at `now`.
pub open spec fn spec_is_fresh(ttl: u64, e: ReadRouteCacheEntry, now: u64) -> bool {
    spec_elapsed(now, e.cached_at) <= ttl
}

/// The entries of `m` that are fresh at `now`.
pub open spec fn spec_fresh_part(m: Map<Seq<char>, ReadRouteCacheEntry>, ttl: u64, now: u64) -> Map<Seq<char>, ReadRouteCacheEntry> {
    m.restrict(Set::new(|k: Seq<char>| m.contains_key(k) && spec_is_fresh(ttl, m[k], now)))
}

/// What a lookup of `path` at `now` answers: the cached route while its
/// entry is fresh, nothing otherwise.
pub open spec fn spec_lookup(
    entries: Map<Seq<char>, ReadRouteCacheEntry>,
    ttl: u64,
    path: Seq<char>,
    now: u64,
) -> Option<Option<String>> {
    if entries.contains_key(path) && spec_elapsed(now, entries[path].cached_at) <= ttl {
        Some(entries[path].backend_name)
    } else {
        None
    }
}

/// `after` is what caching `backend_name` for `path` at `now` leaves of
/// `before`: a part of the fresh entries (the new one included) of the
/// largest size the capacity allows, where no dropped fresh entry is newer
/// than a kept one.
pub open spec fn spec_cache_update(
    before: Map<Seq<char>, ReadRouteCacheEntry>,
    ttl: u64,
    capacity: usize,
    path: Seq<char>,
    backend_name: Option<String>,
    now: u64,
    after: Map<Seq<char>, ReadRouteCacheEntry>,
) -> bool {
    let inserted = before.insert(path, ReadRouteCacheEntry { backend_name, cached_at: now });
    let fresh = spec_fresh_part(inserted, ttl, now);
    &&& after.submap_of(fresh)
    &&& after.len() == if fresh.len() <= capacity { fresh.len() } else { capacity as nat }
    &&& forall|a: Seq<char>, b: Seq<char>|
        fresh.contains_key(a) && !after.contains_key(a) && #[trigger] after.contains_key(b)
            ==> #[trigger] fresh[a].cached_at <= after[b].cached_at
}

/// A route cached at `now` is read back by every lookup up to the
/// time-to-live later, when the cache has room for an entry and every other
/// entry was cached before `now` (a monotonic clock).
pub proof fn lemma_cached_route_read_back(
    before: Map<Seq<char>, ReadRouteCacheEntry>,
    ttl: u64,
    capacity: usize,
    path: Seq<char>,
    backend_name: Option<String>,
    now: u64,
    after: Map<Seq<char>, ReadRouteCacheEntry>,
    later: u64,
)
    requires
        before.dom().finite(),
        spec_cache_update(before, ttl, capacity, path, backend_name, now, after),
        capacity >= 1,
        forall|k: Seq<char>| #[trigger] before.contains_key(k) && k != path ==> before[k].cached_at < now,
        spec_elapsed(later, now) <= ttl,
    ensures
        after.contains_key(path),
        after[path] == (ReadRouteCacheEntry { backend_name, cached_at: now }),
        spec_lookup(after, ttl, path, later) == Some(backend_name),
{
    let new_entry = ReadRouteCacheEntry { backend_name, cached_at: now };
    let inserted = before.insert(path, new_entry);
    let fresh = spec_fresh_part(inserted, ttl, now);
    assert(inserted.dom().finite());
    vstd::set_lib::lemma_len_subset(fresh.dom(), inserted.dom());
    assert(fresh.contains_key(path) && fresh[path] == new_entry);
    assert(fresh.len() >= 1) by {
        assert(fresh.dom().remove(path).len() + 1 == fresh.dom().len());
    }
    if !after.contains_key(path) {
        assert(after.dom().len() >= 1);
        let b = after.dom().choose();
        assert(after.dom().contains(b));
        lemma_submap_elem(after, fresh, b);
        assert(b != path);
        assert(fresh[path].cached_at <= after[b].cached_at);
        assert(before.contains_key(b));
        assert(false);
    }
    lemma_submap_elem(after, fresh, path);
}

proof fn lemma_submap_len<K, V>(a: Map<K, V>, b: Map<K, V>)
    requires
        a.submap_of(b),
        b.dom().finite(),
    ensures
        a.len() <= b.len(),
{
    vstd::set_lib::lemma_len_subset(a.dom(), b.dom());
}

proof fn lemma_submap_elem<K, V>(a: Map<K, V>, b: Map<K, V>, k: K)
    requires
        a.submap_of(b),
        a.contains_key(k),
    ensures
        b.contains_key(k),
        a[k] == b[k],
{
    assert(a.dom().contains(k));
    assert(b.dom().contains(k) && a[k] == b[k]);
}

/// Where a read was routed.
#[derive(Clone, Copy, Debug, PartialEq, Eq)]
pub enum ReadRouteSource {
    Cache,
    Backup,
    Primary,
    Redirect,
    Miss,
}

/// Counters of read routes, one per source; each wraps around at the top.
#[derive(Clone, Copy, Debug, PartialEq, Eq)]
pub struct ReadRouteMetrics {
    pub cache_hits: u64,
    pub backup_hits: u64,
    pub primary_hits: u64,
    pub redirect_hits: u64,
    pub misses: u64,
}

/// `c` plus one, wrapping to 0 after the largest value.
pub open spec fn spec_bump(c: u64) -> u64 {
    if c == u64::MAX { 0 } else { (c + 1) as u64 }
}

fn bump(c: u64) -> (r: u64)
    ensures
        r == spec_bump(c),
{
    if c == u64::MAX { 0 } else { c + 1 }
}

impl ReadRouteMetrics {
    /// All counters at zero.
    pub fn new() -> (r: ReadRouteMetrics)
        ensures
            r == (ReadRouteMetrics { cache_hits: 0, backup_hits: 0, primary_hits: 0, redirect_hits: 0, misses: 0 }),
    {
        ReadRouteMetrics { cache_hits: 0, backup_hits: 0, primary_hits: 0, redirect_hits: 0, misses: 0 }
    }

    /// Count one read served from `source`.
    pub fn record_read_route(&mut self, source: ReadRouteSource)
        ensures
            *final(self) == match source {
                ReadRouteSource::Cache => ReadRouteMetrics { cache_hits: spec_bump(old(self).cache_hits), ..*old(self) },
                ReadRouteSource::Backup => ReadRouteMetrics { backup_hits: spec_bump(old(self).backup_hits), ..*old(self) },
                ReadRouteSource::Primary => ReadRouteMetrics { primary_hits: spec_bump(old(self).primary_hits), ..*old(self) },
                ReadRouteSource::Redirect => ReadRouteMetrics { redirect_hits: spec_bump(old(self).redirect_hits), ..*old(self) },
                ReadRouteSource::Miss => ReadRouteMetrics { misses: spec_bump(old(self).misses), ..*old(self) },
            },
    {
        match source {
            ReadRouteSource::Cache => {
                self.cache_hits = bump(self.cache_hits);
            },
            ReadRouteSource::Backup => {
                self.backup_hits = bump(self.backup_hits);
            },
            ReadRouteSource::Primary => {
                self.primary_hits = bump(self.primary_hits);
            },
            ReadRouteSource::Redirect => {
                self.redirect_hits = bump(self.redirect_hits);
            },
            ReadRouteSource::Miss => {
                self.misses = bump(self.misses);
            },
        }
    }
}


/// The backend chosen to serve a read.
#[derive(Clone, Copy, Debug, PartialEq, Eq)]
pub enum ReadRoute {
    /// The read backup at this position of the read order.
    Backup(usize),
    Primary,
    /// The redirect target at this position of the candidates.
    Redirect(usize),
    Miss,
}

fn find_first_true(s: &Vec<bool>) -> (r: Option<usize>)
    ensures
        match r {
            Some(k) => k < s@.len() && s@[k as int] && forall|j: int| 0 <= j < k ==> !s@[j],
            None => forall|j: int| 0 <= j < s@.len() ==> !s@[j],
        },
{
    let mut k: usize = 0;
    while k < s.len()
        invariant
            k <= s.len(),
            forall|j: int| 0 <= j < k ==> !s@[j],
        decreases s.len() - k,
    {
        if s[k] {
            return Some(k);
        }
        k = k + 1;
    }
    None
}

/// Choose the backend of a read from which candidates hold the path: the
/// first read backup (in read order) that has it, else the primary, else
/// the first redirect target that has it, else none.
pub fn choose_read_route(backups_have: &Vec<bool>, primary_has: bool, redirect_have: &Vec<bool>) -> (r: ReadRoute)
    ensures
        match r {
            ReadRoute::Backup(k) => k < backups_have@.len() && backups_have@[k as int]
                && forall|j: int| 0 <= j < k ==> !backups_have@[j],
            ReadRoute::Primary => (forall|j: int| 0 <= j < backups_have@.len() ==> !backups_have@[j]) && primary_has,
            ReadRoute::Redirect(k) => (forall|j: int| 0 <= j < backups_have@.len() ==> !backups_have@[j]) && !primary_has
                && k < redirect_have@.len() && redirect_have@[k as int] && forall|j: int| 0 <= j < k ==> !redirect_have@[j],
            ReadRoute::Miss => (forall|j: int| 0 <= j < backups_have@.len() ==> !backups_have@[j]) && !primary_has
                && forall|j: int| 0 <= j < redirect_have@.len() ==> !redirect_have@[j],
        },
{
    match find_first_true(backups_have) {
        Some(k) => ReadRoute::Backup(k),
        None => {
            if primary_has {
                ReadRoute::Primary
            } else {
                match find_first_true(redirect_have) {
                    Some(k) => ReadRoute::Redirect(k),
                    None => ReadRoute::Miss,
                }
            }
        },
    }
}

/// The counter a route is recorded under.
pub fn route_source(route: ReadRoute) -> (r: ReadRouteSource)
    ensures
        r == match route {
            ReadRoute::Backup(_) => ReadRouteSource::Backup,
            ReadRoute::Primary => ReadRouteSource::Primary,
            ReadRoute::Redirect(_) => ReadRouteSource::Redirect,
            ReadRoute::Miss => ReadRouteSource::Miss,
        },
{
    match route {
        ReadRoute::Backup(_) => ReadRouteSource::Backup,
        ReadRoute::Primary => ReadRouteSource::Primary,
        ReadRoute::Redirect(_) => ReadRouteSource::Redirect,
        ReadRoute::Miss => ReadRouteSource::Miss,
    }
}

} // verus!
