//! In-memory tile cache: still-encoded image bytes keyed by tile address,
//! with last-access bookkeeping.  Payloads must decode as well-formed
//! images before admission, so poison entries are never cached.

use vstd::prelude::*;
use crate::types::{TileId, TileError, image_ok, calculate_image_dimensions};
use vstd::string::StringExecFns;

verus! {

/// One cached tile: the owned byte payload plus its last-access time.
pub struct CacheEntry {
    pub id: TileId,
    pub data: Vec<u8>,
    pub last_access: u64,
}

/// No two entries share an address.
pub open spec fn ids_unique(s: Seq<CacheEntry>) -> bool {
    forall|i: int, j: int| 0 <= i < j < s.len() ==> s[i].id != s[j].id
}

/// Whether the cache holds an entry for `id`.
pub open spec fn has_tile(s: Seq<CacheEntry>, id: TileId) -> bool {
    exists|i: int| 0 <= i < s.len() && s[i].id == id
}

pub open spec fn idx_of(s: Seq<CacheEntry>, id: TileId) -> int {
    choose|i: int| 0 <= i < s.len() && s[i].id == id
}

/// The cached bytes for `id` (meaningful only when `has_tile` holds).
pub open spec fn tile_data(s: Seq<CacheEntry>, id: TileId) -> Seq<u8> {
    s[idx_of(s, id)].data@
}

/// The last-access time for `id` (meaningful only when `has_tile` holds).
pub open spec fn tile_access(s: Seq<CacheEntry>, id: TileId) -> u64 {
    s[idx_of(s, id)].last_access
}

/// With unique ids, any index holding `id` is the index `idx_of` denotes.
pub proof fn lemma_unique_index(s: Seq<CacheEntry>, id: TileId, i: int)
    requires
        ids_unique(s),
        0 <= i < s.len(),
        s[i].id == id,
    ensures
        has_tile(s, id),
        idx_of(s, id) == i,
        tile_data(s, id) == s[i].data@,
        tile_access(s, id) == s[i].last_access,
{
    assert(has_tile(s, id));
    let j = idx_of(s, id);
    if i < j {
        assert(s[i].id != s[j].id);
    } else if j < i {
        assert(s[j].id != s[i].id);
    }
}

/// Removing an entry keeps the remaining ids unique.
proof fn lemma_remove_unique(s: Seq<CacheEntry>, i: int)
    requires
        ids_unique(s),
        0 <= i < s.len(),
    ensures
        ids_unique(s.remove(i)),
{
    let r = s.remove(i);
    assert forall|p: int, q: int| 0 <= p < q < r.len() implies r[p].id != r[q].id by {
        let p0 = if p < i { p } else { p + 1 };
        let q0 = if q < i { q } else { q + 1 };
        assert(r[p] == s[p0] && r[q] == s[q0]);
    }
    assert(ids_unique(r));
}

/// Removing the entry at index `i` keeps every other address present with
/// the same payload and access time.
proof fn lemma_remove_preserves(s: Seq<CacheEntry>, i: int, t: TileId)
    requires
        ids_unique(s),
        0 <= i < s.len(),
        t != s[i].id,
    ensures
        ids_unique(s.remove(i)),
        has_tile(s.remove(i), t) == has_tile(s, t),
        has_tile(s, t) ==> tile_data(s.remove(i), t) == tile_data(s, t) && tile_access(
            s.remove(i),
            t,
        ) == tile_access(s, t),
{
    let r = s.remove(i);
    lemma_remove_unique(s, i);
    if has_tile(s, t) {
        let j = idx_of(s, t);
        lemma_unique_index(s, t, j);
        let j2 = if j < i { j } else { j - 1 };
        assert(r[j2] == s[j]);
        lemma_unique_index(r, t, j2);
    }
    if has_tile(r, t) {
        let j = idx_of(r, t);
        assert(0 <= j < r.len() && r[j].id == t);
        let j0 = if j < i { j } else { j + 1 };
        assert(r[j] == s[j0]);
        assert(has_tile(s, t));
    }
}

/// A cache for storing loaded tiles and their data.
pub struct TileCache {
    /// Cached entries, one per tile address
    entries: Vec<CacheEntry>,
    /// Tiles that are in the process of loading
    loading: Vec<TileId>,
}

impl TileCache {
    /// Both bookkeeping lists hold each address at most once.
    pub closed spec fn wf(self) -> bool {
        &&& ids_unique(self.entries@)
        &&& (forall|i: int, j: int|
            0 <= i < j < self.loading@.len() ==> self.loading@[i] != self.loading@[j])
    }

    pub closed spec fn entries_view(self) -> Seq<CacheEntry> {
        self.entries@
    }

    pub closed spec fn loading_view(self) -> Seq<TileId> {
        self.loading@
    }

    /// Create a new empty tile cache.
    pub fn new() -> (c: TileCache)
        ensures
            c.wf(),
            c.entries_view().len() == 0,
            c.loading_view().len() == 0,
    {
        TileCache { entries: Vec::new(), loading: Vec::new() }
    }

    /// Index of the entry for `id`, if one exists.
    fn find_index(&self, id: &TileId) -> (r: Option<usize>)
        requires
            self.wf(),
        ensures
            match r {
                Some(i) => i < self.entries@.len() && self.entries@[i as int].id == *id,
                None => !has_tile(self.entries@, *id),
            },
    {
        let mut i: usize = 0;
        while i < self.entries.len()
            invariant
                i <= self.entries@.len(),
                forall|j: int| 0 <= j < i ==> self.entries@[j].id != *id,
            decreases self.entries@.len() - i,
        {
            if self.entries[i].id == *id {
                return Some(i);
            }
            i = i + 1;
        }
        None
    }

    /// Insert a tile into the cache.  The bytes are admitted if and only
    /// if they decode as a well-formed image; rejected payloads leave the
    /// cache exactly as it was.
    pub fn insert(&mut self, id: TileId, data: Vec<u8>, current_time: u64) -> (r: Result<
        (),
        TileError,
    >)
        requires
            old(self).wf(),
        ensures
            final(self).wf(),
            r is Ok <==> image_ok(data@),
            r is Err ==> *final(self) == *old(self) && r->Err_0 is LoadError,
            r is Ok ==> {
                &&& has_tile(final(self).entries_view(), id)
                &&& tile_data(final(self).entries_view(), id) == data@
                &&& tile_access(final(self).entries_view(), id) == current_time
                &&& !final(self).loading_view().contains(id)
            },
            (r is Ok && has_tile(old(self).entries_view(), id))
                ==> final(self).entries_view().len() == old(self).entries_view().len(),
            (r is Ok && !has_tile(old(self).entries_view(), id))
                ==> final(self).entries_view().len() == old(self).entries_view().len() + 1,
            r is Ok ==> forall|t: TileId|
                t != id ==> (has_tile(final(self).entries_view(), t) == has_tile(
                    old(self).entries_view(),
                    t,
                ) && (has_tile(old(self).entries_view(), t) ==> tile_data(
                    final(self).entries_view(),
                    t,
                ) == tile_data(old(self).entries_view(), t) && tile_access(
                    final(self).entries_view(),
                    t,
                ) == tile_access(old(self).entries_view(), t))),
    {
        if calculate_image_dimensions(data.as_slice()).is_none() {
            return Err(TileError::LoadError(String::from_str("Invalid image data")));
        }
        let entry = CacheEntry { id, data, last_access: current_time };
        let found = self.find_index(&id);
        match found {
            Some(i) => {
                let ghost s0 = self.entries@;
                proof {
                    lemma_unique_index(s0, id, i as int);
                }
                self.entries.set(i, entry);
                proof {
                    let s1 = self.entries@;
                    assert forall|p: int, q: int| 0 <= p < q < s1.len() implies s1[p].id
                        != s1[q].id by {
                        assert(s0[p].id != s0[q].id);
                    }
                    lemma_unique_index(s1, id, i as int);
                    assert forall|t: TileId| t != id implies has_tile(s1, t) == has_tile(s0, t) && (
                    has_tile(s0, t) ==> tile_data(s1, t) == tile_data(s0, t) && tile_access(s1, t)
                        == tile_access(s0, t)) by {
                        if has_tile(s0, t) {
                            let j = idx_of(s0, t);
                            lemma_unique_index(s0, t, j);
                            assert(s1[j] == s0[j]);
                            lemma_unique_index(s1, t, j);
                        }
                        if has_tile(s1, t) {
                            let j = idx_of(s1, t);
                            assert(s1[j].id == t && j != i);
                            assert(s0[j] == s1[j]);
                            assert(has_tile(s0, t));
                        }
                    }
                }
            },
            None => {
                let ghost s0 = self.entries@;
                self.entries.push(entry);
                proof {
                    let s1 = self.entries@;
                    let n = s0.len() as int;
                    assert forall|p: int, q: int| 0 <= p < q < s1.len() implies s1[p].id
                        != s1[q].id by {
                        if q < n {
                            assert(s0[p].id != s0[q].id);
                        } else {
                            assert(s1[q].id == id && s1[p] == s0[p]);
                        }
                    }
                    lemma_unique_index(s1, id, n);
                    assert forall|t: TileId| t != id implies has_tile(s1, t) == has_tile(s0, t) && (
                    has_tile(s0, t) ==> tile_data(s1, t) == tile_data(s0, t) && tile_access(s1, t)
                        == tile_access(s0, t)) by {
                        if has_tile(s0, t) {
                            let j = idx_of(s0, t);
                            lemma_unique_index(s0, t, j);
                            assert(s1[j] == s0[j]);
                            lemma_unique_index(s1, t, j);
                        }
                        if has_tile(s1, t) {
                            let j = idx_of(s1, t);
                            assert(s1[j].id == t && j != n);
                            assert(s0[j] == s1[j]);
                            assert(has_tile(s0, t));
                        }
                    }
                }
            },
        }
        self.remove_loading(&id);
        Ok(())
    }

    /// Remove `id` from the loading list if present.
    fn remove_loading(&mut self, id: &TileId)
        requires
            old(self).wf(),
        ensures
            final(self).wf(),
            final(self).entries@ == old(self).entries@,
            !final(self).loading@.contains(*id),
            forall|t: TileId|
                t != *id ==> final(self).loading@.contains(t) == old(self).loading@.contains(t),
    {
        let mut i: usize = 0;
        while i < self.loading.len()
            invariant
                old(self).wf(),
                self.entries@ == old(self).entries@,
                self.loading@ == old(self).loading@,
                i <= self.loading@.len(),
                forall|j: int| 0 <= j < i ==> self.loading@[j] != *id,
            decreases self.loading@.len() - i,
        {
            if self.loading[i] == *id {
                let ghost s0 = self.loading@;
                self.loading.remove(i);
                proof {
                    let s1 = self.loading@;
                    let n = i as int;
                    assert forall|p: int, q: int| 0 <= p < q < s1.len() implies s1[p] != s1[q] by {
                        let p0 = if p < n { p } else { p + 1 };
                        let q0 = if q < n { q } else { q + 1 };
                        assert(s1[p] == s0[p0] && s1[q] == s0[q0]);
                    }
                    assert forall|t: TileId| s1.contains(t) implies s0.contains(t) by {
                        let j = choose|j: int| 0 <= j < s1.len() && s1[j] == t;
                        let j0 = if j < n { j } else { j + 1 };
                        assert(s0[j0] == t);
                    }
                    assert forall|t: TileId| t != *id && s0.contains(t) implies s1.contains(t) by {
                        let j = choose|j: int| 0 <= j < s0.len() && s0[j] == t;
                        if j < n {
                            assert(s1[j] == t);
                        } else {
                            assert(s1[j - 1] == t);
                        }
                    }
                    assert forall|t: TileId| s1.contains(t) implies t != *id by {
                        let j = choose|j: int| 0 <= j < s1.len() && s1[j] == t;
                        let j0 = if j < n { j } else { j + 1 };
                        assert(s0[j0] == t);
                        if j0 != n {
                            assert(s0[n] != s0[j0]);
                        }
                    }
                }
                return ;
            }
            i = i + 1;
        }
        proof {
            assert(forall|j: int| 0 <= j < self.loading@.len() ==> self.loading@[j] != *id);
        }
    }

    /// Get a tile's bytes from the cache.
    pub fn get(&self, id: &TileId) -> (r: Option<&Vec<u8>>)
        requires
            self.wf(),
        ensures
            match r {
                Some(d) => has_tile(self.entries_view(), *id) && d@ == tile_data(
                    self.entries_view(),
                    *id,
                ),
                None => !has_tile(self.entries_view(), *id),
            },
    {
        match self.find_index(id) {
            Some(i) => {
                proof {
                    lemma_unique_index(self.entries@, *id, i as int);
                }
                Some(&self.entries[i].data)
            },
            None => None,
        }
    }

    /// Check if a tile is in the cache.
    pub fn contains(&self, id: &TileId) -> (r: bool)
        requires
            self.wf(),
        ensures
            r == has_tile(self.entries_view(), *id),
    {
        self.find_index(id).is_some()
    }

    /// Remove a tile from the cache, returning its bytes.  Evicting an
    /// address that is not cached is a no-op, not an error.
    pub fn remove(&mut self, id: &TileId) -> (r: Option<Vec<u8>>)
        requires
            old(self).wf(),
        ensures
            final(self).wf(),
            final(self).loading_view() == old(self).loading_view(),
            !has_tile(final(self).entries_view(), *id),
            match r {
                Some(d) => has_tile(old(self).entries_view(), *id) && d@ == tile_data(
                    old(self).entries_view(),
                    *id,
                ),
                None => !has_tile(old(self).entries_view(), *id) && final(self).entries_view()
                    == old(self).entries_view(),
            },
            forall|t: TileId|
                t != *id ==> (has_tile(final(self).entries_view(), t) == has_tile(
                    old(self).entries_view(),
                    t,
                ) && (has_tile(old(self).entries_view(), t) ==> tile_data(
                    final(self).entries_view(),
                    t,
                ) == tile_data(old(self).entries_view(), t) && tile_access(
                    final(self).entries_view(),
                    t,
                ) == tile_access(old(self).entries_view(), t))),
    {
        match self.find_index(id) {
            Some(i) => {
                proof {
                    lemma_unique_index(self.entries@, *id, i as int);
                }
                let ghost s0 = self.entries@;
                let entry = self.entries.remove(i);
                proof {
                    let s1 = self.entries@;
                    assert forall|t: TileId| t != *id implies (has_tile(s1, t) == has_tile(s0, t)
                        && (has_tile(s0, t) ==> tile_data(s1, t) == tile_data(s0, t) && tile_access(
                        s1,
                        t,
                    ) == tile_access(s0, t))) by {
                        lemma_remove_preserves(s0, i as int, t);
                    }
                    lemma_remove_unique(s0, i as int);
                    assert(!has_tile(s1, *id)) by {
                        if has_tile(s1, *id) {
                            let j = idx_of(s1, *id);
                            assert(0 <= j < s1.len() && s1[j].id == *id);
                            let j0 = if j < i as int { j } else { j + 1 };
                            assert(s1[j] == s0[j0]);
                            assert(j0 != i as int);
                            if j0 < i as int {
                                assert(s0[j0].id != s0[i as int].id);
                            } else {
                                assert(s0[i as int].id != s0[j0].id);
                            }
                        }
                    }
                }
                Some(entry.data)
            },
            None => None,
        }
    }

    /// Update the last access time for a tile; unknown addresses are left
    /// alone.
    pub fn update_access_time(&mut self, id: &TileId, current_time: u64)
        requires
            old(self).wf(),
        ensures
            final(self).wf(),
            final(self).loading_view() == old(self).loading_view(),
            has_tile(old(self).entries_view(), *id) ==> has_tile(final(self).entries_view(), *id)
                && tile_data(final(self).entries_view(), *id) == tile_data(
                old(self).entries_view(),
                *id,
            ) && tile_access(final(self).entries_view(), *id) == current_time,
            !has_tile(old(self).entries_view(), *id) ==> final(self).entries_view() == old(
                self,
            ).entries_view(),
            forall|t: TileId|
                t != *id ==> (has_tile(final(self).entries_view(), t) == has_tile(
                    old(self).entries_view(),
                    t,
                ) && (has_tile(old(self).entries_view(), t) ==> tile_data(
                    final(self).entries_view(),
                    t,
                ) == tile_data(old(self).entries_view(), t) && tile_access(
                    final(self).entries_view(),
                    t,
                ) == tile_access(old(self).entries_view(), t))),
    {
        match self.find_index(id) {
            Some(i) => {
                proof {
                    lemma_unique_index(self.entries@, *id, i as int);
                }
                let ghost s0 = self.entries@;
                let data = self.entries.remove(i);
                let entry = CacheEntry {
                    id: data.id,
                    data: data.data,
                    last_access: current_time,
                };
                self.entries.insert(i, entry);
                proof {
                    let s1 = self.entries@;
                    assert(s1 =~= s0.update(i as int, s1[i as int]));
                    assert forall|p: int, q: int| 0 <= p < q < s1.len() implies s1[p].id
                        != s1[q].id by {
                        assert(s0[p].id != s0[q].id);
                    }
                    lemma_unique_index(s1, *id, i as int);
                    assert forall|t: TileId| t != *id implies (has_tile(s1, t) == has_tile(s0, t)
                        && (has_tile(s0, t) ==> tile_data(s1, t) == tile_data(s0, t) && tile_access(
                        s1,
                        t,
                    ) == tile_access(s0, t))) by {
                        if has_tile(s0, t) {
                            let j = idx_of(s0, t);
                            lemma_unique_index(s0, t, j);
                            assert(s1[j] == s0[j]);
                            lemma_unique_index(s1, t, j);
                        }
                        if has_tile(s1, t) {
                            let j = idx_of(s1, t);
                            assert(s1[j].id == t && j != i);
                            assert(s0[j] == s1[j]);
                            assert(has_tile(s0, t));
                        }
                    }
                }
            },
            None => {},
        }
    }

    /// Get the number of tiles in the cache.
    pub fn len(&self) -> (r: usize)
        ensures
            r == self.entries_view().len(),
    {
        self.entries.len()
    }

    /// Check if the cache is empty.
    pub fn is_empty(&self) -> (r: bool)
        ensures
            r == (self.entries_view().len() == 0),
    {
        self.entries.len() == 0
    }

    /// Clear the cache.
    pub fn clear(&mut self)
        ensures
            final(self).wf(),
            final(self).entries_view().len() == 0,
            final(self).loading_view().len() == 0,
    {
        self.entries.clear();
        self.loading.clear();
    }

    /// Mark a tile as being downloaded.
    pub fn mark_downloading(&mut self, id: TileId)
        requires
            old(self).wf(),
        ensures
            final(self).wf(),
            final(self).entries_view() == old(self).entries_view(),
            final(self).loading_view().contains(id),
            forall|t: TileId|
                t != id ==> final(self).loading_view().contains(t) == old(
                    self,
                ).loading_view().contains(t),
    {
        if !self.is_loading(&id) {
            let ghost s0 = self.loading@;
            self.loading.push(id);
            proof {
                let s1 = self.loading@;
                let n = s0.len() as int;
                assert(s1[n] == id);
                assert forall|p: int, q: int| 0 <= p < q < s1.len() implies s1[p] != s1[q] by {
                    if q < n {
                        assert(s0[p] != s0[q]);
                    } else {
                        assert(s1[p] == s0[p] && s1[q] == id);
                        assert(!s0.contains(id));
                    }
                }
                assert forall|t: TileId| t != id implies s1.contains(t) == s0.contains(t) by {
                    if s0.contains(t) {
                        let j = choose|j: int| 0 <= j < s0.len() && s0[j] == t;
                        assert(s1[j] == t);
                    }
                    if s1.contains(t) {
                        let j = choose|j: int| 0 <= j < s1.len() && s1[j] == t;
                        assert(j < n);
                        assert(s0[j] == t);
                    }
                }
            }
        }
    }

    /// Mark a tile as being loaded.
    pub fn mark_loading(&mut self, id: TileId)
        requires
            old(self).wf(),
        ensures
            final(self).wf(),
            final(self).entries_view() == old(self).entries_view(),
            final(self).loading_view().contains(id),
            forall|t: TileId|
                t != id ==> final(self).loading_view().contains(t) == old(
                    self,
                ).loading_view().contains(t),
    {
        self.mark_downloading(id);
    }

    /// Check if a tile is already being downloaded.
    pub fn is_loading(&self, id: &TileId) -> (r: bool)
        requires
            self.wf(),
        ensures
            r == self.loading_view().contains(*id),
    {
        let mut i: usize = 0;
        while i < self.loading.len()
            invariant
                i <= self.loading@.len(),
                forall|j: int| 0 <= j < i ==> self.loading@[j] != *id,
            decreases self.loading@.len() - i,
        {
            if self.loading[i] == *id {
                return true;
            }
            i = i + 1;
        }
        false
    }
}

impl Default for TileCache {
    /// An empty cache.
    fn default() -> (c: TileCache)
        ensures
            c.wf(),
            c.entries_view().len() == 0,
            c.loading_view().len() == 0,
    {
        TileCache::new()
    }
}

} // verus!