//! The download queue: tiles wait here in arrival order, move into the
//! downloading set in bounded batches, and leave it when their fetch
//! completes.  Addresses already cached or already pending are never
//! queued twice.

use vstd::prelude::*;
use crate::types::{TileId, TileError, TileLoadResult, image_ok};
use crate::cache::{TileCache, has_tile, tile_data};
use crate::channel::TileLoadedEvent;
use crate::quadtree::TileQuadtree;
use crate::loader::{ids_distinct, ids_disjoint};

verus! {

/// Maximum batch size for tile downloads.
pub const MAX_BATCH_SIZE: usize = 64;

/// Whether the list holds the given address.
fn ids_contain(v: &Vec<TileId>, t: &TileId) -> (r: bool)
    ensures
        r == v@.contains(*t),
{
    let mut i: usize = 0;
    while i < v.len()
        invariant
            i <= v@.len(),
            forall|j: int| 0 <= j < i ==> v@[j] != *t,
        decreases v@.len() - i,
    {
        if v[i] == *t {
            return true;
        }
        i = i + 1;
    }
    proof {
        assert(forall|j: int| 0 <= j < v@.len() ==> v@[j] != *t);
    }
    false
}

/// Resource that manages the queue of tiles to be downloaded.
pub struct TileDownloadQueue {
    /// Tiles queued for download, in arrival order
    queued: Vec<TileId>,
    /// Tiles that are currently being downloaded
    downloading: Vec<TileId>,
}

impl TileDownloadQueue {
    pub closed spec fn wf(self) -> bool {
        &&& ids_distinct(self.queued@)
        &&& ids_distinct(self.downloading@)
        &&& ids_disjoint(self.queued@, self.downloading@)
    }

    pub closed spec fn queued_view(self) -> Seq<TileId> {
        self.queued@
    }

    pub closed spec fn downloading_view(self) -> Seq<TileId> {
        self.downloading@
    }

    /// Create a new, empty download queue.
    pub fn new() -> (q: TileDownloadQueue)
        ensures
            q.wf(),
            q.queued_view().len() == 0,
            q.downloading_view().len() == 0,
    {
        TileDownloadQueue { queued: Vec::new(), downloading: Vec::new() }
    }

    /// Queue a tile for download if not already queued or downloading.
    pub fn queue(&mut self, tile_id: TileId)
        requires
            old(self).wf(),
        ensures
            final(self).wf(),
            final(self).downloading_view() == old(self).downloading_view(),
            (old(self).queued_view().contains(tile_id) || old(self).downloading_view().contains(
                tile_id,
            )) ==> final(self).queued_view() == old(self).queued_view(),
            (!old(self).queued_view().contains(tile_id) && !old(self).downloading_view().contains(
                tile_id,
            )) ==> final(self).queued_view() == old(self).queued_view().push(tile_id),
    {
        let in_queue = ids_contain(&self.queued, &tile_id);
        let in_flight = ids_contain(&self.downloading, &tile_id);
        if in_queue || in_flight {
            return ;
        }
        let ghost q0 = self.queued@;
        self.queued.push(tile_id);
        proof {
            let q1 = self.queued@;
            let n = q0.len() as int;
            assert forall|i: int, j: int| 0 <= i < j < q1.len() implies q1[i] != q1[j] by {
                if j < n {
                    assert(q0[i] != q0[j]);
                } else {
                    assert(q1[i] == q0[i] && q1[j] == tile_id);
                    assert(q0.contains(q0[i]));
                }
            }
            assert forall|t: TileId| q1.contains(t) implies !self.downloading@.contains(t) by {
                let k = choose|k: int| 0 <= k < q1.len() && q1[k] == t;
                if k < n {
                    assert(q0[k] == t);
                    assert(q0.contains(t));
                }
            }
        }
    }

    /// Get the next batch of tiles to download, up to `MAX_BATCH_SIZE`:
    /// the front of the queue moves into the downloading set.
    pub fn get_next_batch(&mut self) -> (batch: Vec<TileId>)
        requires
            old(self).wf(),
        ensures
            final(self).wf(),
            old(self).queued_view() == batch@ + final(self).queued_view(),
            final(self).downloading_view() == old(self).downloading_view() + batch@,
            batch@.len() <= MAX_BATCH_SIZE,
            final(self).queued_view().len() == 0 || batch@.len() == MAX_BATCH_SIZE,
            forall|i: int|
                0 <= i < batch@.len() ==> !old(self).downloading_view().contains(
                    #[trigger] batch@[i],
                ),
    {
        let ghost q0 = self.queued@;
        let ghost d0 = self.downloading@;
        let mut batch: Vec<TileId> = Vec::new();
        while batch.len() < MAX_BATCH_SIZE && self.queued.len() > 0
            invariant
                ids_distinct(self.queued@),
                ids_distinct(self.downloading@),
                ids_disjoint(self.queued@, self.downloading@),
                q0 == batch@ + self.queued@,
                self.downloading@ == d0 + batch@,
                batch@.len() <= MAX_BATCH_SIZE,
            decreases self.queued@.len(),
        {
            let ghost qc = self.queued@;
            let ghost dc = self.downloading@;
            let id = self.queued.remove(0);
            self.downloading.push(id);
            batch.push(id);
            proof {
                let qn = self.queued@;
                let dn = self.downloading@;
                assert(qc == seq![id] + qn);
                assert(q0 =~= batch@ + qn);
                assert(dn =~= d0 + batch@);
                assert(qc.contains(id)) by {
                    assert(qc[0] == id);
                }
                assert(!dc.contains(id));
                let m = dc.len() as int;
                assert forall|i: int, j: int| 0 <= i < j < dn.len() implies dn[i] != dn[j] by {
                    if j < m {
                        assert(dc[i] != dc[j]);
                    } else {
                        assert(dn[i] == dc[i] && dn[j] == id);
                        assert(dc.contains(dc[i]));
                    }
                }
                assert forall|i: int, j: int| 0 <= i < j < qn.len() implies qn[i] != qn[j] by {
                    assert(qc[i + 1] == qn[i] && qc[j + 1] == qn[j]);
                }
                assert forall|t: TileId| qn.contains(t) implies !dn.contains(t) by {
                    let k = choose|k: int| 0 <= k < qn.len() && qn[k] == t;
                    assert(qc[k + 1] == t);
                    assert(qc.contains(t));
                    assert(!dc.contains(t));
                    assert(t != id) by {
                        assert(qc[0] == id);
                    }
                    if dn.contains(t) {
                        let l = choose|l: int| 0 <= l < dn.len() && dn[l] == t;
                        assert(l < m);
                        assert(dc[l] == t);
                    }
                }
            }
        }
        proof {
            assert forall|i: int|
                0 <= i < batch@.len() implies !old(self).downloading_view().contains(
                #[trigger] batch@[i],
            ) by {
                assert(q0[i] == batch@[i]);
                assert(q0.contains(batch@[i]));
            }
        }
        batch
    }

    /// Mark a tile as completed (no longer downloading); an address not in
    /// flight is a no-op.
    pub fn mark_completed(&mut self, tile_id: &TileId)
        requires
            old(self).wf(),
        ensures
            final(self).wf(),
            final(self).queued_view() == old(self).queued_view(),
            !final(self).downloading_view().contains(*tile_id),
            forall|t: TileId|
                t != *tile_id ==> final(self).downloading_view().contains(t) == old(
                    self,
                ).downloading_view().contains(t),
    {
        let mut i: usize = 0;
        while i < self.downloading.len()
            invariant
                old(self).wf(),
                self.queued@ == old(self).queued@,
                self.downloading@ == old(self).downloading@,
                i <= self.downloading@.len(),
                forall|j: int| 0 <= j < i ==> self.downloading@[j] != *tile_id,
            decreases self.downloading@.len() - i,
        {
            if self.downloading[i] == *tile_id {
                let ghost s0 = self.downloading@;
                self.downloading.remove(i);
                proof {
                    let s1 = self.downloading@;
                    let n = i as int;
                    assert(s0[n] == *tile_id);
                    assert forall|p: int, q: int| 0 <= p < q < s1.len() implies s1[p] != s1[q] by {
                        let p0 = if p < n { p } else { p + 1 };
                        let q0 = if q < n { q } else { q + 1 };
                        assert(s1[p] == s0[p0] && s1[q] == s0[q0]);
                    }
                    assert forall|t: TileId| s1.contains(t) implies s0.contains(t) by {
                        let j = choose|j: int| 0 <= j < s1.len() && s1[j] == t;
                        let j0 = if j < n { j } else { j + 1 };
                        assert(s0[j0] == t);
                    }
                    assert(!s1.contains(*tile_id)) by {
                        if s1.contains(*tile_id) {
                            let j = choose|j: int| 0 <= j < s1.len() && s1[j] == *tile_id;
                            let j0 = if j < n { j } else { j + 1 };
                            assert(s0[j0] == *tile_id);
                            assert(j0 != n);
                            if j0 < n {
                                assert(s0[j0] != s0[n]);
                            } else {
                                assert(s0[n] != s0[j0]);
                            }
                        }
                    }
                    assert forall|t: TileId| t != *tile_id && s0.contains(t) implies s1.contains(
                        t,
                    ) by {
                        let j = choose|j: int| 0 <= j < s0.len() && s0[j] == t;
                        if j < n {
                            assert(s1[j] == t);
                        } else {
                            assert(s1[j - 1] == t);
                        }
                    }
                    assert forall|t: TileId| self.queued@.contains(t) implies !s1.contains(t) by {
                        assert(!s0.contains(t));
                    }
                }
                return ;
            }
            i = i + 1;
        }
        proof {
            assert(forall|j: int|
                0 <= j < self.downloading@.len() ==> self.downloading@[j] != *tile_id);
        }
    }

    /// Check if nothing is queued and nothing is downloading.
    pub fn is_empty(&self) -> (r: bool)
        ensures
            r == (self.queued_view().len() == 0 && self.downloading_view().len() == 0),
    {
        self.queued.len() == 0 && self.downloading.len() == 0
    }

    /// Get the number of queued tiles.
    pub fn queued_count(&self) -> (n: usize)
        ensures
            n == self.queued_view().len(),
    {
        self.queued.len()
    }

    /// Get the number of tiles currently downloading.
    pub fn downloading_count(&self) -> (n: usize)
        ensures
            n == self.downloading_view().len(),
    {
        self.downloading.len()
    }

    /// Clear the queue.
    pub fn clear(&mut self)
        ensures
            final(self).wf(),
            final(self).queued_view().len() == 0,
            final(self).downloading_view().len() == 0,
    {
        self.queued.clear();
        self.downloading.clear();
    }
}

impl Default for TileDownloadQueue {
    /// An empty download queue.
    fn default() -> (q: TileDownloadQueue)
        ensures
            q.wf(),
            q.queued_view().len() == 0,
            q.downloading_view().len() == 0,
    {
        TileDownloadQueue::new()
    }
}

/// Queue a tile for download, unless it is already cached or the quadtree
/// rules it out.
pub fn queue_tile_for_download(
    id: TileId,
    cache: &TileCache,
    quadtree: &TileQuadtree,
    download_queue: &mut TileDownloadQueue,
)
    requires
        cache.wf(),
        old(download_queue).wf(),
    ensures
        final(download_queue).wf(),
        final(download_queue).downloading_view() == old(download_queue).downloading_view(),
        has_tile(cache.entries_view(), id) || id.zoom > quadtree.spec_max_zoom()
            ==> final(download_queue).queued_view() == old(download_queue).queued_view(),
        (!has_tile(cache.entries_view(), id) && id.zoom <= quadtree.spec_max_zoom()
            && !old(download_queue).queued_view().contains(id)
            && !old(download_queue).downloading_view().contains(id))
            ==> final(download_queue).queued_view() == old(download_queue).queued_view().push(id),
{
    if cache.contains(&id) {
        return ;
    }
    if !quadtree.should_load_tile(id) {
        return ;
    }
    download_queue.queue(id);
}

/// Apply one completed download, as the frame thread: the download queue
/// frees the slot; a successful download's bytes go into the cache, with
/// a rejected payload reported as a cache error rather than cached; a
/// failed download is passed through for the caller to render a fallback.
pub fn process_download_result(
    event: TileLoadedEvent,
    cache: &mut TileCache,
    download_queue: &mut TileDownloadQueue,
    now: u64,
) -> (r: TileLoadResult)
    requires
        old(cache).wf(),
        old(download_queue).wf(),
    ensures
        final(cache).wf(),
        final(download_queue).wf(),
        final(download_queue).queued_view() == old(download_queue).queued_view(),
        !final(download_queue).downloading_view().contains(event.tile_id),
        r.tile_id == event.tile_id,
        match event.data {
            Ok(data) => {
                &&& (image_ok(data@) <==> r.result is Ok)
                &&& (r.result is Ok ==> has_tile(final(cache).entries_view(), event.tile_id)
                    && tile_data(final(cache).entries_view(), event.tile_id) == data@)
                &&& (r.result is Err ==> r.result->Err_0 is CacheError
                    && final(cache).entries_view() == old(cache).entries_view())
            },
            Err(e) => {
                &&& r.result is Err
                &&& (e is NotFound ==> r.result->Err_0 is NotFound)
                &&& (e is DownloadFailed ==> r.result->Err_0 is DownloadFailed)
                &&& (e is LoadError ==> r.result->Err_0 is LoadError)
                &&& (e is CacheError ==> r.result->Err_0 is CacheError)
                &&& final(cache).entries_view() == old(cache).entries_view()
            },
        },
{
    download_queue.mark_completed(&event.tile_id);
    match event.data {
        Ok(data) => {
            match cache.insert(event.tile_id, data, now) {
                Ok(()) => TileLoadResult { tile_id: event.tile_id, result: Ok(()) },
                Err(_) => TileLoadResult {
                    tile_id: event.tile_id,
                    result: Err(TileError::CacheError),
                },
            }
        },
        Err(error) => TileLoadResult { tile_id: event.tile_id, result: Err(error) },
    }
}

/// Note that a tile's download is about to start: the cache records it as
/// loading, unless it is already cached or the quadtree rules it out.
/// Actually fetching the bytes is the caller's job.
pub fn start_tile_download(id: TileId, cache: &mut TileCache, quadtree: &TileQuadtree)
    requires
        old(cache).wf(),
    ensures
        final(cache).wf(),
        final(cache).entries_view() == old(cache).entries_view(),
        has_tile(old(cache).entries_view(), id) || id.zoom > quadtree.spec_max_zoom()
            ==> final(cache).loading_view() == old(cache).loading_view(),
        (!has_tile(old(cache).entries_view(), id) && id.zoom <= quadtree.spec_max_zoom())
            ==> final(cache).loading_view().contains(id),
{
    if cache.contains(&id) {
        return ;
    }
    if !quadtree.should_load_tile(id) {
        return ;
    }
    cache.mark_downloading(id);
}

} // verus!