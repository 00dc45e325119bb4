//! Tile loading: the retry/fallback classification of fetch attempts
//! (cache first, bounded retries with backoff for transient failures, no
//! retry for definitive ones), and the bookkeeping of queued and in-flight
//! downloads that the frame loop drives.

use vstd::prelude::*;
use vstd::string::StringExecFns;
use crate::types::{TileId, TileError, image_ok, calculate_image_dimensions};
use crate::osm::{u32_to_string, dec_chars};

verus! {

/// Maximum number of concurrent downloads.
pub const MAX_CONCURRENT_LOADS: usize = 8;

/// How many fetch attempts a single tile load may use.
pub const MAX_FETCH_ATTEMPTS: u32 = 3;

/// Fixed backoff between retries, in milliseconds.
pub const RETRY_BACKOFF_MS: u64 = 100;

/// What one fetch attempt came back with, as the transport reports it.
pub enum FetchOutcome {
    /// The server answered with the tile's bytes
    Success(Vec<u8>),
    /// The server definitively does not have the tile
    NotFound,
    /// A timeout, connection error or server-side error: worth retrying
    Transient,
}

/// What the loader decides after an event: try the network again after a
/// pause, or finish with a definitive outcome.
pub enum LoaderStep {
    /// Fetch again after waiting `backoff_ms`
    Retry { backoff_ms: u64 },
    /// The tile is loaded; `persist` says whether to write it to the disk
    /// cache (bytes fresh from the network are persisted, cached bytes are
    /// not)
    Loaded { bytes: Vec<u8>, persist: bool },
    /// The load failed definitively; the caller renders a fallback
    Failed { error: TileError },
}

/// What the loader decides about a disk-cache probe.
pub enum CacheStep {
    /// The cached bytes are a well-formed image: use them
    UseCached { bytes: Vec<u8> },
    /// The cached bytes are corrupt: delete the file and fetch instead
    DeleteCorrupt,
    /// Nothing cached: fetch
    Fetch,
}

/// One tile load in progress: how many fetch attempts it has used.
pub struct DownloadAttempt {
    pub tile_id: TileId,
    pub attempts_used: u32,
    pub max_attempts: u32,
}

impl DownloadAttempt {
    pub open spec fn wf(self) -> bool {
        &&& self.max_attempts >= 1
        &&& self.attempts_used <= self.max_attempts
    }

    /// Start a load for a tile with the given attempt budget.
    pub fn new(tile_id: TileId, max_attempts: u32) -> (a: DownloadAttempt)
        requires
            max_attempts >= 1,
        ensures
            a.wf(),
            a.tile_id == tile_id,
            a.attempts_used == 0,
            a.max_attempts == max_attempts,
    {
        DownloadAttempt { tile_id, attempts_used: 0, max_attempts }
    }

    /// Classify a disk-cache probe: well-formed cached bytes are used as
    /// they are, corrupt bytes are deleted and treated as a miss, and a
    /// miss falls through to the network.
    pub fn on_cache_probe(&self, cached: Option<Vec<u8>>) -> (step: CacheStep)
        ensures
            match step {
                CacheStep::UseCached { bytes } => cached is Some && image_ok(
                    cached->Some_0@,
                ) && bytes@ == cached->Some_0@,
                CacheStep::DeleteCorrupt => cached is Some && !image_ok(cached->Some_0@),
                CacheStep::Fetch => cached is None,
            },
    {
        match cached {
            Some(bytes) => {
                if calculate_image_dimensions(bytes.as_slice()).is_some() {
                    CacheStep::UseCached { bytes }
                } else {
                    CacheStep::DeleteCorrupt
                }
            },
            None => CacheStep::Fetch,
        }
    }

    /// Classify the result of one network attempt.  A well-formed success
    /// finishes with `Loaded` and is persisted; a definitive not-found
    /// finishes with `Failed` at once, using no further attempts; a
    /// transient failure (or a malformed payload) retries with a fixed
    /// backoff until the attempt budget is spent, then fails.
    pub fn on_fetch_result(&mut self, outcome: FetchOutcome) -> (step: LoaderStep)
        requires
            old(self).wf(),
            old(self).attempts_used < old(self).max_attempts,
        ensures
            final(self).wf(),
            final(self).tile_id == old(self).tile_id,
            final(self).max_attempts == old(self).max_attempts,
            match outcome {
                FetchOutcome::Success(bytes) => {
                    &&& (image_ok(bytes@) <==> step matches LoaderStep::Loaded { .. })
                    &&& (step matches LoaderStep::Loaded { bytes: b, persist } ==> b@ == bytes@
                        && persist)
                    &&& (!image_ok(bytes@) ==> final(self).attempts_used == old(self).attempts_used
                        + 1)
                    &&& (!image_ok(bytes@) && final(self).attempts_used < final(self).max_attempts
                        ==> (step matches LoaderStep::Retry { backoff_ms } && backoff_ms
                        == RETRY_BACKOFF_MS))
                    &&& (!image_ok(bytes@) && final(self).attempts_used >= final(self).max_attempts
                        ==> (step matches LoaderStep::Failed { error } && error is LoadError))
                },
                FetchOutcome::NotFound => {
                    &&& (step matches LoaderStep::Failed { error } && error is NotFound)
                    &&& final(self).attempts_used == old(self).attempts_used + 1
                },
                FetchOutcome::Transient => {
                    &&& final(self).attempts_used == old(self).attempts_used + 1
                    &&& (if final(self).attempts_used < final(self).max_attempts {
                        step matches LoaderStep::Retry { backoff_ms } && backoff_ms
                            == RETRY_BACKOFF_MS
                    } else {
                        (step matches LoaderStep::Failed { error } && error is DownloadFailed)
                    })
                },
            },
    {
        self.attempts_used = self.attempts_used + 1;
        match outcome {
            FetchOutcome::Success(bytes) => {
                if calculate_image_dimensions(bytes.as_slice()).is_some() {
                    LoaderStep::Loaded { bytes, persist: true }
                } else if self.attempts_used < self.max_attempts {
                    LoaderStep::Retry { backoff_ms: RETRY_BACKOFF_MS }
                } else {
                    LoaderStep::Failed {
                        error: TileError::LoadError(String::from_str("Failed to parse image")),
                    }
                }
            },
            FetchOutcome::NotFound => {
                LoaderStep::Failed { error: TileError::NotFound }
            },
            FetchOutcome::Transient => {
                if self.attempts_used < self.max_attempts {
                    LoaderStep::Retry { backoff_ms: RETRY_BACKOFF_MS }
                } else {
                    LoaderStep::Failed { error: TileError::DownloadFailed }
                }
            },
        }
    }
}

impl Default for TileLoader {
    /// A loader pointed at the standard tile server, with nothing queued.
    fn default() -> (l: TileLoader)
        ensures
            l.wf(),
            l.queue_view().len() == 0,
            l.active_view().len() == 0,
    {
        TileLoader::new()
    }
}

/// The tile server URL for a tile under a configurable server base:
/// `{server}/{zoom}/{x}/{y}.png`.
pub open spec fn server_url_chars(server: Seq<char>, z: nat, x: nat, y: nat) -> Seq<char> {
    server + "/"@ + dec_chars(z) + "/"@ + dec_chars(x) + "/"@ + dec_chars(y) + ".png"@
}

/// No address repeats in the list.
pub open spec fn ids_distinct(s: Seq<TileId>) -> bool {
    forall|i: int, j: int| 0 <= i < j < s.len() ==> s[i] != s[j]
}

/// No address appears in both lists.
pub open spec fn ids_disjoint(a: Seq<TileId>, b: Seq<TileId>) -> bool {
    forall|t: TileId| a.contains(t) ==> !b.contains(t)
}

/// Whether the list holds the given address.
fn ids_contain(v: &Vec<TileId>, t: &TileId) -> (r: bool)
    ensures
        r == v@.contains(*t),
{
    let mut i: usize = 0;
    while i < v.len()
        invariant
            i <= v@.len(),
            forall|j: int| 0 <= j < i ==> v@[j] != *t,
        decreases v@.len() - i,
    {
        if v[i] == *t {
            return true;
        }
        i = i + 1;
    }
    proof {
        assert(forall|j: int| 0 <= j < v@.len() ==> v@[j] != *t);
    }
    false
}

/// Struct to manage the loading of tiles from a tile server.
pub struct TileLoader {
    /// Queue of tiles to be downloaded, in arrival order
    download_queue: Vec<TileId>,
    /// Tiles whose download is currently in flight
    active_downloads: Vec<TileId>,
    /// Base URL for the tile server
    tile_server_url: String,
}

impl TileLoader {
    pub closed spec fn wf(self) -> bool {
        &&& ids_distinct(self.download_queue@)
        &&& ids_distinct(self.active_downloads@)
        &&& ids_disjoint(self.download_queue@, self.active_downloads@)
        &&& self.active_downloads@.len() <= MAX_CONCURRENT_LOADS
    }

    pub closed spec fn queue_view(self) -> Seq<TileId> {
        self.download_queue@
    }

    pub closed spec fn active_view(self) -> Seq<TileId> {
        self.active_downloads@
    }

    pub closed spec fn server_view(self) -> Seq<char> {
        self.tile_server_url@
    }

    /// Whether a tile is queued or actively downloading.
    pub open spec fn pending(self, t: TileId) -> bool {
        self.queue_view().contains(t) || self.active_view().contains(t)
    }

    /// Create a new TileLoader with the default tile server.
    pub fn new() -> (l: TileLoader)
        ensures
            l.wf(),
            l.queue_view().len() == 0,
            l.active_view().len() == 0,
            l.server_view() == "https://tile.openstreetmap.org"@,
    {
        TileLoader {
            download_queue: Vec::new(),
            active_downloads: Vec::new(),
            tile_server_url: String::from_str("https://tile.openstreetmap.org"),
        }
    }

    /// Set the tile server URL.
    pub fn set_tile_server(&mut self, url: String)
        requires
            old(self).wf(),
        ensures
            final(self).wf(),
            final(self).server_view() == url@,
            final(self).queue_view() == old(self).queue_view(),
            final(self).active_view() == old(self).active_view(),
    {
        self.tile_server_url = url;
    }

    /// The URL a tile is fetched from, under the configured server base.
    pub fn tile_url(&self, tile_id: &TileId) -> (url: String)
        ensures
            url@ == server_url_chars(
                self.server_view(),
                tile_id.zoom as nat,
                tile_id.x as nat,
                tile_id.y as nat,
            ),
    {
        let mut url = self.tile_server_url.clone();
        url.append("/");
        let z = u32_to_string(tile_id.zoom as u32);
        url.append(z.as_str());
        url.append("/");
        let x = u32_to_string(tile_id.x);
        url.append(x.as_str());
        url.append("/");
        let y = u32_to_string(tile_id.y);
        url.append(y.as_str());
        url.append(".png");
        url
    }

    /// Queue a single tile for download; a tile already queued or in
    /// flight is skipped.
    pub fn queue_tile(&mut self, tile_id: TileId)
        requires
            old(self).wf(),
        ensures
            final(self).wf(),
            final(self).active_view() == old(self).active_view(),
            final(self).server_view() == old(self).server_view(),
            old(self).pending(tile_id) ==> final(self).queue_view() == old(self).queue_view(),
            !old(self).pending(tile_id) ==> final(self).queue_view() == old(
                self,
            ).queue_view().push(tile_id),
            forall|t: TileId| final(self).pending(t) == (old(self).pending(t) || t == tile_id),
    {
        let in_queue = ids_contain(&self.download_queue, &tile_id);
        let in_active = ids_contain(&self.active_downloads, &tile_id);
        if in_queue || in_active {
            return ;
        }
        let ghost q0 = self.download_queue@;
        self.download_queue.push(tile_id);
        proof {
            let q1 = self.download_queue@;
            let n = q0.len() as int;
            assert forall|i: int, j: int| 0 <= i < j < q1.len() implies q1[i] != q1[j] by {
                if j < n {
                    assert(q0[i] != q0[j]);
                } else {
                    assert(q1[i] == q0[i] && q1[j] == tile_id);
                    assert(q0.contains(q0[i]));
                }
            }
            assert forall|t: TileId| q1.contains(t) implies (q0.contains(t) || t == tile_id) by {
                let k = choose|k: int| 0 <= k < q1.len() && q1[k] == t;
                if k < n {
                    assert(q0[k] == t);
                }
            }
            assert forall|t: TileId| q0.contains(t) implies q1.contains(t) by {
                let k = choose|k: int| 0 <= k < q0.len() && q0[k] == t;
                assert(q1[k] == t);
            }
            assert(q1[n] == tile_id);
        }
    }

    /// Queue multiple tiles for download, skipping those already pending.
    pub fn queue_tiles(&mut self, tile_ids: &Vec<TileId>)
        requires
            old(self).wf(),
        ensures
            final(self).wf(),
            final(self).active_view() == old(self).active_view(),
            final(self).server_view() == old(self).server_view(),
            forall|t: TileId|
                final(self).pending(t) == (old(self).pending(t) || tile_ids@.contains(t)),
    {
        let mut i: usize = 0;
        while i < tile_ids.len()
            invariant
                self.wf(),
                self.active_view() == old(self).active_view(),
                self.server_view() == old(self).server_view(),
                i <= tile_ids@.len(),
                forall|t: TileId|
                    self.pending(t) == (old(self).pending(t) || (exists|k: int|
                        0 <= k < i && tile_ids@[k] == t)),
            decreases tile_ids@.len() - i,
        {
            self.queue_tile(tile_ids[i]);
            proof {
                assert(tile_ids@[i as int] == tile_ids@[i as int]);
            }
            i = i + 1;
        }
        proof {
            assert forall|t: TileId|
                final(self).pending(t) == (old(self).pending(t) || tile_ids@.contains(t)) by {
                if tile_ids@.contains(t) {
                    let k = choose|k: int| 0 <= k < tile_ids@.len() && tile_ids@[k] == t;
                }
            }
        }
    }

    /// Start downloads for queued tiles, up to the maximum concurrent
    /// limit: the front of the queue moves into the in-flight set, and the
    /// returned batch is what the caller must now actually fetch.
    pub fn start_downloads(&mut self) -> (batch: Vec<TileId>)
        requires
            old(self).wf(),
        ensures
            final(self).wf(),
            final(self).server_view() == old(self).server_view(),
            old(self).queue_view() == batch@ + final(self).queue_view(),
            final(self).active_view() == old(self).active_view() + batch@,
            final(self).active_view().len() <= MAX_CONCURRENT_LOADS,
            final(self).queue_view().len() == 0 || final(self).active_view().len()
                == MAX_CONCURRENT_LOADS,
            forall|i: int|
                0 <= i < batch@.len() ==> !old(self).active_view().contains(#[trigger] batch@[i]),
            forall|t: TileId| final(self).pending(t) == old(self).pending(t),
    {
        let ghost q0 = self.download_queue@;
        let ghost a0 = self.active_downloads@;
        let mut batch: Vec<TileId> = Vec::new();
        while self.active_downloads.len() < MAX_CONCURRENT_LOADS && self.download_queue.len() > 0
            invariant
                ids_distinct(self.download_queue@),
                ids_distinct(self.active_downloads@),
                ids_disjoint(self.download_queue@, self.active_downloads@),
                self.active_downloads@.len() <= MAX_CONCURRENT_LOADS,
                self.tile_server_url@ == old(self).tile_server_url@,
                q0 == batch@ + self.download_queue@,
                self.active_downloads@ == a0 + batch@,
            decreases self.download_queue@.len(),
        {
            let ghost qc = self.download_queue@;
            let ghost ac = self.active_downloads@;
            let id = self.download_queue.remove(0);
            self.active_downloads.push(id);
            batch.push(id);
            proof {
                let qn = self.download_queue@;
                let an = self.active_downloads@;
                assert(qc == seq![id] + qn);
                assert(q0 =~= batch@ + qn);
                assert(an =~= a0 + batch@);
                assert(qc.contains(id)) by {
                    assert(qc[0] == id);
                }
                assert(!ac.contains(id));
                let m = ac.len() as int;
                assert forall|i: int, j: int| 0 <= i < j < an.len() implies an[i] != an[j] by {
                    if j < m {
                        assert(ac[i] != ac[j]);
                    } else {
                        assert(an[i] == ac[i] && an[j] == id);
                        assert(ac.contains(ac[i]));
                    }
                }
                assert forall|i: int, j: int| 0 <= i < j < qn.len() implies qn[i] != qn[j] by {
                    assert(qc[i + 1] == qn[i] && qc[j + 1] == qn[j]);
                }
                assert forall|t: TileId| qn.contains(t) implies !an.contains(t) by {
                    let k = choose|k: int| 0 <= k < qn.len() && qn[k] == t;
                    assert(qc[k + 1] == t);
                    assert(qc.contains(t));
                    assert(!ac.contains(t));
                    assert(t != id) by {
                        assert(qc[0] == id);
                    }
                    if an.contains(t) {
                        let l = choose|l: int| 0 <= l < an.len() && an[l] == t;
                        assert(l < m);
                        assert(ac[l] == t);
                    }
                }
            }
        }
        proof {
            assert forall|t: TileId| final(self).pending(t) == old(self).pending(t) by {
                let qn = self.download_queue@;
                let an = self.active_downloads@;
                if q0.contains(t) {
                    let k = choose|k: int| 0 <= k < q0.len() && q0[k] == t;
                    if k < batch@.len() {
                        assert(batch@[k] == t);
                        assert(an.contains(t)) by {
                            assert(an[a0.len() + k] == t);
                        }
                    } else {
                        assert(qn[k - batch@.len()] == t);
                        assert(qn.contains(t));
                    }
                }
                if a0.contains(t) {
                    let k = choose|k: int| 0 <= k < a0.len() && a0[k] == t;
                    assert(an[k] == t);
                    assert(an.contains(t));
                }
                if qn.contains(t) {
                    let k = choose|k: int| 0 <= k < qn.len() && qn[k] == t;
                    assert(q0[batch@.len() + k] == t);
                    assert(q0.contains(t));
                }
                if an.contains(t) {
                    let k = choose|k: int| 0 <= k < an.len() && an[k] == t;
                    if k < a0.len() {
                        assert(a0[k] == t);
                        assert(a0.contains(t));
                    } else {
                        assert(batch@[k - a0.len()] == t);
                        assert(q0[k - a0.len()] == t);
                        assert(q0.contains(t));
                    }
                }
            }
            assert forall|i: int|
                0 <= i < batch@.len() implies !old(self).active_view().contains(
                #[trigger] batch@[i],
            ) by {
                assert(q0[i] == batch@[i]);
                assert(q0.contains(batch@[i]));
            }
        }
        batch
    }

    /// Record that a download finished (in success or failure), freeing
    /// its slot; completing an address not in flight is a no-op.
    pub fn complete_download(&mut self, tile_id: &TileId)
        requires
            old(self).wf(),
        ensures
            final(self).wf(),
            final(self).queue_view() == old(self).queue_view(),
            final(self).server_view() == old(self).server_view(),
            !final(self).active_view().contains(*tile_id),
            forall|t: TileId|
                t != *tile_id ==> final(self).active_view().contains(t) == old(
                    self,
                ).active_view().contains(t),
    {
        let mut i: usize = 0;
        while i < self.active_downloads.len()
            invariant
                old(self).wf(),
                self.download_queue@ == old(self).download_queue@,
                self.active_downloads@ == old(self).active_downloads@,
                self.tile_server_url@ == old(self).tile_server_url@,
                i <= self.active_downloads@.len(),
                forall|j: int| 0 <= j < i ==> self.active_downloads@[j] != *tile_id,
            decreases self.active_downloads@.len() - i,
        {
            if self.active_downloads[i].zoom == tile_id.zoom && self.active_downloads[i].x
                == tile_id.x && self.active_downloads[i].y == tile_id.y {
                let ghost s0 = self.active_downloads@;
                self.active_downloads.remove(i);
                proof {
                    let s1 = self.active_downloads@;
                    let n = i as int;
                    assert(s0[n] == *tile_id);
                    assert forall|p: int, q: int| 0 <= p < q < s1.len() implies s1[p] != s1[q] by {
                        let p0 = if p < n { p } else { p + 1 };
                        let q0 = if q < n { q } else { q + 1 };
                        assert(s1[p] == s0[p0] && s1[q] == s0[q0]);
                    }
                    assert forall|t: TileId| s1.contains(t) implies s0.contains(t) by {
                        let j = choose|j: int| 0 <= j < s1.len() && s1[j] == t;
                        let j0 = if j < n { j } else { j + 1 };
                        assert(s0[j0] == t);
                    }
                    assert(!s1.contains(*tile_id)) by {
                        if s1.contains(*tile_id) {
                            let j = choose|j: int| 0 <= j < s1.len() && s1[j] == *tile_id;
                            let j0 = if j < n { j } else { j + 1 };
                            assert(s0[j0] == *tile_id);
                            assert(j0 != n);
                            if j0 < n {
                                assert(s0[j0] != s0[n]);
                            } else {
                                assert(s0[n] != s0[j0]);
                            }
                        }
                    }
                    assert forall|t: TileId| t != *tile_id && s0.contains(t) implies s1.contains(
                        t,
                    ) by {
                        let j = choose|j: int| 0 <= j < s0.len() && s0[j] == t;
                        if j < n {
                            assert(s1[j] == t);
                        } else {
                            assert(s1[j - 1] == t);
                        }
                    }
                }
                return ;
            }
            i = i + 1;
        }
        proof {
            assert(forall|j: int|
                0 <= j < self.active_downloads@.len() ==> self.active_downloads@[j] != *tile_id);
        }
    }

    /// Get the number of active downloads.
    pub fn active_download_count(&self) -> (n: usize)
        ensures
            n == self.active_view().len(),
    {
        self.active_downloads.len()
    }

    /// Get the number of queued downloads.
    pub fn queued_download_count(&self) -> (n: usize)
        ensures
            n == self.queue_view().len(),
    {
        self.download_queue.len()
    }

    /// Clear the download queue; in-flight downloads keep running.
    pub fn clear_queue(&mut self)
        requires
            old(self).wf(),
        ensures
            final(self).wf(),
            final(self).queue_view().len() == 0,
            final(self).active_view() == old(self).active_view(),
            final(self).server_view() == old(self).server_view(),
    {
        self.download_queue.clear();
    }

    /// Check if a tile is pending (queued or actively downloading).
    pub fn is_pending(&self, tile_id: &TileId) -> (r: bool)
        requires
            self.wf(),
        ensures
            r == self.pending(*tile_id),
    {
        ids_contain(&self.download_queue, tile_id) || ids_contain(&self.active_downloads, tile_id)
    }
}

} // verus!