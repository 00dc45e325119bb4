//! Priority scheduler for tile fetches: pending requests are coalesced per
//! address (the higher priority wins), and each cycle hands out at most as
//! many addresses as there are free download slots, highest priority first.

use vstd::prelude::*;
use crate::types::TileId;

verus! {

/// Maximum number of concurrent downloads.
pub const MAX_CONCURRENT_DOWNLOADS: usize = 6;

/// A tile request with priority information.
#[derive(Debug, Clone, Copy)]
pub struct TileRequest {
    pub id: TileId,
    pub priority: u32,
    pub request_time: u64,
}

/// No two requests share an address.
pub open spec fn req_ids_unique(s: Seq<TileRequest>) -> bool {
    forall|i: int, j: int| 0 <= i < j < s.len() ==> s[i].id != s[j].id
}

/// Whether a request for `id` is queued.
pub open spec fn has_req(s: Seq<TileRequest>, id: TileId) -> bool {
    exists|i: int| 0 <= i < s.len() && s[i].id == id
}

pub open spec fn req_idx(s: Seq<TileRequest>, id: TileId) -> int {
    choose|i: int| 0 <= i < s.len() && s[i].id == id
}

/// The queued priority for `id` (meaningful only when `has_req` holds).
pub open spec fn req_priority(s: Seq<TileRequest>, id: TileId) -> u32 {
    s[req_idx(s, id)].priority
}

/// The recorded request time for `id` (meaningful only when `has_req` holds).
pub open spec fn req_time(s: Seq<TileRequest>, id: TileId) -> u64 {
    s[req_idx(s, id)].request_time
}

/// With unique ids, any index holding `id` is the index `req_idx` denotes.
pub proof fn lemma_req_unique_index(s: Seq<TileRequest>, id: TileId, i: int)
    requires
        req_ids_unique(s),
        0 <= i < s.len(),
        s[i].id == id,
    ensures
        has_req(s, id),
        req_idx(s, id) == i,
        req_priority(s, id) == s[i].priority,
        req_time(s, id) == s[i].request_time,
{
    assert(has_req(s, id));
    let j = req_idx(s, id);
    if i < j {
        assert(s[i].id != s[j].id);
    } else if j < i {
        assert(s[j].id != s[i].id);
    }
}

/// No two in-flight downloads share an address.
pub open spec fn active_ids_unique(s: Seq<(TileId, u64)>) -> bool {
    forall|i: int, j: int| 0 <= i < j < s.len() ==> s[i].0 != s[j].0
}

/// Whether a download for `id` is in flight.
pub open spec fn is_active(s: Seq<(TileId, u64)>, id: TileId) -> bool {
    exists|i: int| 0 <= i < s.len() && s[i].0 == id
}

pub open spec fn active_idx(s: Seq<(TileId, u64)>, id: TileId) -> int {
    choose|i: int| 0 <= i < s.len() && s[i].0 == id
}

/// The start time of the in-flight download for `id`.
pub open spec fn active_start(s: Seq<(TileId, u64)>, id: TileId) -> u64 {
    s[active_idx(s, id)].1
}

pub proof fn lemma_active_unique_index(s: Seq<(TileId, u64)>, id: TileId, i: int)
    requires
        active_ids_unique(s),
        0 <= i < s.len(),
        s[i].0 == id,
    ensures
        is_active(s, id),
        active_idx(s, id) == i,
        active_start(s, id) == s[i].1,
{
    assert(is_active(s, id));
    let j = active_idx(s, id);
    if i < j {
        assert(s[i].0 != s[j].0);
    } else if j < i {
        assert(s[j].0 != s[i].0);
    }
}

/// What re-submission does to the priority of an already-queued address:
/// the higher of the old and new priorities wins.
pub open spec fn coalesced_priority(old_pri: u32, new_pri: u32) -> u32 {
    if new_pri > old_pri {
        new_pri
    } else {
        old_pri
    }
}

/// Max-wins is monotonic: re-submitting an address with a lower priority
/// leaves its effective priority exactly where it was, and no re-submission
/// ever lowers it.
pub proof fn lemma_resubmit_max_wins(p1: u32, p2: u32)
    ensures
        p2 < p1 ==> coalesced_priority(p1, p2) == p1,
        coalesced_priority(p1, p2) >= p1,
        coalesced_priority(p1, p2) >= p2,
{
}

impl Default for TileScheduler {
    /// A scheduler with an empty queue and a ten-second download timeout.
    fn default() -> (s: TileScheduler)
        ensures
            s.wf(),
            s.queue_view().len() == 0,
            s.active_view().len() == 0,
            s.timeout_spec() == 10000,
    {
        TileScheduler::new(10000)
    }
}

/// Index of a request with maximal priority.
fn find_max_index(q: &Vec<TileRequest>) -> (r: usize)
    requires
        q@.len() > 0,
    ensures
        r < q@.len(),
        forall|j: int| 0 <= j < q@.len() ==> q@[r as int].priority >= q@[j].priority,
{
    let mut best: usize = 0;
    let mut i: usize = 1;
    while i < q.len()
        invariant
            best < i <= q@.len(),
            forall|j: int| 0 <= j < i ==> q@[best as int].priority >= q@[j].priority,
        decreases q@.len() - i,
    {
        if q[i].priority > q[best].priority {
            best = i;
        }
        i = i + 1;
    }
    best
}

/// Scheduler for tile loading requests.
pub struct TileScheduler {
    /// Pending requests, at most one per address
    queue: Vec<TileRequest>,
    /// Currently active downloads with their start times
    active_downloads: Vec<(TileId, u64)>,
    /// Maximum time to wait for a download before considering it failed
    download_timeout: u64,
    /// Last time the queue was updated
    last_update_time: u64,
}

impl TileScheduler {
    pub closed spec fn wf(self) -> bool {
        &&& req_ids_unique(self.queue@)
        &&& active_ids_unique(self.active_downloads@)
        &&& self.active_downloads@.len() <= MAX_CONCURRENT_DOWNLOADS
        &&& (forall|t: TileId| has_req(self.queue@, t) ==> !is_active(self.active_downloads@, t))
    }

    pub closed spec fn queue_view(self) -> Seq<TileRequest> {
        self.queue@
    }

    pub closed spec fn active_view(self) -> Seq<(TileId, u64)> {
        self.active_downloads@
    }

    pub closed spec fn timeout_spec(self) -> u64 {
        self.download_timeout
    }

    /// Create a scheduler with an empty queue, no downloads in flight, and
    /// the given download timeout in milliseconds.
    pub fn new(download_timeout: u64) -> (s: TileScheduler)
        ensures
            s.wf(),
            s.queue_view().len() == 0,
            s.active_view().len() == 0,
            s.timeout_spec() == download_timeout,
    {
        TileScheduler {
            queue: Vec::new(),
            active_downloads: Vec::new(),
            download_timeout,
            last_update_time: 0,
        }
    }

    fn find_queue_index(&self, id: &TileId) -> (r: Option<usize>)
        requires
            self.wf(),
        ensures
            match r {
                Some(i) => i < self.queue@.len() && self.queue@[i as int].id == *id,
                None => !has_req(self.queue@, *id),
            },
    {
        let mut i: usize = 0;
        while i < self.queue.len()
            invariant
                i <= self.queue@.len(),
                forall|j: int| 0 <= j < i ==> self.queue@[j].id != *id,
            decreases self.queue@.len() - i,
        {
            if self.queue[i].id == *id {
                return Some(i);
            }
            i = i + 1;
        }
        None
    }

    fn is_active_download(&self, id: &TileId) -> (r: bool)
        requires
            self.wf(),
        ensures
            r == is_active(self.active_downloads@, *id),
    {
        let mut i: usize = 0;
        while i < self.active_downloads.len()
            invariant
                i <= self.active_downloads@.len(),
                forall|j: int| 0 <= j < i ==> self.active_downloads@[j].0 != *id,
            decreases self.active_downloads@.len() - i,
        {
            if self.active_downloads[i].0 == *id {
                return true;
            }
            i = i + 1;
        }
        false
    }

    /// Add a new tile request to the queue.  An address already being
    /// downloaded is ignored; an address already queued is coalesced, its
    /// priority becoming the maximum of old and new; anything else becomes
    /// a fresh entry.
    pub fn queue_request(&mut self, id: TileId, priority: u32, current_time: u64)
        requires
            old(self).wf(),
        ensures
            final(self).wf(),
            final(self).active_view() == old(self).active_view(),
            final(self).timeout_spec() == old(self).timeout_spec(),
            is_active(old(self).active_view(), id) ==> final(self).queue_view() == old(
                self,
            ).queue_view(),
            !is_active(old(self).active_view(), id) && has_req(old(self).queue_view(), id) ==> {
                &&& has_req(final(self).queue_view(), id)
                &&& req_priority(final(self).queue_view(), id) == coalesced_priority(
                    req_priority(old(self).queue_view(), id),
                    priority,
                )
                &&& req_time(final(self).queue_view(), id) == req_time(
                    old(self).queue_view(),
                    id,
                )
                &&& final(self).queue_view().len() == old(self).queue_view().len()
            },
            !is_active(old(self).active_view(), id) && !has_req(old(self).queue_view(), id) ==> {
                &&& has_req(final(self).queue_view(), id)
                &&& req_priority(final(self).queue_view(), id) == priority
                &&& req_time(final(self).queue_view(), id) == current_time
                &&& final(self).queue_view().len() == old(self).queue_view().len() + 1
            },
            forall|t: TileId|
                t != id ==> (has_req(final(self).queue_view(), t) == has_req(
                    old(self).queue_view(),
                    t,
                ) && (has_req(old(self).queue_view(), t) ==> req_priority(
                    final(self).queue_view(),
                    t,
                ) == req_priority(old(self).queue_view(), t) && req_time(
                    final(self).queue_view(),
                    t,
                ) == req_time(old(self).queue_view(), t))),
    {
        if self.is_active_download(&id) {
            return ;
        }
        let found = self.find_queue_index(&id);
        match found {
            Some(i) => {
                proof {
                    lemma_req_unique_index(self.queue@, id, i as int);
                }
                let ghost s0 = self.queue@;
                let old_req = self.queue[i];
                let new_pri = if priority > old_req.priority {
                    priority
                } else {
                    old_req.priority
                };
                self.queue.set(
                    i,
                    TileRequest { id, priority: new_pri, request_time: old_req.request_time },
                );
                proof {
                    let s1 = self.queue@;
                    assert forall|p: int, q: int| 0 <= p < q < s1.len() implies s1[p].id
                        != s1[q].id by {
                        assert(s0[p].id != s0[q].id);
                    }
                    lemma_req_unique_index(s1, id, i as int);
                    assert forall|t: TileId| t != id implies (has_req(s1, t) == has_req(s0, t) && (
                    has_req(s0, t) ==> req_priority(s1, t) == req_priority(s0, t) && req_time(
                        s1,
                        t,
                    ) == req_time(s0, t))) by {
                        if has_req(s0, t) {
                            let j = req_idx(s0, t);
                            lemma_req_unique_index(s0, t, j);
                            assert(s1[j] == s0[j]);
                            lemma_req_unique_index(s1, t, j);
                        }
                        if has_req(s1, t) {
                            let j = req_idx(s1, t);
                            assert(s1[j].id == t && j != i);
                            assert(s0[j] == s1[j]);
                            assert(has_req(s0, t));
                        }
                    }
                }
            },
            None => {
                let ghost s0 = self.queue@;
                self.queue.push(TileRequest { id, priority, request_time: current_time });
                proof {
                    let s1 = self.queue@;
                    let n = s0.len() as int;
                    assert forall|p: int, q: int| 0 <= p < q < s1.len() implies s1[p].id
                        != s1[q].id by {
                        if q < n {
                            assert(s0[p].id != s0[q].id);
                        } else {
                            assert(s1[p] == s0[p] && s1[q].id == id);
                        }
                    }
                    lemma_req_unique_index(s1, id, n);
                    assert forall|t: TileId| t != id implies (has_req(s1, t) == has_req(s0, t) && (
                    has_req(s0, t) ==> req_priority(s1, t) == req_priority(s0, t) && req_time(
                        s1,
                        t,
                    ) == req_time(s0, t))) by {
                        if has_req(s0, t) {
                            let j = req_idx(s0, t);
                            lemma_req_unique_index(s0, t, j);
                            assert(s1[j] == s0[j]);
                            lemma_req_unique_index(s1, t, j);
                        }
                        if has_req(s1, t) {
                            let j = req_idx(s1, t);
                            assert(s1[j].id == t && j != n);
                            assert(s0[j] == s1[j]);
                            assert(has_req(s0, t));
                        }
                    }
                }
            },
        }
    }

    /// Drop in-flight downloads whose start time lies further back than the
    /// download timeout, freeing their slots.
    fn prune_timed_out(&mut self, current_time: u64)
        requires
            old(self).wf(),
        ensures
            final(self).wf(),
            final(self).queue@ == old(self).queue@,
            final(self).download_timeout == old(self).download_timeout,
            final(self).last_update_time == old(self).last_update_time,
            forall|t: TileId|
                is_active(final(self).active_downloads@, t) <==> (is_active(
                    old(self).active_downloads@,
                    t,
                ) && current_time <= active_start(old(self).active_downloads@, t) + old(
                    self,
                ).download_timeout),
            forall|t: TileId|
                is_active(final(self).active_downloads@, t) ==> active_start(
                    final(self).active_downloads@,
                    t,
                ) == active_start(old(self).active_downloads@, t),
    {
        let ghost a0 = self.active_downloads@;
        let ghost timeout = self.download_timeout;
        let mut kept: Vec<(TileId, u64)> = Vec::new();
        let mut i: usize = 0;
        while i < self.active_downloads.len()
            invariant
                old(self).wf(),
                self.active_downloads@ == a0,
                self.download_timeout == timeout,
                a0 == old(self).active_downloads@,
                timeout == old(self).download_timeout,
                i <= a0.len(),
                kept@.len() <= i,
                active_ids_unique(kept@),
                forall|k: int|
                    0 <= k < kept@.len() ==> exists|j: int|
                        0 <= j < i && a0[j] == #[trigger] kept@[k] && current_time <= a0[j].1
                            + timeout,
                forall|j: int|
                    0 <= j < i && current_time <= (#[trigger] a0[j]).1 + timeout ==> kept@.contains(
                        a0[j],
                    ),
            decreases a0.len() - i,
        {
            let entry = self.active_downloads[i];
            let timed_out = current_time > entry.1 && current_time - entry.1
                > self.download_timeout;
            if !timed_out {
                proof {
                    assert(!is_active(kept@, entry.0)) by {
                        if is_active(kept@, entry.0) {
                            let k = active_idx(kept@, entry.0);
                            assert(0 <= k < kept@.len() && kept@[k].0 == entry.0);
                            let j = choose|j: int|
                                0 <= j < i && a0[j] == kept@[k] && current_time <= a0[j].1
                                    + timeout;
                            assert(a0[j].0 == a0[i as int].0);
                        }
                    }
                }
                let ghost k0 = kept@;
                kept.push(entry);
                proof {
                    let k1 = kept@;
                    let n = k0.len() as int;
                    assert forall|p: int, q: int| 0 <= p < q < k1.len() implies k1[p].0
                        != k1[q].0 by {
                        if q < n {
                            assert(k0[p].0 != k0[q].0);
                        } else {
                            assert(k1[p] == k0[p] && k1[q] == entry);
                        }
                    }
                    assert forall|j: int|
                        0 <= j < i + 1 && current_time <= (#[trigger] a0[j]).1
                            + timeout implies k1.contains(a0[j]) by {
                        if j < i {
                            assert(k0.contains(a0[j]));
                            let k = choose|k: int| 0 <= k < k0.len() && k0[k] == a0[j];
                            assert(k1[k] == a0[j]);
                        } else {
                            assert(k1[n] == a0[j]);
                        }
                    }
                }
            }
            i = i + 1;
        }
        self.active_downloads = kept;
        proof {
            let a1 = self.active_downloads@;
            assert forall|t: TileId| is_active(a1, t) implies (is_active(a0, t) && current_time
                <= active_start(a0, t) + timeout && active_start(a1, t) == active_start(
                a0,
                t,
            )) by {
                let k = active_idx(a1, t);
                assert(0 <= k < a1.len() && a1[k].0 == t);
                let j = choose|j: int|
                    0 <= j < a0.len() && a0[j] == a1[k] && current_time <= a0[j].1 + timeout;
                lemma_active_unique_index(a0, t, j);
                lemma_active_unique_index(a1, t, k);
            }
            assert forall|t: TileId|
                is_active(a0, t) && current_time <= active_start(a0, t)
                    + timeout implies is_active(a1, t) by {
                let j = active_idx(a0, t);
                lemma_active_unique_index(a0, t, j);
                assert(a1.contains(a0[j]));
                let k = choose|k: int| 0 <= k < a1.len() && a1[k] == a0[j];
                assert(a1[k].0 == t);
            }
            assert(a1.len() <= a0.len());
            assert forall|t: TileId| has_req(self.queue@, t) implies !is_active(a1, t) by {
                if is_active(a1, t) {
                    assert(is_active(a0, t));
                }
            }
        }
    }

    /// Get the next batch of tiles to download: after dropping timed-out
    /// downloads, the highest-priority pending requests are dispatched, one
    /// per free concurrency slot, and recorded as in flight.
    pub fn get_next_batch(&mut self, current_time: u64) -> (batch: Vec<TileId>)
        requires
            old(self).wf(),
        ensures
            final(self).wf(),
            final(self).timeout_spec() == old(self).timeout_spec(),
            forall|i: int, j: int| 0 <= i < j < batch@.len() ==> batch@[i] != batch@[j],
            forall|i: int|
                0 <= i < batch@.len() ==> has_req(old(self).queue_view(), #[trigger] batch@[i])
                    && !has_req(final(self).queue_view(), batch@[i]) && is_active(
                    final(self).active_view(),
                    batch@[i],
                ) && active_start(final(self).active_view(), batch@[i]) == current_time,
            forall|t: TileId|
                has_req(final(self).queue_view(), t) ==> has_req(old(self).queue_view(), t)
                    && req_priority(final(self).queue_view(), t) == req_priority(
                    old(self).queue_view(),
                    t,
                ) && req_time(final(self).queue_view(), t) == req_time(old(self).queue_view(), t),
            forall|t: TileId|
                has_req(old(self).queue_view(), t) && !batch@.contains(t) ==> has_req(
                    final(self).queue_view(),
                    t,
                ),
            final(self).queue_view().len() + batch@.len() == old(self).queue_view().len(),
            forall|i: int, j: int|
                0 <= i < j < batch@.len() ==> req_priority(old(self).queue_view(), batch@[i])
                    >= req_priority(old(self).queue_view(), batch@[j]),
            forall|i: int, t: TileId|
                #![trigger batch@[i], has_req(final(self).queue_view(), t)]
                0 <= i < batch@.len() && has_req(final(self).queue_view(), t) ==> req_priority(
                    old(self).queue_view(),
                    batch@[i],
                ) >= req_priority(old(self).queue_view(), t),
            forall|t: TileId|
                is_active(final(self).active_view(), t) <==> ((is_active(
                    old(self).active_view(),
                    t,
                ) && current_time <= active_start(old(self).active_view(), t) + old(
                    self,
                ).timeout_spec()) || batch@.contains(t)),
            forall|t: TileId|
                is_active(final(self).active_view(), t) && !batch@.contains(t) ==> active_start(
                    final(self).active_view(),
                    t,
                ) == active_start(old(self).active_view(), t),
            final(self).queue_view().len() == 0 || final(self).active_view().len()
                == MAX_CONCURRENT_DOWNLOADS,
            final(self).active_view().len() <= MAX_CONCURRENT_DOWNLOADS,
            forall|i: int|
                0 <= i < batch@.len() ==> !is_active(old(self).active_view(), #[trigger] batch@[i]),
    {
        self.last_update_time = current_time;
        self.prune_timed_out(current_time);
        let ghost q0 = self.queue@;
        let ghost a1 = self.active_downloads@;
        let mut batch: Vec<TileId> = Vec::new();
        while self.active_downloads.len() < MAX_CONCURRENT_DOWNLOADS && self.queue.len() > 0
            invariant
                req_ids_unique(self.queue@),
                active_ids_unique(self.active_downloads@),
                self.active_downloads@.len() <= MAX_CONCURRENT_DOWNLOADS,
                self.download_timeout == old(self).download_timeout,
                forall|t: TileId| has_req(self.queue@, t) ==> !is_active(self.active_downloads@, t),
                forall|t: TileId|
                    has_req(self.queue@, t) ==> has_req(q0, t) && req_priority(self.queue@, t)
                        == req_priority(q0, t) && req_time(self.queue@, t) == req_time(q0, t),
                forall|t: TileId|
                    has_req(q0, t) && !batch@.contains(t) ==> has_req(self.queue@, t),
                self.queue@.len() + batch@.len() == q0.len(),
                forall|i: int, j: int| 0 <= i < j < batch@.len() ==> batch@[i] != batch@[j],
                forall|i: int|
                    0 <= i < batch@.len() ==> has_req(q0, #[trigger] batch@[i]) && !has_req(
                        self.queue@,
                        batch@[i],
                    ) && is_active(self.active_downloads@, batch@[i]) && active_start(
                        self.active_downloads@,
                        batch@[i],
                    ) == current_time,
                forall|i: int, j: int|
                    0 <= i < j < batch@.len() ==> req_priority(q0, batch@[i]) >= req_priority(
                        q0,
                        batch@[j],
                    ),
                forall|i: int, t: TileId|
                    #![trigger batch@[i], has_req(self.queue@, t)]
                    0 <= i < batch@.len() && has_req(self.queue@, t) ==> req_priority(
                        q0,
                        batch@[i],
                    ) >= req_priority(q0, t),
                forall|t: TileId|
                    is_active(self.active_downloads@, t) <==> (is_active(a1, t)
                        || batch@.contains(t)),
                forall|t: TileId|
                    is_active(a1, t) ==> active_start(self.active_downloads@, t) == active_start(
                        a1,
                        t,
                    ),
                forall|t: TileId| is_active(a1, t) ==> !batch@.contains(t),
            decreases self.queue@.len(),
        {
            let i = find_max_index(&self.queue);
            let req = self.queue[i];
            proof {
                lemma_req_unique_index(self.queue@, req.id, i as int);
            }
            let ghost qc = self.queue@;
            let ghost ac = self.active_downloads@;
            let ghost bc = batch@;
            self.queue.remove(i);
            self.active_downloads.push((req.id, current_time));
            batch.push(req.id);
            proof {
                let qn = self.queue@;
                let an = self.active_downloads@;
                let bn = batch@;
                let n = i as int;
                // the queue after removal
                assert forall|p: int, q: int| 0 <= p < q < qn.len() implies qn[p].id
                    != qn[q].id by {
                    let p0 = if p < n { p } else { p + 1 };
                    let q0i = if q < n { q } else { q + 1 };
                    assert(qn[p] == qc[p0] && qn[q] == qc[q0i]);
                }
                assert(!has_req(qn, req.id)) by {
                    if has_req(qn, req.id) {
                        let j = req_idx(qn, req.id);
                        assert(0 <= j < qn.len() && qn[j].id == req.id);
                        let j0 = if j < n { j } else { j + 1 };
                        assert(qn[j] == qc[j0]);
                        assert(j0 != n);
                        if j0 < n {
                            assert(qc[j0].id != qc[n].id);
                        } else {
                            assert(qc[n].id != qc[j0].id);
                        }
                    }
                }
                assert forall|t: TileId| t != req.id implies (has_req(qn, t) == has_req(qc, t) && (
                has_req(qc, t) ==> req_priority(qn, t) == req_priority(qc, t) && req_time(qn, t)
                    == req_time(qc, t))) by {
                    if has_req(qc, t) {
                        let j = req_idx(qc, t);
                        lemma_req_unique_index(qc, t, j);
                        let j2 = if j < n { j } else { j - 1 };
                        assert(qn[j2] == qc[j]);
                        lemma_req_unique_index(qn, t, j2);
                    }
                    if has_req(qn, t) {
                        let j = req_idx(qn, t);
                        let j0 = if j < n { j } else { j + 1 };
                        assert(qn[j] == qc[j0]);
                        assert(has_req(qc, t));
                    }
                }
                // the in-flight list after the push
                let m = ac.len() as int;
                assert(an[m] == (req.id, current_time));
                assert(!is_active(ac, req.id));
                assert forall|p: int, q: int| 0 <= p < q < an.len() implies an[p].0 != an[q].0 by {
                    if q < m {
                        assert(ac[p].0 != ac[q].0);
                    } else {
                        assert(an[p] == ac[p] && an[q].0 == req.id);
                        if is_active(ac, req.id) {
                        }
                        assert(ac[p].0 != req.id) by {
                            if ac[p].0 == req.id {
                                lemma_active_unique_index(ac, req.id, p);
                            }
                        }
                    }
                }
                assert forall|t: TileId| is_active(an, t) implies (is_active(ac, t) || t
                    == req.id) by {
                    let j = active_idx(an, t);
                    assert(0 <= j < an.len() && an[j].0 == t);
                    if j < m {
                        assert(ac[j].0 == t);
                        assert(is_active(ac, t));
                    }
                }
                assert forall|t: TileId| is_active(ac, t) implies is_active(an, t) && active_start(
                    an,
                    t,
                ) == active_start(ac, t) by {
                    let j = active_idx(ac, t);
                    lemma_active_unique_index(ac, t, j);
                    assert(an[j] == ac[j]);
                    lemma_active_unique_index(an, t, j);
                }
                lemma_active_unique_index(an, req.id, m);
                // the batch after the push
                assert(bn == bc.push(req.id));
                assert(bn[bc.len() as int] == req.id);
                assert forall|k: int| 0 <= k < bn.len() implies (has_req(q0, #[trigger] bn[k])
                    && !has_req(qn, bn[k]) && is_active(an, bn[k]) && active_start(an, bn[k])
                    == current_time) by {
                    if k < bc.len() {
                        assert(bn[k] == bc[k]);
                        assert(bn[k] != req.id) by {
                            if bc[k] == req.id {
                                assert(is_active(ac, bc[k]));
                            }
                        }
                    } else {
                        assert(bn[k] == req.id);
                        lemma_req_unique_index(qc, req.id, n);
                    }
                }
                assert forall|t: TileId| #[trigger]
                    bn.contains(t) implies is_active(an, t) by {
                    let k = choose|k: int| 0 <= k < bn.len() && bn[k] == t;
                }
                assert forall|t: TileId| is_active(an, t) implies (is_active(a1, t)
                    || bn.contains(t)) by {
                    if is_active(ac, t) {
                        if !is_active(a1, t) {
                            assert(bc.contains(t));
                            let k = choose|k: int| 0 <= k < bc.len() && bc[k] == t;
                            assert(bn[k] == t);
                        }
                    } else {
                        assert(t == req.id);
                        assert(bn[bc.len() as int] == t);
                    }
                }
                assert forall|t: TileId| #[trigger]
                    bn.contains(t) && is_active(a1, t) implies false by {
                    let k = choose|k: int| 0 <= k < bn.len() && bn[k] == t;
                    if k < bc.len() {
                        assert(bc[k] == t);
                        assert(bc.contains(t));
                    } else {
                        assert(t == req.id);
                        assert(is_active(ac, t));
                    }
                }
                assert forall|t: TileId|
                    has_req(q0, t) && !bn.contains(t) implies has_req(qn, t) by {
                    assert(!bc.contains(t)) by {
                        if bc.contains(t) {
                            let k = choose|k: int| 0 <= k < bc.len() && bc[k] == t;
                            assert(bn[k] == t);
                        }
                    }
                    assert(has_req(qc, t));
                    assert(t != req.id) by {
                        if t == req.id {
                            assert(bn[bc.len() as int] == t);
                        }
                    }
                }
                // priority ordering
                lemma_req_unique_index(qc, req.id, n);
                assert(req_priority(q0, req.id) == req.priority);
                assert forall|ki: int, kj: int|
                    0 <= ki < kj < bn.len() implies req_priority(q0, bn[ki]) >= req_priority(
                    q0,
                    bn[kj],
                ) by {
                    if kj < bc.len() {
                        assert(bn[ki] == bc[ki] && bn[kj] == bc[kj]);
                    } else {
                        assert(bn[kj] == req.id);
                        assert(bn[ki] == bc[ki]);
                        assert(has_req(qc, req.id));
                    }
                }
                assert forall|k: int, t: TileId|
                    #![trigger bn[k], has_req(qn, t)]
                    0 <= k < bn.len() && has_req(qn, t) implies req_priority(q0, bn[k])
                        >= req_priority(q0, t) by {
                    assert(has_req(qc, t));
                    let j = req_idx(qn, t);
                    let j0 = if j < n { j } else { j + 1 };
                    assert(qn[j] == qc[j0]);
                    lemma_req_unique_index(qc, t, j0);
                    assert(req_priority(qc, t) == qc[j0].priority);
                    assert(qc[j0].priority <= req.priority);
                    if k < bc.len() {
                        assert(bn[k] == bc[k]);
                        assert(req_priority(q0, bc[k]) >= req_priority(q0, t)) by {
                            assert(has_req(qc, t) && req_priority(qc, t) == req_priority(q0, t));
                        }
                    } else {
                        assert(bn[k] == req.id);
                        assert(req_priority(q0, t) == req_priority(qc, t));
                    }
                }
            }
        }
        proof {
            let af = self.active_downloads@;
            let a0v = old(self).active_downloads@;
            let to = old(self).download_timeout;
            assert forall|t: TileId| is_active(af, t) implies ((is_active(a0v, t) && current_time
                <= active_start(a0v, t) + to) || batch@.contains(t)) by {
                if !batch@.contains(t) {
                    assert(is_active(a1, t));
                }
            }
            assert forall|t: TileId|
                ((is_active(a0v, t) && current_time <= active_start(a0v, t) + to)
                    || batch@.contains(t)) implies is_active(af, t) by {
                if is_active(a0v, t) && current_time <= active_start(a0v, t) + to {
                    assert(is_active(a1, t));
                }
            }
            assert forall|t: TileId|
                is_active(af, t) && !batch@.contains(t) implies active_start(af, t)
                    == active_start(a0v, t) by {
                assert(is_active(a1, t));
            }
            assert forall|i: int|
                0 <= i < batch@.len() implies !is_active(a0v, #[trigger] batch@[i]) by {
                assert(has_req(old(self).queue_view(), batch@[i]));
            }
        }
        batch
    }

    /// Mark a download as complete, freeing its concurrency slot.
    /// Completing an address that is not in flight is a no-op.
    pub fn mark_completed(&mut self, id: TileId)
        requires
            old(self).wf(),
        ensures
            final(self).wf(),
            final(self).queue_view() == old(self).queue_view(),
            final(self).timeout_spec() == old(self).timeout_spec(),
            !is_active(final(self).active_view(), id),
            forall|t: TileId|
                t != id ==> (is_active(final(self).active_view(), t) == is_active(
                    old(self).active_view(),
                    t,
                ) && (is_active(old(self).active_view(), t) ==> active_start(
                    final(self).active_view(),
                    t,
                ) == active_start(old(self).active_view(), t))),
    {
        let mut i: usize = 0;
        while i < self.active_downloads.len()
            invariant
                old(self).wf(),
                self.queue@ == old(self).queue@,
                self.active_downloads@ == old(self).active_downloads@,
                self.download_timeout == old(self).download_timeout,
                self.last_update_time == old(self).last_update_time,
                i <= self.active_downloads@.len(),
                forall|j: int| 0 <= j < i ==> self.active_downloads@[j].0 != id,
            decreases self.active_downloads@.len() - i,
        {
            if self.active_downloads[i].0 == id {
                let ghost s0 = self.active_downloads@;
                self.active_downloads.remove(i);
                proof {
                    let s1 = self.active_downloads@;
                    let n = i as int;
                    assert forall|p: int, q: int| 0 <= p < q < s1.len() implies s1[p].0
                        != s1[q].0 by {
                        let p0 = if p < n { p } else { p + 1 };
                        let q0 = if q < n { q } else { q + 1 };
                        assert(s1[p] == s0[p0] && s1[q] == s0[q0]);
                    }
                    assert(!is_active(s1, id)) by {
                        if is_active(s1, id) {
                            let j = active_idx(s1, id);
                            assert(0 <= j < s1.len() && s1[j].0 == id);
                            let j0 = if j < n { j } else { j + 1 };
                            assert(s1[j] == s0[j0]);
                            assert(j0 != n);
                            if j0 < n {
                                assert(s0[j0].0 != s0[n].0);
                            } else {
                                assert(s0[n].0 != s0[j0].0);
                            }
                        }
                    }
                    assert forall|t: TileId| t != id implies (is_active(s1, t) == is_active(s0, t)
                        && (is_active(s0, t) ==> active_start(s1, t) == active_start(s0, t))) by {
                        if is_active(s0, t) {
                            let j = active_idx(s0, t);
                            lemma_active_unique_index(s0, t, j);
                            let j2 = if j < n { j } else { j - 1 };
                            assert(s1[j2] == s0[j]);
                            lemma_active_unique_index(s1, t, j2);
                        }
                        if is_active(s1, t) {
                            let j = active_idx(s1, t);
                            let j0 = if j < n { j } else { j + 1 };
                            assert(s1[j] == s0[j0]);
                            assert(is_active(s0, t));
                        }
                    }
                }
                return ;
            }
            i = i + 1;
        }
        proof {
            assert(forall|j: int|
                0 <= j < self.active_downloads@.len() ==> self.active_downloads@[j].0 != id);
        }
    }
}

/// The ideal zoom level for a camera height (in whole world units).
pub open spec fn ideal_zoom_spec(camera_height: u64) -> u8 {
    if camera_height < 10 {
        18
    } else if camera_height < 20 {
        17
    } else if camera_height < 50 {
        16
    } else if camera_height < 100 {
        15
    } else if camera_height < 200 {
        14
    } else if camera_height < 500 {
        13
    } else if camera_height < 1000 {
        12
    } else if camera_height < 2000 {
        11
    } else if camera_height < 5000 {
        10
    } else if camera_height < 10000 {
        9
    } else {
        8
    }
}

/// Calculate the ideal zoom level based on camera height.
pub fn calculate_ideal_zoom(camera_height: u64) -> (zoom: u8)
    ensures
        zoom == ideal_zoom_spec(camera_height),
{
    if camera_height < 10 {
        18
    } else if camera_height < 20 {
        17
    } else if camera_height < 50 {
        16
    } else if camera_height < 100 {
        15
    } else if camera_height < 200 {
        14
    } else if camera_height < 500 {
        13
    } else if camera_height < 1000 {
        12
    } else if camera_height < 2000 {
        11
    } else if camera_height < 5000 {
        10
    } else if camera_height < 10000 {
        9
    } else {
        8
    }
}

/// The furthest Manhattan distance the score distinguishes: two full
/// world spans at the finest zoom fit below it, so over every reachable
/// pair of tiles a greater distance scores strictly lower.
pub const DISTANCE_SPAN: u64 = 0x200000;

/// The priority score of a request: a tile inside the view outranks a
/// prefetch-only neighbor tenfold; a shorter Manhattan distance to the
/// view center scores strictly higher; and a zoom nearer the
/// height-implied ideal zoom scores strictly higher.  The score is
/// strictly ordered in each of these, the other arguments held fixed.
pub open spec fn priority_spec(
    id: TileId,
    distance: u64,
    is_visible: bool,
    camera_height: u64,
) -> int {
    let capped = if distance > DISTANCE_SPAN - 1 {
        DISTANCE_SPAN - 1
    } else {
        distance as int
    };
    let distance_factor = DISTANCE_SPAN - capped;
    let visibility_bonus: int = if is_visible {
        10
    } else {
        1
    };
    let ideal = ideal_zoom_spec(camera_height) as int;
    let diff = if ideal >= id.zoom { ideal - id.zoom } else { id.zoom - ideal };
    let zoom_match_bonus = 20 - diff;
    distance_factor * visibility_bonus * zoom_match_bonus
}

/// Holding everything else fixed, a tile further from the view center
/// scores strictly lower, over the whole reachable distance range (the
/// Manhattan distance between two tiles never reaches `DISTANCE_SPAN`).
pub proof fn lemma_priority_strict_in_distance(
    id: TileId,
    d1: u64,
    d2: u64,
    is_visible: bool,
    camera_height: u64,
)
    requires
        id.zoom <= crate::types::MAX_ZOOM_LEVEL,
        d1 < d2,
        d2 < DISTANCE_SPAN,
    ensures
        priority_spec(id, d2, is_visible, camera_height) < priority_spec(
            id,
            d1,
            is_visible,
            camera_height,
        ),
{
    let df1 = DISTANCE_SPAN - d1 as int;
    let df2 = DISTANCE_SPAN - d2 as int;
    let vb: int = if is_visible {
        10
    } else {
        1
    };
    let ideal = ideal_zoom_spec(camera_height) as int;
    let diff = if ideal >= id.zoom {
        ideal - id.zoom as int
    } else {
        id.zoom as int - ideal
    };
    let zm = 20 - diff;
    assert(df2 < df1 && 1 <= vb && 2 <= zm) by {
        assert(8 <= ideal <= 18 && id.zoom <= 19);
    }
    assert(df2 * vb * zm < df1 * vb * zm) by (nonlinear_arith)
        requires
            0 < df2 < df1 && 1 <= vb && 1 <= zm,
    ;
}

/// Holding everything else fixed, a tile whose zoom sits nearer the
/// height-implied ideal zoom scores strictly higher.
pub proof fn lemma_priority_strict_in_zoom_gap(
    near: TileId,
    far: TileId,
    distance: u64,
    is_visible: bool,
    camera_height: u64,
)
    requires
        near.zoom <= crate::types::MAX_ZOOM_LEVEL,
        far.zoom <= crate::types::MAX_ZOOM_LEVEL,
        zoom_gap(near.zoom, camera_height) < zoom_gap(far.zoom, camera_height),
    ensures
        priority_spec(far, distance, is_visible, camera_height) < priority_spec(
            near,
            distance,
            is_visible,
            camera_height,
        ),
{
    let capped = if distance > DISTANCE_SPAN - 1 {
        DISTANCE_SPAN - 1
    } else {
        distance as int
    };
    let df = DISTANCE_SPAN - capped;
    let vb: int = if is_visible {
        10
    } else {
        1
    };
    let zm_near = 20 - zoom_gap(near.zoom, camera_height);
    let zm_far = 20 - zoom_gap(far.zoom, camera_height);
    assert(1 <= df && 1 <= vb && 0 < zm_far < zm_near) by {
        assert(8 <= ideal_zoom_spec(camera_height) <= 18);
    }
    assert(df * vb * zm_far < df * vb * zm_near) by (nonlinear_arith)
        requires
            1 <= df && 1 <= vb && 0 < zm_far < zm_near,
    ;
}

/// How far a tile's zoom sits from the ideal zoom for a camera height.
pub open spec fn zoom_gap(zoom: u8, camera_height: u64) -> int {
    let ideal = ideal_zoom_spec(camera_height) as int;
    if ideal >= zoom {
        ideal - zoom
    } else {
        zoom - ideal
    }
}

/// A tile inside the view scores exactly ten times what the same tile
/// scores as a prefetch-only neighbor.
pub proof fn lemma_priority_visibility_factor(id: TileId, distance: u64, camera_height: u64)
    ensures
        priority_spec(id, distance, true, camera_height) == 10 * priority_spec(
            id,
            distance,
            false,
            camera_height,
        ),
{
    let capped = if distance > DISTANCE_SPAN - 1 {
        DISTANCE_SPAN - 1
    } else {
        distance as int
    };
    let df = DISTANCE_SPAN - capped;
    let ideal = ideal_zoom_spec(camera_height) as int;
    let diff = if ideal >= id.zoom {
        ideal - id.zoom as int
    } else {
        id.zoom as int - ideal
    };
    let zm = 20 - diff;
    assert(df * 10 * zm == 10 * (df * 1 * zm)) by (nonlinear_arith);
}

impl TileScheduler {
    /// Calculate priority for a tile based on distance (Manhattan, in tile
    /// units), zoom level and visibility.
    pub fn calculate_priority(
        id: TileId,
        distance: u64,
        is_visible: bool,
        camera_height: u64,
    ) -> (p: u32)
        requires
            id.zoom <= crate::types::MAX_ZOOM_LEVEL,
        ensures
            p == priority_spec(id, distance, is_visible, camera_height),
            p >= 1,
    {
        let capped: u64 = if distance > DISTANCE_SPAN - 1 {
            DISTANCE_SPAN - 1
        } else {
            distance
        };
        let distance_factor: u64 = DISTANCE_SPAN - capped;
        let visibility_bonus: u64 = if is_visible {
            10
        } else {
            1
        };
        let ideal = calculate_ideal_zoom(camera_height);
        let diff: u64 = if ideal >= id.zoom {
            (ideal - id.zoom) as u64
        } else {
            (id.zoom - ideal) as u64
        };
        let zoom_match_bonus: u64 = 20 - diff;
        proof {
            let df = distance_factor as int;
            let vb = visibility_bonus as int;
            let zm = zoom_match_bonus as int;
            assert(1 <= df <= 0x200000 && 1 <= vb <= 10 && 2 <= zm <= 20);
            assert(1 <= df * vb * zm <= 0x19000000 && df * vb <= 0x1400000) by (nonlinear_arith)
                requires
                    1 <= df <= 0x200000 && 1 <= vb <= 10 && 2 <= zm <= 20,
            ;
        }
        let p: u64 = distance_factor * visibility_bonus * zoom_match_bonus;
        p as u32
    }
}

} // verus!