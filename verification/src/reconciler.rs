//! Per-frame reconciliation: completed fetches become materialized tile
//! records, visible tiles are marked recently used, and a fixed-cadence
//! sweep evicts records idle past their tier's timeout -- a short timeout
//! for focus detail, a long one for background context.

use vstd::prelude::*;
use crate::types::{TileId, TileTier};

verus! {

/// One materialized tile: the displayable entity standing for it, its
/// tier, and when it was last seen in view (integer milliseconds).
#[derive(Debug, Clone, Copy)]
pub struct VisibleTileRecord {
    pub id: TileId,
    pub entity: u64,
    pub tier: TileTier,
    pub last_used: u64,
}

/// No two records share an address.
pub open spec fn rec_ids_unique(s: Seq<VisibleTileRecord>) -> bool {
    forall|i: int, j: int| 0 <= i < j < s.len() ==> s[i].id != s[j].id
}

/// Whether a record for `id` exists.
pub open spec fn has_rec(s: Seq<VisibleTileRecord>, id: TileId) -> bool {
    exists|i: int| 0 <= i < s.len() && s[i].id == id
}

pub open spec fn rec_idx(s: Seq<VisibleTileRecord>, id: TileId) -> int {
    choose|i: int| 0 <= i < s.len() && s[i].id == id
}

/// The record for `id` (meaningful only when `has_rec` holds).
pub open spec fn rec_at(s: Seq<VisibleTileRecord>, id: TileId) -> VisibleTileRecord {
    s[rec_idx(s, id)]
}

/// With unique ids, any index holding `id` is the index `rec_idx` denotes.
pub proof fn lemma_rec_unique_index(s: Seq<VisibleTileRecord>, id: TileId, i: int)
    requires
        rec_ids_unique(s),
        0 <= i < s.len(),
        s[i].id == id,
    ensures
        has_rec(s, id),
        rec_idx(s, id) == i,
        rec_at(s, id) == s[i],
{
    assert(has_rec(s, id));
    let j = rec_idx(s, id);
    if i < j {
        assert(s[i].id != s[j].id);
    } else if j < i {
        assert(s[j].id != s[i].id);
    }
}

/// Whether `e` is the entity of some record in `s` that `r` judges
/// expired at `now`.
pub open spec fn entity_of_expired(e: u64, s: Seq<VisibleTileRecord>, r: Reconciler, now: u64) -> bool {
    exists|j: int| 0 <= j < s.len() && r.expired(#[trigger] s[j], now) && s[j].entity == e
}

/// The reconciler owns the set of currently materialized tiles and their
/// timestamps, and applies the eviction policy on a fixed cadence.
pub struct Reconciler {
    /// Materialized tiles, one record per address
    tiles: Vec<VisibleTileRecord>,
    /// When the last cleanup sweep ran
    last_sweep_time: u64,
    /// How long an unseen focus tile survives, in milliseconds
    focus_timeout_ms: u64,
    /// How long an unseen background tile survives, in milliseconds
    background_timeout_ms: u64,
    /// How often the cleanup sweep runs, in milliseconds
    sweep_interval_ms: u64,
}

impl Reconciler {
    pub closed spec fn wf(self) -> bool {
        rec_ids_unique(self.tiles@)
    }

    pub closed spec fn records(self) -> Seq<VisibleTileRecord> {
        self.tiles@
    }

    pub closed spec fn spec_focus_timeout(self) -> u64 {
        self.focus_timeout_ms
    }

    pub closed spec fn spec_background_timeout(self) -> u64 {
        self.background_timeout_ms
    }

    pub closed spec fn spec_sweep_interval(self) -> u64 {
        self.sweep_interval_ms
    }

    pub closed spec fn spec_last_sweep(self) -> u64 {
        self.last_sweep_time
    }

    /// The idle timeout that applies to a tier.
    pub open spec fn timeout_for(self, tier: TileTier) -> u64 {
        if tier is Background {
            self.spec_background_timeout()
        } else {
            self.spec_focus_timeout()
        }
    }

    /// Whether a record has sat unseen past its tier's timeout.
    pub open spec fn expired(self, r: VisibleTileRecord, now: u64) -> bool {
        now > r.last_used + self.timeout_for(r.tier)
    }

    /// Create a reconciler with the given timeouts and sweep cadence.
    pub fn new(focus_timeout_ms: u64, background_timeout_ms: u64, sweep_interval_ms: u64) -> (r:
        Reconciler)
        ensures
            r.wf(),
            r.records().len() == 0,
            r.spec_focus_timeout() == focus_timeout_ms,
            r.spec_background_timeout() == background_timeout_ms,
            r.spec_sweep_interval() == sweep_interval_ms,
            r.spec_last_sweep() == 0,
    {
        Reconciler {
            tiles: Vec::new(),
            last_sweep_time: 0,
            focus_timeout_ms,
            background_timeout_ms,
            sweep_interval_ms,
        }
    }

    fn find_index(&self, id: &TileId) -> (r: Option<usize>)
        requires
            self.wf(),
        ensures
            match r {
                Some(i) => i < self.tiles@.len() && self.tiles@[i as int].id == *id,
                None => !has_rec(self.tiles@, *id),
            },
    {
        let mut i: usize = 0;
        while i < self.tiles.len()
            invariant
                i <= self.tiles@.len(),
                forall|j: int| 0 <= j < i ==> self.tiles@[j].id != *id,
            decreases self.tiles@.len() - i,
        {
            if self.tiles[i].id == *id {
                return Some(i);
            }
            i = i + 1;
        }
        None
    }

    /// Record a freshly materialized tile.  A record already standing for
    /// the address -- whatever state it was in -- is replaced outright, so
    /// an earlier failure never blocks a later success for the same
    /// address.
    pub fn record_materialized(&mut self, id: TileId, entity: u64, tier: TileTier, now: u64)
        requires
            old(self).wf(),
        ensures
            final(self).wf(),
            final(self).spec_focus_timeout() == old(self).spec_focus_timeout(),
            final(self).spec_background_timeout() == old(self).spec_background_timeout(),
            final(self).spec_sweep_interval() == old(self).spec_sweep_interval(),
            final(self).spec_last_sweep() == old(self).spec_last_sweep(),
            has_rec(final(self).records(), id),
            rec_at(final(self).records(), id) == (VisibleTileRecord {
                id,
                entity,
                tier,
                last_used: now,
            }),
            forall|t: TileId|
                t != id ==> (has_rec(final(self).records(), t) == has_rec(old(self).records(), t)
                    && (has_rec(old(self).records(), t) ==> rec_at(final(self).records(), t)
                    == rec_at(old(self).records(), t))),
    {
        let record = VisibleTileRecord { id, entity, tier, last_used: now };
        let found = self.find_index(&id);
        match found {
            Some(i) => {
                let ghost s0 = self.tiles@;
                self.tiles.set(i, record);
                proof {
                    let s1 = self.tiles@;
                    assert forall|p: int, q: int| 0 <= p < q < s1.len() implies s1[p].id
                        != s1[q].id by {
                        assert(s0[p].id != s0[q].id);
                    }
                    lemma_rec_unique_index(s1, id, i as int);
                    assert forall|t: TileId| t != id implies (has_rec(s1, t) == has_rec(s0, t) && (
                    has_rec(s0, t) ==> rec_at(s1, t) == rec_at(s0, t))) by {
                        if has_rec(s0, t) {
                            let j = rec_idx(s0, t);
                            lemma_rec_unique_index(s0, t, j);
                            assert(s1[j] == s0[j]);
                            lemma_rec_unique_index(s1, t, j);
                        }
                        if has_rec(s1, t) {
                            let j = rec_idx(s1, t);
                            assert(s1[j].id == t && j != i);
                            assert(s0[j] == s1[j]);
                            assert(has_rec(s0, t));
                        }
                    }
                }
            },
            None => {
                let ghost s0 = self.tiles@;
                self.tiles.push(record);
                proof {
                    let s1 = self.tiles@;
                    let n = s0.len() as int;
                    assert forall|p: int, q: int| 0 <= p < q < s1.len() implies s1[p].id
                        != s1[q].id by {
                        if q < n {
                            assert(s0[p].id != s0[q].id);
                        } else {
                            assert(s1[p] == s0[p] && s1[q].id == id);
                        }
                    }
                    lemma_rec_unique_index(s1, id, n);
                    assert forall|t: TileId| t != id implies (has_rec(s1, t) == has_rec(s0, t) && (
                    has_rec(s0, t) ==> rec_at(s1, t) == rec_at(s0, t))) by {
                        if has_rec(s0, t) {
                            let j = rec_idx(s0, t);
                            lemma_rec_unique_index(s0, t, j);
                            assert(s1[j] == s0[j]);
                            lemma_rec_unique_index(s1, t, j);
                        }
                        if has_rec(s1, t) {
                            let j = rec_idx(s1, t);
                            assert(s1[j].id == t && j != n);
                            assert(s0[j] == s1[j]);
                            assert(has_rec(s0, t));
                        }
                    }
                }
            },
        }
    }

    /// Refresh the last-used time of every record judged visible this
    /// frame; records outside the view keep accumulating idle time.
    pub fn touch_visible(&mut self, visible: &Vec<TileId>, now: u64)
        requires
            old(self).wf(),
        ensures
            final(self).wf(),
            final(self).spec_focus_timeout() == old(self).spec_focus_timeout(),
            final(self).spec_background_timeout() == old(self).spec_background_timeout(),
            final(self).spec_sweep_interval() == old(self).spec_sweep_interval(),
            final(self).spec_last_sweep() == old(self).spec_last_sweep(),
            final(self).records().len() == old(self).records().len(),
            forall|k: int|
                0 <= k < old(self).records().len() ==> {
                    let r0 = old(self).records()[k];
                    let r1 = #[trigger] final(self).records()[k];
                    &&& r1.id == r0.id
                    &&& r1.entity == r0.entity
                    &&& r1.tier == r0.tier
                    &&& r1.last_used == (if visible@.contains(r0.id) {
                        now
                    } else {
                        r0.last_used
                    })
                },
    {
        let ghost s0 = self.tiles@;
        let mut i: usize = 0;
        while i < self.tiles.len()
            invariant
                self.tiles@.len() == s0.len(),
                s0 == old(self).tiles@,
                self.last_sweep_time == old(self).last_sweep_time,
                self.focus_timeout_ms == old(self).focus_timeout_ms,
                self.background_timeout_ms == old(self).background_timeout_ms,
                self.sweep_interval_ms == old(self).sweep_interval_ms,
                i <= s0.len(),
                forall|k: int|
                    0 <= k < s0.len() ==> {
                        let r0 = s0[k];
                        let r1 = #[trigger] self.tiles@[k];
                        &&& r1.id == r0.id
                        &&& r1.entity == r0.entity
                        &&& r1.tier == r0.tier
                        &&& r1.last_used == (if k < i && visible@.contains(r0.id) {
                            now
                        } else {
                            r0.last_used
                        })
                    },
            decreases s0.len() - i,
        {
            let id = self.tiles[i].id;
            let mut j: usize = 0;
            let mut seen = false;
            while j < visible.len() && !seen
                invariant
                    j <= visible@.len(),
                    seen ==> visible@.contains(id),
                    !seen ==> forall|l: int| 0 <= l < j ==> visible@[l] != id,
                decreases visible@.len() - j + (if seen { 0int } else { 1int }),
            {
                if visible[j] == id {
                    seen = true;
                    proof {
                        assert(visible@[j as int] == id);
                    }
                } else {
                    j = j + 1;
                }
            }
            if seen {
                let r = self.tiles[i];
                self.tiles.set(
                    i,
                    VisibleTileRecord { id: r.id, entity: r.entity, tier: r.tier, last_used: now },
                );
                proof {
                    assert(visible@.contains(s0[i as int].id));
                }
            } else {
                proof {
                    assert(forall|l: int| 0 <= l < visible@.len() ==> visible@[l] != id);
                    assert(id == s0[i as int].id);
                }
            }
            i = i + 1;
        }
        proof {
            assert forall|p: int, q: int| 0 <= p < q < self.tiles@.len() implies self.tiles@[p].id
                != self.tiles@[q].id by {
                assert(s0[p].id != s0[q].id);
            }
        }
    }

    /// Whether enough time has passed since the last sweep for the next
    /// one to run.
    pub fn should_sweep(&self, now: u64) -> (r: bool)
        ensures
            r == (now >= self.spec_last_sweep() + self.spec_sweep_interval()),
    {
        now >= self.last_sweep_time && now - self.last_sweep_time >= self.sweep_interval_ms
    }

    /// Evict a single record, handing back its entity for the caller to
    /// dematerialize.  Evicting an address with no record is a no-op, not
    /// an error.
    pub fn evict(&mut self, id: &TileId) -> (r: Option<u64>)
        requires
            old(self).wf(),
        ensures
            final(self).wf(),
            final(self).spec_focus_timeout() == old(self).spec_focus_timeout(),
            final(self).spec_background_timeout() == old(self).spec_background_timeout(),
            final(self).spec_sweep_interval() == old(self).spec_sweep_interval(),
            final(self).spec_last_sweep() == old(self).spec_last_sweep(),
            !has_rec(final(self).records(), *id),
            match r {
                Some(e) => has_rec(old(self).records(), *id) && e == rec_at(
                    old(self).records(),
                    *id,
                ).entity,
                None => !has_rec(old(self).records(), *id) && final(self).records() == old(
                    self,
                ).records(),
            },
            forall|t: TileId|
                t != *id ==> (has_rec(final(self).records(), t) == has_rec(old(self).records(), t)
                    && (has_rec(old(self).records(), t) ==> rec_at(final(self).records(), t)
                    == rec_at(old(self).records(), t))),
    {
        match self.find_index(id) {
            Some(i) => {
                proof {
                    lemma_rec_unique_index(self.tiles@, *id, i as int);
                }
                let ghost s0 = self.tiles@;
                let record = self.tiles.remove(i);
                proof {
                    let s1 = self.tiles@;
                    let n = i as int;
                    assert forall|p: int, q: int| 0 <= p < q < s1.len() implies s1[p].id
                        != s1[q].id by {
                        let p0 = if p < n { p } else { p + 1 };
                        let q0 = if q < n { q } else { q + 1 };
                        assert(s1[p] == s0[p0] && s1[q] == s0[q0]);
                    }
                    assert(!has_rec(s1, *id)) by {
                        if has_rec(s1, *id) {
                            let j = rec_idx(s1, *id);
                            assert(0 <= j < s1.len() && s1[j].id == *id);
                            let j0 = if j < n { j } else { j + 1 };
                            assert(s1[j] == s0[j0]);
                            assert(j0 != n);
                            if j0 < n {
                                assert(s0[j0].id != s0[n].id);
                            } else {
                                assert(s0[n].id != s0[j0].id);
                            }
                        }
                    }
                    assert forall|t: TileId| t != *id implies (has_rec(s1, t) == has_rec(s0, t) && (
                    has_rec(s0, t) ==> rec_at(s1, t) == rec_at(s0, t))) by {
                        if has_rec(s0, t) {
                            let j = rec_idx(s0, t);
                            lemma_rec_unique_index(s0, t, j);
                            let j2 = if j < n { j } else { j - 1 };
                            assert(s1[j2] == s0[j]);
                            lemma_rec_unique_index(s1, t, j2);
                        }
                        if has_rec(s1, t) {
                            let j = rec_idx(s1, t);
                            let j0 = if j < n { j } else { j + 1 };
                            assert(s1[j] == s0[j0]);
                            assert(has_rec(s0, t));
                        }
                    }
                }
                Some(record.entity)
            },
            None => None,
        }
    }

    /// The cleanup sweep: records idle past their tier's timeout are
    /// dropped, and their entities returned for dematerialization; records
    /// seen recently survive untouched.  Sweeping twice at the same
    /// instant removes nothing the second time.
    pub fn sweep(&mut self, now: u64) -> (evicted: Vec<u64>)
        requires
            old(self).wf(),
        ensures
            final(self).wf(),
            final(self).spec_focus_timeout() == old(self).spec_focus_timeout(),
            final(self).spec_background_timeout() == old(self).spec_background_timeout(),
            final(self).spec_sweep_interval() == old(self).spec_sweep_interval(),
            final(self).spec_last_sweep() == now,
            forall|t: TileId|
                has_rec(final(self).records(), t) <==> (has_rec(old(self).records(), t) && !old(
                    self,
                ).expired(rec_at(old(self).records(), t), now)),
            forall|t: TileId|
                has_rec(final(self).records(), t) ==> rec_at(final(self).records(), t) == rec_at(
                    old(self).records(),
                    t,
                ),
            forall|t: TileId|
                has_rec(old(self).records(), t) && old(self).expired(
                    rec_at(old(self).records(), t),
                    now,
                ) ==> evicted@.contains(rec_at(old(self).records(), t).entity),
            forall|k: int|
                0 <= k < evicted@.len() ==> entity_of_expired(
                    #[trigger] evicted@[k],
                    old(self).records(),
                    *old(self),
                    now,
                ),
    {
        let ghost s0 = self.tiles@;
        let mut kept: Vec<VisibleTileRecord> = Vec::new();
        let mut evicted: Vec<u64> = Vec::new();
        let mut i: usize = 0;
        while i < self.tiles.len()
            invariant
                old(self).wf(),
                self.tiles@ == s0,
                s0 == old(self).tiles@,
                self.focus_timeout_ms == old(self).focus_timeout_ms,
                self.background_timeout_ms == old(self).background_timeout_ms,
                self.sweep_interval_ms == old(self).sweep_interval_ms,
                i <= s0.len(),
                rec_ids_unique(kept@),
                forall|k: int|
                    0 <= k < kept@.len() ==> s0.take(i as int).contains(#[trigger] kept@[k]) && !old(
                        self,
                    ).expired(kept@[k], now),
                forall|j: int|
                    0 <= j < i && !old(self).expired(#[trigger] s0[j], now) ==> kept@.contains(
                        s0[j],
                    ),
                forall|j: int|
                    0 <= j < i && old(self).expired(#[trigger] s0[j], now) ==> evicted@.contains(
                        s0[j].entity,
                    ),
                forall|k: int|
                    0 <= k < evicted@.len() ==> entity_of_expired(
                        #[trigger] evicted@[k],
                        s0.take(i as int),
                        *old(self),
                        now,
                    ),
            decreases s0.len() - i,
        {
            let r = self.tiles[i];
            let keep = if r.tier == TileTier::Background {
                now <= r.last_used || now - r.last_used <= self.background_timeout_ms
            } else {
                now <= r.last_used || now - r.last_used <= self.focus_timeout_ms
            };
            if keep {
                proof {
                    assert(r == s0[i as int]);
                    assert(!old(self).expired(s0[i as int], now));
                    assert forall|k: int|
                        0 <= k < evicted@.len() implies entity_of_expired(
                        #[trigger] evicted@[k],
                        s0.take(i as int + 1),
                        *old(self),
                        now,
                    ) by {
                        let j = choose|j: int|
                            0 <= j < s0.take(i as int).len() && old(self).expired(
                                s0.take(i as int)[j],
                                now,
                            ) && s0.take(i as int)[j].entity == evicted@[k];
                        assert(s0.take(i as int + 1)[j] == s0[j]);
                        assert(old(self).expired(s0.take(i as int + 1)[j], now));
                    }
                    assert(!has_rec(kept@, r.id)) by {
                        if has_rec(kept@, r.id) {
                            let k = rec_idx(kept@, r.id);
                            assert(0 <= k < kept@.len() && kept@[k].id == r.id);
                            assert(s0.take(i as int).contains(kept@[k]));
                            let j = choose|j: int|
                                0 <= j < s0.take(i as int).len() && s0.take(i as int)[j] == kept@[k];
                            assert(s0[j] == kept@[k]);
                            assert(s0[j].id != s0[i as int].id);
                        }
                    }
                }
                let ghost k0 = kept@;
                kept.push(r);
                proof {
                    let k1 = kept@;
                    let n = k0.len() as int;
                    assert forall|p: int, q: int| 0 <= p < q < k1.len() implies k1[p].id
                        != k1[q].id by {
                        if q < n {
                            assert(k0[p].id != k0[q].id);
                        } else {
                            assert(k1[p] == k0[p] && k1[q] == r);
                            assert(k0.contains(k0[p]));
                        }
                    }
                    assert forall|k: int|
                        0 <= k < k1.len() implies s0.take(i as int + 1).contains(#[trigger] k1[k])
                        && !old(self).expired(k1[k], now) by {
                        if k < n {
                            assert(k1[k] == k0[k]);
                            assert(s0.take(i as int).contains(k0[k]));
                            let j = choose|j: int|
                                0 <= j < s0.take(i as int).len() && s0.take(i as int)[j] == k0[k];
                            assert(s0.take(i as int + 1)[j] == k0[k]);
                        } else {
                            assert(k1[k] == r);
                            assert(s0.take(i as int + 1)[i as int] == r);
                        }
                    }
                    assert forall|j: int|
                        0 <= j < i + 1 && !old(self).expired(
                            #[trigger] s0[j],
                            now,
                        ) implies k1.contains(s0[j]) by {
                        if j < i {
                            assert(k0.contains(s0[j]));
                            let k = choose|k: int| 0 <= k < k0.len() && k0[k] == s0[j];
                            assert(k1[k] == s0[j]);
                        } else {
                            assert(k1[n] == s0[j]);
                        }
                    }
                }
            } else {
                let ghost e0 = evicted@;
                evicted.push(r.entity);
                proof {
                    assert(r == s0[i as int]);
                    assert(old(self).expired(s0[i as int], now));
                    assert forall|k: int|
                        0 <= k < evicted@.len() implies entity_of_expired(
                        #[trigger] evicted@[k],
                        s0.take(i as int + 1),
                        *old(self),
                        now,
                    ) by {
                        if k < e0.len() {
                            assert(evicted@[k] == e0[k]);
                            let j = choose|j: int|
                                0 <= j < s0.take(i as int).len() && old(self).expired(
                                    s0.take(i as int)[j],
                                    now,
                                ) && s0.take(i as int)[j].entity == e0[k];
                            assert(s0.take(i as int + 1)[j] == s0[j]);
                            assert(old(self).expired(s0.take(i as int + 1)[j], now));
                        } else {
                            assert(evicted@[k] == r.entity);
                            assert(s0.take(i as int + 1)[i as int] == s0[i as int]);
                            assert(old(self).expired(s0.take(i as int + 1)[i as int], now));
                        }
                    }
                    assert forall|k: int|
                        0 <= k < kept@.len() implies s0.take(i as int + 1).contains(
                        #[trigger] kept@[k],
                    ) by {
                        assert(s0.take(i as int).contains(kept@[k]));
                        let j = choose|j: int|
                            0 <= j < s0.take(i as int).len() && s0.take(i as int)[j] == kept@[k];
                        assert(s0.take(i as int + 1)[j] == kept@[k]);
                    }
                    assert forall|j: int|
                        0 <= j < i + 1 && old(self).expired(
                            #[trigger] s0[j],
                            now,
                        ) implies evicted@.contains(s0[j].entity) by {
                        if j < i {
                            assert(e0.contains(s0[j].entity));
                            let k = choose|k: int| 0 <= k < e0.len() && e0[k] == s0[j].entity;
                            assert(evicted@[k] == s0[j].entity);
                        } else {
                            assert(evicted@[e0.len() as int] == s0[j].entity);
                        }
                    }
                }
            }
            i = i + 1;
        }
        self.tiles = kept;
        self.last_sweep_time = now;
        proof {
            let s1 = self.tiles@;
            assert forall|t: TileId| has_rec(s1, t) implies (has_rec(s0, t) && !old(self).expired(
                rec_at(s0, t),
                now,
            ) && rec_at(s1, t) == rec_at(s0, t)) by {
                let k = rec_idx(s1, t);
                assert(0 <= k < s1.len() && s1[k].id == t);
                assert(s0.take(s0.len() as int) =~= s0);
                assert(s0.take(s0.len() as int).contains(s1[k]) && !old(self).expired(s1[k], now));
                let j = choose|j: int| 0 <= j < s0.len() && s0[j] == s1[k];
                lemma_rec_unique_index(s0, t, j);
                lemma_rec_unique_index(s1, t, k);
            }
            assert forall|t: TileId|
                has_rec(s0, t) && !old(self).expired(rec_at(s0, t), now) implies has_rec(
                s1,
                t,
            ) by {
                let j = rec_idx(s0, t);
                lemma_rec_unique_index(s0, t, j);
                assert(s1.contains(s0[j]));
                let k = choose|k: int| 0 <= k < s1.len() && s1[k] == s0[j];
                assert(s1[k].id == t);
            }
            assert forall|t: TileId|
                has_rec(s0, t) && old(self).expired(rec_at(s0, t), now) implies evicted@.contains(
                rec_at(s0, t).entity,
            ) by {
                let j = rec_idx(s0, t);
                lemma_rec_unique_index(s0, t, j);
            }
            assert(s0.take(s0.len() as int) =~= s0);
            assert forall|k: int|
                0 <= k < evicted@.len() implies entity_of_expired(
                #[trigger] evicted@[k],
                s0,
                *old(self),
                now,
            ) by {
                assert(entity_of_expired(evicted@[k], s0.take(s0.len() as int), *old(self), now));
            }
        }
        evicted
    }

    /// The addresses of all currently materialized tiles, for reconciling
    /// the cache's retained set against what is still displayed.
    pub fn retained_ids(&self) -> (out: Vec<TileId>)
        requires
            self.wf(),
        ensures
            out@.len() == self.records().len(),
            forall|k: int|
                0 <= k < out@.len() ==> #[trigger] out@[k] == self.records()[k].id,
    {
        let mut out: Vec<TileId> = Vec::new();
        let mut i: usize = 0;
        while i < self.tiles.len()
            invariant
                i <= self.tiles@.len(),
                out@.len() == i,
                forall|k: int| 0 <= k < i ==> #[trigger] out@[k] == self.tiles@[k].id,
            decreases self.tiles@.len() - i,
        {
            out.push(self.tiles[i].id);
            i = i + 1;
        }
        out
    }

    /// How many tiles are materialized.
    pub fn record_count(&self) -> (n: usize)
        ensures
            n == self.records().len(),
    {
        self.tiles.len()
    }
}

/// Reconcile a bookkeeping list against the still-materialized set: only
/// addresses still in `active_coords` stay, so the list cannot grow
/// without bound.
pub fn retain_loaded(loaded_tiles: &mut Vec<TileId>, active_coords: &Vec<TileId>)
    ensures
        forall|t: TileId|
            final(loaded_tiles)@.contains(t) <==> (old(loaded_tiles)@.contains(t)
                && active_coords@.contains(t)),
        final(loaded_tiles)@.len() <= old(loaded_tiles)@.len(),
{
    let ghost s0 = loaded_tiles@;
    let mut kept: Vec<TileId> = Vec::new();
    let mut i: usize = 0;
    while i < loaded_tiles.len()
        invariant
            loaded_tiles@ == s0,
            i <= s0.len(),
            kept@.len() <= i,
            forall|k: int|
                0 <= k < kept@.len() ==> s0.take(i as int).contains(#[trigger] kept@[k])
                    && active_coords@.contains(kept@[k]),
            forall|j: int|
                0 <= j < i && active_coords@.contains(#[trigger] s0[j]) ==> kept@.contains(s0[j]),
        decreases s0.len() - i,
    {
        let t = loaded_tiles[i];
        let mut l: usize = 0;
        let mut found = false;
        while l < active_coords.len() && !found
            invariant
                l <= active_coords@.len(),
                found ==> active_coords@.contains(t),
                !found ==> forall|m: int| 0 <= m < l ==> active_coords@[m] != t,
            decreases active_coords@.len() - l + (if found { 0int } else { 1int }),
        {
            if active_coords[l] == t {
                found = true;
                proof {
                    assert(active_coords@[l as int] == t);
                }
            } else {
                l = l + 1;
            }
        }
        if found {
            let ghost k0 = kept@;
            kept.push(t);
            proof {
                let k1 = kept@;
                assert(k1[k0.len() as int] == t);
                assert(s0.take(i as int + 1)[i as int] == t);
                assert forall|k: int|
                    0 <= k < k1.len() implies s0.take(i as int + 1).contains(#[trigger] k1[k])
                        && active_coords@.contains(k1[k]) by {
                    if k < k0.len() {
                        assert(k1[k] == k0[k]);
                        assert(s0.take(i as int).contains(k0[k]));
                        let j = choose|j: int|
                            0 <= j < s0.take(i as int).len() && s0.take(i as int)[j] == k0[k];
                        assert(s0.take(i as int + 1)[j] == k0[k]);
                    }
                }
                assert forall|j: int|
                    0 <= j < i + 1 && active_coords@.contains(#[trigger] s0[j]) implies k1.contains(
                    s0[j],
                ) by {
                    if j < i {
                        assert(k0.contains(s0[j]));
                        let m = choose|m: int| 0 <= m < k0.len() && k0[m] == s0[j];
                        assert(k1[m] == s0[j]);
                    }
                }
            }
        } else {
            proof {
                assert(forall|m: int|
                    0 <= m < active_coords@.len() ==> active_coords@[m] != t);
                assert forall|k: int|
                    0 <= k < kept@.len() implies s0.take(i as int + 1).contains(#[trigger] kept@[k])
                        && active_coords@.contains(kept@[k]) by {
                    assert(s0.take(i as int).contains(kept@[k]));
                    let j = choose|j: int|
                        0 <= j < s0.take(i as int).len() && s0.take(i as int)[j] == kept@[k];
                    assert(s0.take(i as int + 1)[j] == kept@[k]);
                }
            }
        }
        i = i + 1;
    }
    let ghost kf = kept@;
    core::mem::swap(loaded_tiles, &mut kept);
    proof {
        assert(loaded_tiles@ == kf);
        assert(s0.take(s0.len() as int) =~= s0);
        assert forall|t: TileId|
            loaded_tiles@.contains(t) implies (s0.contains(t) && active_coords@.contains(t)) by {
            let k = choose|k: int| 0 <= k < kf.len() && kf[k] == t;
            assert(s0.take(s0.len() as int).contains(kf[k]));
        }
        assert forall|t: TileId|
            s0.contains(t) && active_coords@.contains(t) implies loaded_tiles@.contains(t) by {
            let j = choose|j: int| 0 <= j < s0.len() && s0[j] == t;
            assert(kf.contains(s0[j]));
        }
    }
}

} // verus!