//! The adaptive tile selection pass: a coarse background ring around the
//! camera, concentric detail rings around the view target with zoom
//! falling off outwards, redundant coverage removed (a coarse tile never
//! survives next to a finer tile over the same ground), and the result
//! ordered by priority.

use vstd::prelude::*;
use crate::types::{
    TileId, MAX_ZOOM_LEVEL, MIN_ZOOM_LEVEL, covers, same_area, is_same_area, max_tile_index,
    base_zoom_spec, calculate_base_zoom_level, lemma_covers_refl, lemma_covers_trans,
};
use vstd::arithmetic::power2::pow2;

verus! {

/// One candidate tile for loading: coordinates, priority (lower value =
/// more urgent), and whether it belongs to the background tier.
#[derive(Debug, Clone, Copy, PartialEq, Eq, Structural)]
pub struct TileToLoad {
    pub x: u32,
    pub y: u32,
    pub zoom: u32,
    pub priority: i32,
    pub is_background: bool,
}

/// The tile address of an entry.
pub open spec fn entry_tile(e: TileToLoad) -> TileId {
    TileId { zoom: e.zoom as u8, x: e.x, y: e.y }
}

/// A valid entry: its zoom is in range and its coordinates fit the grid.
pub open spec fn entry_wf(e: TileToLoad) -> bool {
    &&& e.zoom <= MAX_ZOOM_LEVEL as u32
    &&& entry_tile(e).wf()
}

pub open spec fn entries_wf(s: Seq<TileToLoad>) -> bool {
    forall|i: int| 0 <= i < s.len() ==> entry_wf(#[trigger] s[i])
}

/// Two entries are redundant when they sit in the same tier and one's
/// area contains the other's.
pub open spec fn redundant_pair(a: TileToLoad, b: TileToLoad) -> bool {
    a.is_background == b.is_background && same_area(entry_tile(a), entry_tile(b))
}

/// No entry's area contains another entry's area within the same tier.
pub open spec fn deduped(s: Seq<TileToLoad>) -> bool {
    forall|i: int, j: int|
        0 <= i < j < s.len() ==> !redundant_pair(#[trigger] s[i], #[trigger] s[j])
}

/// Entries ordered by rising priority value (most urgent first).
pub open spec fn sorted_by_priority(s: Seq<TileToLoad>) -> bool {
    forall|i: int, j: int| 0 <= i <= j < s.len() ==> s[i].priority <= s[j].priority
}

/// Entries ordered by falling zoom (finest first).
pub open spec fn sorted_by_zoom_desc(s: Seq<TileToLoad>) -> bool {
    forall|i: int, j: int| 0 <= i <= j < s.len() ==> s[i].zoom >= s[j].zoom
}

/// Every element of `s` also stands in `t`.
pub open spec fn entries_subset(s: Seq<TileToLoad>, t: Seq<TileToLoad>) -> bool {
    forall|i: int| 0 <= i < s.len() ==> t.contains(#[trigger] s[i])
}

/// Index of an entry with minimal priority value.
fn find_min_priority_index(tiles: &Vec<TileToLoad>) -> (r: usize)
    requires
        tiles@.len() > 0,
    ensures
        r < tiles@.len(),
        forall|j: int| 0 <= j < tiles@.len() ==> tiles@[r as int].priority <= tiles@[j].priority,
{
    let mut best: usize = 0;
    let mut i: usize = 1;
    while i < tiles.len()
        invariant
            best < i <= tiles@.len(),
            forall|j: int| 0 <= j < i ==> tiles@[best as int].priority <= tiles@[j].priority,
        decreases tiles@.len() - i,
    {
        if tiles[i].priority < tiles[best].priority {
            best = i;
        }
        i = i + 1;
    }
    best
}

/// Sort entries by rising priority value (most urgent first).
fn sort_by_priority_vec(tiles: &mut Vec<TileToLoad>)
    ensures
        final(tiles)@.len() == old(tiles)@.len(),
        sorted_by_priority(final(tiles)@),
        entries_subset(final(tiles)@, old(tiles)@),
        entries_subset(old(tiles)@, final(tiles)@),
        final(tiles)@.to_multiset() == old(tiles)@.to_multiset(),
{
    let ghost t0 = tiles@;
    let mut out: Vec<TileToLoad> = Vec::new();
    proof {
        broadcast use vstd::seq_lib::group_to_multiset_ensures;

        assert(out@.to_multiset().add(tiles@.to_multiset()) =~= t0.to_multiset()) by {
            assert forall|x: TileToLoad| out@.to_multiset().count(x) == 0 by {
                if out@.to_multiset().count(x) > 0 {
                    assert(out@.contains(x));
                }
            }
        }
    }
    while tiles.len() > 0
        invariant
            out@.len() + tiles@.len() == t0.len(),
            out@.to_multiset().add(tiles@.to_multiset()) == t0.to_multiset(),
            sorted_by_priority(out@),
            forall|k: int, l: int|
                0 <= k < out@.len() && 0 <= l < tiles@.len() ==> out@[k].priority
                    <= tiles@[l].priority,
            entries_subset(out@, t0),
            entries_subset(tiles@, t0),
            forall|k: int|
                0 <= k < t0.len() ==> out@.contains(#[trigger] t0[k]) || tiles@.contains(t0[k]),
        decreases tiles@.len(),
    {
        let m = find_min_priority_index(tiles);
        let ghost rc = tiles@;
        let ghost oc = out@;
        let e = tiles[m];
        tiles.remove(m);
        out.push(e);
        proof {
            let rn = tiles@;
            let on = out@;
            let n = m as int;
            assert(on == oc.push(e));
            broadcast use vstd::seq_lib::group_to_multiset_ensures;

            assert(rn =~= rc.remove(n));
            assert(rn.to_multiset() =~= rc.to_multiset().remove(e));
            assert(on.to_multiset() =~= oc.to_multiset().insert(e));
            assert(rc.contains(e)) by {
                assert(rc[n] == e);
            }
            assert(rc.to_multiset().count(e) > 0);
            assert(on.to_multiset().add(rn.to_multiset()) =~= oc.to_multiset().add(
                rc.to_multiset(),
            ));
            assert forall|k: int, l: int|
                0 <= k < on.len() && 0 <= l < rn.len() implies on[k].priority
                    <= rn[l].priority by {
                let l0 = if l < n { l } else { l + 1 };
                assert(rn[l] == rc[l0]);
                if k < oc.len() {
                    assert(on[k] == oc[k]);
                } else {
                    assert(on[k] == e);
                }
            }
            assert forall|i2: int, j2: int|
                0 <= i2 <= j2 < on.len() implies on[i2].priority <= on[j2].priority by {
                if j2 < oc.len() {
                    assert(oc[i2].priority <= oc[j2].priority);
                } else if i2 < oc.len() {
                    assert(on[j2] == e);
                    assert(rc.contains(e)) by {
                        assert(rc[n] == e);
                    }
                    assert(oc[i2].priority <= rc[n].priority);
                }
            }
            assert forall|k: int| 0 <= k < on.len() implies t0.contains(#[trigger] on[k]) by {
                if k < oc.len() {
                    assert(on[k] == oc[k]);
                } else {
                    assert(on[k] == e);
                    assert(t0.contains(rc[n]));
                }
            }
            assert forall|k: int| 0 <= k < rn.len() implies t0.contains(#[trigger] rn[k]) by {
                let k0 = if k < n { k } else { k + 1 };
                assert(rn[k] == rc[k0]);
            }
            assert forall|k: int|
                0 <= k < t0.len() implies on.contains(#[trigger] t0[k]) || rn.contains(t0[k]) by {
                if oc.contains(t0[k]) {
                    let l = choose|l: int| 0 <= l < oc.len() && oc[l] == t0[k];
                    assert(on[l] == t0[k]);
                } else if rc.contains(t0[k]) {
                    let l = choose|l: int| 0 <= l < rc.len() && rc[l] == t0[k];
                    if l == n {
                        assert(on[oc.len() as int] == t0[k]);
                    } else if l < n {
                        assert(rn[l] == t0[k]);
                    } else {
                        assert(rn[l - 1] == t0[k]);
                    }
                }
            }
        }
    }
    proof {
        broadcast use vstd::seq_lib::group_to_multiset_ensures;

        assert(out@.to_multiset() =~= t0.to_multiset()) by {
            assert forall|x: TileToLoad| tiles@.to_multiset().count(x) == 0 by {
                if tiles@.to_multiset().count(x) > 0 {
                    assert(tiles@.contains(x));
                }
            }
        }
    }
    let mut result = out;
    core::mem::swap(tiles, &mut result);
}

/// No entry repeats.
pub open spec fn entries_distinct(s: Seq<TileToLoad>) -> bool {
    forall|i: int, j: int| 0 <= i < j < s.len() ==> s[i] != s[j]
}

/// Of two entries over the same area, the coarser one's area contains the
/// finer one's.
proof fn lemma_same_area_directed(a: TileId, b: TileId)
    requires
        same_area(a, b),
        a.zoom <= b.zoom,
    ensures
        covers(a, b),
{
    if !covers(a, b) {
        assert(covers(b, a));
        assert(a.zoom == b.zoom);
        lemma_covers_refl(a);
        crate::types::lemma_covers_unique(b, a, a);
        lemma_covers_refl(a);
    }
}

/// Index of an entry with maximal zoom.
fn find_max_zoom_index(tiles: &Vec<TileToLoad>) -> (r: usize)
    requires
        tiles@.len() > 0,
    ensures
        r < tiles@.len(),
        forall|j: int| 0 <= j < tiles@.len() ==> tiles@[r as int].zoom >= tiles@[j].zoom,
{
    let mut best: usize = 0;
    let mut i: usize = 1;
    while i < tiles.len()
        invariant
            best < i <= tiles@.len(),
            forall|j: int| 0 <= j < i ==> tiles@[best as int].zoom >= tiles@[j].zoom,
        decreases tiles@.len() - i,
    {
        if tiles[i].zoom > tiles[best].zoom {
            best = i;
        }
        i = i + 1;
    }
    best
}

/// Sort entries by falling zoom (finest first).
fn sort_by_zoom_desc_vec(tiles: &mut Vec<TileToLoad>)
    ensures
        final(tiles)@.len() == old(tiles)@.len(),
        sorted_by_zoom_desc(final(tiles)@),
        entries_subset(final(tiles)@, old(tiles)@),
        entries_subset(old(tiles)@, final(tiles)@),
{
    let ghost t0 = tiles@;
    let mut out: Vec<TileToLoad> = Vec::new();
    while tiles.len() > 0
        invariant
            out@.len() + tiles@.len() == t0.len(),
            sorted_by_zoom_desc(out@),
            forall|k: int, l: int|
                0 <= k < out@.len() && 0 <= l < tiles@.len() ==> out@[k].zoom >= tiles@[l].zoom,
            entries_subset(out@, t0),
            entries_subset(tiles@, t0),
            forall|k: int|
                0 <= k < t0.len() ==> out@.contains(#[trigger] t0[k]) || tiles@.contains(t0[k]),
        decreases tiles@.len(),
    {
        let m = find_max_zoom_index(tiles);
        let ghost rc = tiles@;
        let ghost oc = out@;
        let e = tiles[m];
        tiles.remove(m);
        out.push(e);
        proof {
            let rn = tiles@;
            let on = out@;
            let n = m as int;
            assert(on == oc.push(e));
            assert forall|k: int, l: int|
                0 <= k < on.len() && 0 <= l < rn.len() implies on[k].zoom >= rn[l].zoom by {
                let l0 = if l < n { l } else { l + 1 };
                assert(rn[l] == rc[l0]);
                if k < oc.len() {
                    assert(on[k] == oc[k]);
                } else {
                    assert(on[k] == e);
                }
            }
            assert forall|i2: int, j2: int|
                0 <= i2 <= j2 < on.len() implies on[i2].zoom >= on[j2].zoom by {
                if j2 < oc.len() {
                    assert(oc[i2].zoom >= oc[j2].zoom);
                } else if i2 < oc.len() {
                    assert(on[j2] == e);
                    assert(oc[i2].zoom >= rc[n].zoom);
                }
            }
            assert forall|k: int| 0 <= k < on.len() implies t0.contains(#[trigger] on[k]) by {
                if k < oc.len() {
                    assert(on[k] == oc[k]);
                } else {
                    assert(on[k] == e);
                    assert(t0.contains(rc[n]));
                }
            }
            assert forall|k: int| 0 <= k < rn.len() implies t0.contains(#[trigger] rn[k]) by {
                let k0 = if k < n { k } else { k + 1 };
                assert(rn[k] == rc[k0]);
            }
            assert forall|k: int|
                0 <= k < t0.len() implies on.contains(#[trigger] t0[k]) || rn.contains(t0[k]) by {
                if oc.contains(t0[k]) {
                    let l = choose|l: int| 0 <= l < oc.len() && oc[l] == t0[k];
                    assert(on[l] == t0[k]);
                } else if rc.contains(t0[k]) {
                    let l = choose|l: int| 0 <= l < rc.len() && rc[l] == t0[k];
                    if l == n {
                        assert(on[oc.len() as int] == t0[k]);
                    } else if l < n {
                        assert(rn[l] == t0[k]);
                    } else {
                        assert(rn[l - 1] == t0[k]);
                    }
                }
            }
        }
    }
    let mut result = out;
    core::mem::swap(tiles, &mut result);
}

/// A surviving entry accounting for a dropped one: same tier, at least as
/// fine, and covering the same ground.
pub open spec fn accounts_for(e: TileToLoad, f: TileToLoad) -> bool {
    &&& f.is_background == e.is_background
    &&& e.zoom <= f.zoom
    &&& covers(entry_tile(e), entry_tile(f))
}

/// Some entry of `after` accounts for `e`.
pub open spec fn accounted_in(e: TileToLoad, after: Seq<TileToLoad>) -> bool {
    exists|f: TileToLoad| after.contains(f) && accounts_for(e, f)
}

/// Every entry of `before` is accounted for by some entry of `after`:
/// same tier, at least as fine, covering the same ground.
pub open spec fn all_accounted(before: Seq<TileToLoad>, after: Seq<TileToLoad>) -> bool {
    forall|k: int| 0 <= k < before.len() ==> accounted_in(#[trigger] before[k], after)
}

/// The index of an entry in `out` that makes `e` redundant, if any.
fn find_conflict(out: &Vec<TileToLoad>, e: &TileToLoad) -> (r: Option<usize>)
    requires
        entries_wf(out@),
        entry_wf(*e),
    ensures
        match r {
            Some(ci) => ci < out@.len() && redundant_pair(out@[ci as int], *e),
            None => forall|l: int| 0 <= l < out@.len() ==> !redundant_pair(#[trigger] out@[l], *e),
        },
{
    let mut l: usize = 0;
    while l < out.len()
        invariant
            l <= out@.len(),
            entries_wf(out@),
            entry_wf(*e),
            forall|k: int| 0 <= k < l ==> !redundant_pair(#[trigger] out@[k], *e),
        decreases out@.len() - l,
    {
        let f = out[l];
        if f.is_background == e.is_background && is_same_area(f.x, f.y, f.zoom, e.x, e.y, e.zoom) {
            return Some(l);
        }
        l = l + 1;
    }
    None
}

/// Remove duplicate tiles, preferring higher zoom (detail) levels: after
/// the pass no entry's area contains another's within the same tier,
/// every surviving entry was present before, every dropped entry is
/// accounted for by a surviving finer entry over the same ground, and the
/// result is ordered by priority.
#[verifier::rlimit(60)]
pub fn dedup_tiles(tiles: &mut Vec<TileToLoad>)
    requires
        entries_wf(old(tiles)@),
    ensures
        entries_wf(final(tiles)@),
        deduped(final(tiles)@),
        sorted_by_priority(final(tiles)@),
        final(tiles)@.len() <= old(tiles)@.len(),
        entries_subset(final(tiles)@, old(tiles)@),
        all_accounted(old(tiles)@, final(tiles)@),
{
    let ghost t0 = tiles@;
    sort_by_zoom_desc_vec(tiles);
    let ghost t1 = tiles@;
    proof {
        assert forall|k: int| 0 <= k < t1.len() implies entry_wf(#[trigger] t1[k]) by {
            assert(t0.contains(t1[k]));
            let l = choose|l: int| 0 <= l < t0.len() && t0[l] == t1[k];
        }
    }
    let mut out: Vec<TileToLoad> = Vec::new();
    let mut i: usize = 0;
    while i < tiles.len()
        invariant
            tiles@ == t1,
            entries_wf(t1),
            sorted_by_zoom_desc(t1),
            i <= t1.len(),
            entries_wf(out@),
            deduped(out@),
            out@.len() <= i,
            entries_subset(out@, t1),
            forall|l: int| 0 <= l < out@.len() && i < t1.len() ==> (#[trigger] out@[l]).zoom >= t1[i as int].zoom,
            forall|k: int| 0 <= k < i ==> accounted_in(#[trigger] t1[k], out@),
        decreases t1.len() - i,
    {
        let e = tiles[i];
        let conflict = find_conflict(&out, &e);
        match conflict {
            None => {
                let ghost oc = out@;
                out.push(e);
                proof {
                    let on = out@;
                    let n = oc.len() as int;
                    assert(on[n] == e);
                    assert forall|p: int, q: int|
                        0 <= p < q < on.len() implies !redundant_pair(
                        #[trigger] on[p],
                        #[trigger] on[q],
                    ) by {
                        if q < n {
                            assert(!redundant_pair(oc[p], oc[q]));
                        } else {
                            assert(on[p] == oc[p] && on[q] == e);
                            assert(!redundant_pair(oc[p], e));
                        }
                    }
                    assert forall|l: int| 0 <= l < on.len() implies t1.contains(#[trigger] on[l])
                        && entry_wf(on[l]) by {
                        if l < n {
                            assert(on[l] == oc[l]);
                        } else {
                            assert(on[l] == e && t1[i as int] == e);
                        }
                    }
                    lemma_covers_refl(entry_tile(e));
                    assert(accounts_for(t1[i as int], e));
                    assert forall|k: int| 0 <= k < i + 1 implies accounted_in(
                        #[trigger] t1[k],
                        on,
                    ) by {
                        if k < i {
                            assert(accounted_in(t1[k], oc));
                            let f = choose|f: TileToLoad| oc.contains(f) && accounts_for(t1[k], f);
                            let l = choose|l: int| 0 <= l < oc.len() && oc[l] == f;
                            assert(on[l] == f);
                            assert(on.contains(f) && accounts_for(t1[k], f));
                        } else {
                            assert(on.contains(e) && accounts_for(t1[k], e));
                        }
                    }
                    assert forall|l: int|
                        0 <= l < on.len() && i + 1 < t1.len() implies (#[trigger] on[l]).zoom
                        >= t1[i as int + 1].zoom by {
                        assert(t1[i as int].zoom >= t1[i as int + 1].zoom);
                        if l < n {
                            assert(oc[l].zoom >= t1[i as int].zoom);
                        } else {
                            assert(on[l] == e);
                        }
                    }
                }
            },
            Some(ci) => {
                proof {
                    let f = out@[ci as int];
                    assert(redundant_pair(f, e));
                    assert(f.zoom >= e.zoom);
                    assert(same_area(entry_tile(e), entry_tile(f)));
                    lemma_same_area_directed(entry_tile(e), entry_tile(f));
                    assert(out@.contains(f)) by {
                        assert(out@[ci as int] == f);
                    }
                    assert(accounts_for(t1[i as int], f));
                    assert forall|k: int| 0 <= k < i + 1 implies accounted_in(
                        #[trigger] t1[k],
                        out@,
                    ) by {
                        if k == i {
                            assert(out@.contains(f) && accounts_for(t1[k], f));
                        }
                    }
                    assert forall|l: int|
                        0 <= l < out@.len() && i + 1 < t1.len() implies (#[trigger] out@[l]).zoom
                        >= t1[i as int + 1].zoom by {
                        assert(t1[i as int].zoom >= t1[i as int + 1].zoom);
                        assert(out@[l].zoom >= t1[i as int].zoom);
                    }
                }
            },
        }
        i = i + 1;
    }
    let ghost t2 = out@;
    proof {
        assert(deduped(t2));
        assert forall|k: int| 0 <= k < t1.len() implies accounted_in(#[trigger] t1[k], t2) by {
            assert(accounted_in(t1[k], out@));
        }
        assert(t2.no_duplicates()) by {
            assert forall|p: int, q: int| 0 <= p < q < t2.len() implies t2[p] != t2[q] by {
                if t2[p] == t2[q] {
                    lemma_covers_refl(entry_tile(t2[p]));
                    assert(redundant_pair(t2[p], t2[q]));
                }
            }
        }
    }
    core::mem::swap(tiles, &mut out);
    proof {
        assert(tiles@ == t2);
    }
    sort_by_priority_vec(tiles);
    proof {
        let t3 = tiles@;
        assert forall|k: int| 0 <= k < t3.len() implies entry_wf(#[trigger] t3[k]) && t0.contains(
            t3[k],
        ) by {
            assert(t2.contains(t3[k]));
            let l = choose|l: int| 0 <= l < t2.len() && t2[l] == t3[k];
            assert(t1.contains(t2[l]));
            let l1 = choose|l1: int| 0 <= l1 < t1.len() && t1[l1] == t2[l];
            assert(t0.contains(t1[l1]));
        }
        assert(t3.no_duplicates()) by {
            broadcast use vstd::seq_lib::group_to_multiset_ensures;

            t2.lemma_multiset_has_no_duplicates();
            assert(t3.to_multiset() == t2.to_multiset());
            t3.lemma_multiset_has_no_duplicates_conv();
        }
        assert forall|p: int, q: int|
            0 <= p < q < t3.len() implies !redundant_pair(
            #[trigger] t3[p],
            #[trigger] t3[q],
        ) by {
            assert(t2.contains(t3[p]) && t2.contains(t3[q]));
            let a = choose|a: int| 0 <= a < t2.len() && t2[a] == t3[p];
            let b = choose|b: int| 0 <= b < t2.len() && t2[b] == t3[q];
            assert(t3[p] != t3[q]);
            assert(a != b);
            if a < b {
                assert(!redundant_pair(t2[a], t2[b]));
            } else {
                assert(!redundant_pair(t2[b], t2[a]));
                assert(!redundant_pair(t2[a], t2[b])) by {
                    if redundant_pair(t2[a], t2[b]) {
                        assert(same_area(entry_tile(t2[b]), entry_tile(t2[a])));
                    }
                }
            }
        }
        assert forall|k: int| 0 <= k < t0.len() implies accounted_in(#[trigger] t0[k], t3) by {
            assert(t1.contains(t0[k]));
            let k1 = choose|k1: int| 0 <= k1 < t1.len() && t1[k1] == t0[k];
            assert(accounted_in(t1[k1], t2));
            let f = choose|f: TileToLoad| t2.contains(f) && accounts_for(t1[k1], f);
            assert(t3.contains(f)) by {
                let l = choose|l: int| 0 <= l < t2.len() && t2[l] == f;
            }
            assert(t3.contains(f) && accounts_for(t0[k], f));
        }
        assert(all_accounted(t0, t3));
    }
}

/// Cap on how many tiles one adaptive pass may request.
pub const MAX_TOTAL_TILES: usize = 60;

/// The background zoom for a camera height: five levels coarser than the
/// base zoom, clamped to a narrow low band.
pub open spec fn bg_zoom_spec(camera_height: u64) -> u8 {
    let base = base_zoom_spec(camera_height);
    let a: u8 = if base >= 5 {
        (base - 5) as u8
    } else {
        0
    };
    let b: u8 = if a < MIN_ZOOM_LEVEL {
        MIN_ZOOM_LEVEL
    } else {
        a
    };
    if b > 4 {
        4
    } else {
        b
    }
}

/// How many detail rings a camera height gets: fewer from high up.
pub open spec fn ring_count_spec(camera_height: u64) -> int {
    if camera_height > 500 {
        1
    } else if camera_height > 200 {
        2
    } else {
        3
    }
}

/// The zoom of each detail ring: the base zoom at the center, two coarser
/// per ring outwards, never below the minimum.
pub open spec fn ring_zoom_spec(camera_height: u64, idx: int) -> u8 {
    let base = base_zoom_spec(camera_height);
    let drop: u8 = if idx == 0 {
        0
    } else if idx == 1 {
        2
    } else {
        4
    };
    if base >= drop + MIN_ZOOM_LEVEL {
        (base - drop) as u8
    } else {
        MIN_ZOOM_LEVEL
    }
}

/// Clamping an offset coordinate into `[0, maxi]`.
pub open spec fn clamp_spec(v: int, maxi: int) -> int {
    if v < 0 {
        0
    } else if v > maxi {
        maxi
    } else {
        v
    }
}

/// Clamp `c + off` into the valid coordinate range.
fn clamp_coord(c: u32, off: i64, maxi: u32) -> (r: u32)
    requires
        -8 <= off <= 8,
    ensures
        r <= maxi,
        r == clamp_spec(c + off, maxi as int),
{
    let v: i64 = c as i64 + off;
    if v < 0 {
        0
    } else if v > maxi as i64 {
        maxi
    } else {
        v as u32
    }
}

/// Whether any already-accepted detail tile covers this area; background
/// context tiles do not count, they sit in their own tier.
fn covered_by_any(covered: &Vec<TileToLoad>, x: u32, y: u32, zoom: u32) -> (r: bool)
    requires
        entries_wf(covered@),
        zoom <= MAX_ZOOM_LEVEL as u32,
        (TileId { zoom: zoom as u8, x, y }).wf(),
{
    let mut l: usize = 0;
    while l < covered.len()
        invariant
            l <= covered@.len(),
            entries_wf(covered@),
            zoom <= MAX_ZOOM_LEVEL as u32,
            (TileId { zoom: zoom as u8, x, y }).wf(),
        decreases covered@.len() - l,
    {
        let f = covered[l];
        if !f.is_background && is_same_area(f.x, f.y, f.zoom, x, y, zoom) {
            return true;
        }
        l = l + 1;
    }
    false
}

/// All entries are valid, background entries sit at the background zoom,
/// and detail entries sit strictly above it, no deeper than the base zoom.
pub open spec fn adaptive_entries_ok(s: Seq<TileToLoad>, camera_height: u64) -> bool {
    forall|i: int|
        0 <= i < s.len() ==> entry_wf(#[trigger] s[i]) && (s[i].is_background ==> s[i].zoom
            == bg_zoom_spec(camera_height) as u32) && (!s[i].is_background ==> bg_zoom_spec(
            camera_height,
        ) + 1 < s[i].zoom <= base_zoom_spec(camera_height) as u32)
}

/// The list holds a background entry at exactly these coordinates.
pub open spec fn bg_entry_at(s: Seq<TileToLoad>, x: u32, y: u32, zoom: u8) -> bool {
    exists|f: TileToLoad|
        s.contains(f) && f.is_background && f.zoom == zoom as u32 && f.x == x && f.y == y
}

/// The whole 3x3 background patch around (cx, cy) is present, each
/// offset clamped into the grid.
pub open spec fn bg_ring_present(s: Seq<TileToLoad>, cx: u32, cy: u32, zoom: u8, maxi: int) -> bool {
    forall|ax: int, ay: int|
        #![trigger clamp_spec(cx + ax, maxi), clamp_spec(cy + ay, maxi)]
        -1 <= ax <= 1 && -1 <= ay <= 1 ==> bg_entry_at(
            s,
            clamp_spec(cx + ax, maxi) as u32,
            clamp_spec(cy + ay, maxi) as u32,
            zoom,
        )
}

/// The background patch offsets lexicographically before (dx, dy) are
/// present.
spec fn bg_ring_upto(
    s: Seq<TileToLoad>,
    cx: u32,
    cy: u32,
    zoom: u8,
    maxi: int,
    dx: int,
    dy: int,
) -> bool {
    forall|ax: int, ay: int|
        #![trigger clamp_spec(cx + ax, maxi), clamp_spec(cy + ay, maxi)]
        -1 <= ax <= 1 && -1 <= ay <= 1 && (ax < dx || (ax == dx && ay < dy)) ==> bg_entry_at(
            s,
            clamp_spec(cx + ax, maxi) as u32,
            clamp_spec(cy + ay, maxi) as u32,
            zoom,
        )
}

/// Background presence carries to any list that keeps every background
/// entry.
proof fn lemma_bg_ring_transfer(
    s1: Seq<TileToLoad>,
    s2: Seq<TileToLoad>,
    cx: u32,
    cy: u32,
    zoom: u8,
    maxi: int,
)
    requires
        bg_ring_present(s1, cx, cy, zoom, maxi),
        forall|f: TileToLoad| s1.contains(f) && (#[trigger] f.is_background) ==> s2.contains(f),
    ensures
        bg_ring_present(s2, cx, cy, zoom, maxi),
{
    assert forall|ax: int, ay: int|
        #![trigger clamp_spec(cx + ax, maxi), clamp_spec(cy + ay, maxi)]
        -1 <= ax <= 1 && -1 <= ay <= 1 implies bg_entry_at(
        s2,
        clamp_spec(cx + ax, maxi) as u32,
        clamp_spec(cy + ay, maxi) as u32,
        zoom,
    ) by {
        assert(bg_entry_at(
            s1,
            clamp_spec(cx + ax, maxi) as u32,
            clamp_spec(cy + ay, maxi) as u32,
            zoom,
        ));
        let f = choose|f: TileToLoad|
            s1.contains(f) && f.is_background && f.zoom == zoom as u32 && f.x == clamp_spec(
                cx + ax,
                maxi,
            ) as u32 && f.y == clamp_spec(cy + ay, maxi) as u32;
        assert(s2.contains(f));
    }
}

/// Background presence survives deduplication: each background entry's
/// surviving account sits in the same tier at the same zoom, hence at the
/// very same coordinates.
proof fn lemma_bg_ring_through_dedup(
    pre: Seq<TileToLoad>,
    post: Seq<TileToLoad>,
    cx: u32,
    cy: u32,
    zoom: u8,
    maxi: int,
)
    requires
        bg_ring_present(pre, cx, cy, zoom, maxi),
        all_accounted(pre, post),
        forall|l: int|
            0 <= l < post.len() && (#[trigger] post[l]).is_background ==> post[l].zoom == zoom
                as u32,
    ensures
        bg_ring_present(post, cx, cy, zoom, maxi),
{
    assert forall|ax: int, ay: int|
        #![trigger clamp_spec(cx + ax, maxi), clamp_spec(cy + ay, maxi)]
        -1 <= ax <= 1 && -1 <= ay <= 1 implies bg_entry_at(
        post,
        clamp_spec(cx + ax, maxi) as u32,
        clamp_spec(cy + ay, maxi) as u32,
        zoom,
    ) by {
        assert(bg_entry_at(
            pre,
            clamp_spec(cx + ax, maxi) as u32,
            clamp_spec(cy + ay, maxi) as u32,
            zoom,
        ));
        let e = choose|f: TileToLoad|
            pre.contains(f) && f.is_background && f.zoom == zoom as u32 && f.x == clamp_spec(
                cx + ax,
                maxi,
            ) as u32 && f.y == clamp_spec(cy + ay, maxi) as u32;
        let k = choose|k: int| 0 <= k < pre.len() && pre[k] == e;
        assert(accounted_in(pre[k], post));
        let f = choose|f: TileToLoad| post.contains(f) && accounts_for(e, f);
        assert(f.is_background);
        let l = choose|l: int| 0 <= l < post.len() && post[l] == f;
        assert(f.zoom == zoom as u32);
        assert(entry_tile(e).zoom == entry_tile(f).zoom);
        lemma_covers_refl(entry_tile(f));
        crate::types::lemma_covers_unique(entry_tile(e), entry_tile(f), entry_tile(f));
        assert(post.contains(f) && f.is_background && f.zoom == zoom as u32 && f.x == clamp_spec(
            cx + ax,
            maxi,
        ) as u32 && f.y == clamp_spec(cy + ay, maxi) as u32);
    }
}

/// Generate an adaptive grid of tiles with varying zoom levels: a minimal
/// 3x3 background patch around the camera for context, then detail rings
/// around the view target whose zoom falls off with distance from the
/// center.  Redundant coverage is removed, at most `MAX_TOTAL_TILES` are
/// requested -- the background patch is always kept whole, the least
/// urgent detail tiles are dropped first -- and the result is ordered by
/// priority.
#[verifier::rlimit(100)]
pub fn generate_adaptive_tiles(
    camera_height: u64,
    bg_center_x: u32,
    bg_center_y: u32,
    ring_centers: &Vec<(u32, u32)>,
) -> (tiles: Vec<TileToLoad>)
    requires
        (bg_center_x as nat) < pow2(bg_zoom_spec(camera_height) as nat),
        (bg_center_y as nat) < pow2(bg_zoom_spec(camera_height) as nat),
        ring_centers@.len() == ring_count_spec(camera_height),
        forall|i: int|
            0 <= i < ring_centers@.len() ==> ((#[trigger] ring_centers@[i]).0 as nat) < pow2(
                ring_zoom_spec(camera_height, i) as nat,
            ) && (ring_centers@[i].1 as nat) < pow2(ring_zoom_spec(camera_height, i) as nat),
    ensures
        adaptive_entries_ok(tiles@, camera_height),
        deduped(tiles@),
        sorted_by_priority(tiles@),
        tiles@.len() <= MAX_TOTAL_TILES,
        bg_ring_present(
            tiles@,
            bg_center_x,
            bg_center_y,
            bg_zoom_spec(camera_height),
            pow2(bg_zoom_spec(camera_height) as nat) - 1,
        ),
{
    let base_zoom = calculate_base_zoom_level(camera_height);
    let bg_zoom: u8 = {
        let a: u8 = if base_zoom >= 5 {
            base_zoom - 5
        } else {
            0
        };
        let b: u8 = if a < MIN_ZOOM_LEVEL {
            MIN_ZOOM_LEVEL
        } else {
            a
        };
        if b > 4 {
            4
        } else {
            b
        }
    };
    let ghost h = camera_height;
    let mut tiles_to_load: Vec<TileToLoad> = Vec::new();
    // Background patch: a minimal 3x3 square of coarse context tiles.
    let bg_max = max_tile_index(bg_zoom as u32);
    let mut dx: i64 = -1;
    while dx <= 1
        invariant
            -1 <= dx <= 2,
            adaptive_entries_ok(tiles_to_load@, h),
            bg_zoom == bg_zoom_spec(h),
            base_zoom == base_zoom_spec(h),
            bg_max as nat == pow2(bg_zoom as nat) - 1,
            (bg_center_x as nat) < pow2(bg_zoom as nat),
            (bg_center_y as nat) < pow2(bg_zoom as nat),
            tiles_to_load@.len() <= 3 * (dx + 1),
            bg_count_upto(tiles_to_load@, tiles_to_load@.len() as int) == tiles_to_load@.len(),
            bg_ring_upto(
                tiles_to_load@,
                bg_center_x,
                bg_center_y,
                bg_zoom,
                pow2(bg_zoom as nat) - 1,
                dx as int,
                -1,
            ),
        decreases 2 - dx,
    {
        let mut dy: i64 = -1;
        while dy <= 1
            invariant
                -1 <= dx <= 1,
                -1 <= dy <= 2,
                adaptive_entries_ok(tiles_to_load@, h),
                bg_zoom == bg_zoom_spec(h),
                bg_max as nat == pow2(bg_zoom as nat) - 1,
                (bg_center_x as nat) < pow2(bg_zoom as nat),
                (bg_center_y as nat) < pow2(bg_zoom as nat),
                tiles_to_load@.len() <= 3 * (dx + 1) + (dy + 1),
                bg_count_upto(tiles_to_load@, tiles_to_load@.len() as int) == tiles_to_load@.len(),
                bg_ring_upto(
                    tiles_to_load@,
                    bg_center_x,
                    bg_center_y,
                    bg_zoom,
                    pow2(bg_zoom as nat) - 1,
                    dx as int,
                    dy as int,
                ),
            decreases 2 - dy,
        {
            let tile_x = clamp_coord(bg_center_x, dx, bg_max);
            let tile_y = clamp_coord(bg_center_y, dy, bg_max);
            let adx: i64 = if dx < 0 {
                -dx
            } else {
                dx
            };
            let ady: i64 = if dy < 0 {
                -dy
            } else {
                dy
            };
            let priority: i32 = 1000 + (adx + ady) as i32;
            let entry = TileToLoad {
                x: tile_x,
                y: tile_y,
                zoom: bg_zoom as u32,
                priority,
                is_background: true,
            };
            let ghost before = tiles_to_load@;
            tiles_to_load.push(entry);
            proof {
                broadcast use vstd::seq_lib::lemma_seq_contains_after_push;

                let maxi: int = pow2(bg_zoom as nat) - 1;
                assert(entry_wf(entry)) by {
                    if bg_zoom < 19 {
                        vstd::arithmetic::power2::lemma_pow2_strictly_increases(
                            bg_zoom as nat,
                            19 as nat,
                        );
                    }
                }
                assert(tiles_to_load@[before.len() as int] == entry);
                lemma_bg_prefix(before, entry, before.len() as int);
                assert(tiles_to_load@.contains(entry));
                assert(entry.x == clamp_spec(bg_center_x + dx, maxi) as u32);
                assert(entry.y == clamp_spec(bg_center_y + dy, maxi) as u32);
                assert forall|ax: int, ay: int|
                    #![trigger clamp_spec(bg_center_x + ax, maxi), clamp_spec(bg_center_y + ay, maxi)]
                    -1 <= ax <= 1 && -1 <= ay <= 1 && (ax < dx as int || (ax == dx as int && ay
                        < dy + 1)) implies bg_entry_at(
                    tiles_to_load@,
                    clamp_spec(bg_center_x + ax, maxi) as u32,
                    clamp_spec(bg_center_y + ay, maxi) as u32,
                    bg_zoom,
                ) by {
                    if ax == dx as int && ay == dy as int {
                        assert(tiles_to_load@.contains(entry) && entry.is_background && entry.zoom
                            == bg_zoom as u32);
                    } else {
                        assert(bg_entry_at(
                            before,
                            clamp_spec(bg_center_x + ax, maxi) as u32,
                            clamp_spec(bg_center_y + ay, maxi) as u32,
                            bg_zoom,
                        ));
                        let f = choose|f: TileToLoad|
                            before.contains(f) && f.is_background && f.zoom == bg_zoom as u32
                                && f.x == clamp_spec(bg_center_x + ax, maxi) as u32 && f.y
                                == clamp_spec(bg_center_y + ay, maxi) as u32;
                        assert(tiles_to_load@.contains(f));
                    }
                }
            }
            dy = dy + 1;
        }
        proof {
            let maxi: int = pow2(bg_zoom as nat) - 1;
            assert forall|ax: int, ay: int|
                #![trigger clamp_spec(bg_center_x + ax, maxi), clamp_spec(bg_center_y + ay, maxi)]
                -1 <= ax <= 1 && -1 <= ay <= 1 && (ax < dx + 1 || (ax == dx + 1 && ay
                    < -1)) implies bg_entry_at(
                tiles_to_load@,
                clamp_spec(bg_center_x + ax, maxi) as u32,
                clamp_spec(bg_center_y + ay, maxi) as u32,
                bg_zoom,
            ) by {
                assert(ax < dx as int || (ax == dx as int && ay < 2));
            }
        }
        dx = dx + 1;
    }
    proof {
        let maxi: int = pow2(bg_zoom as nat) - 1;
        assert forall|ax: int, ay: int|
            #![trigger clamp_spec(bg_center_x + ax, maxi), clamp_spec(bg_center_y + ay, maxi)]
            -1 <= ax <= 1 && -1 <= ay <= 1 implies bg_entry_at(
            tiles_to_load@,
            clamp_spec(bg_center_x + ax, maxi) as u32,
            clamp_spec(bg_center_y + ay, maxi) as u32,
            bg_zoom,
        ) by {
            assert(ax < 2);
        }
        assert(bg_ring_present(tiles_to_load@, bg_center_x, bg_center_y, bg_zoom, maxi));
    }
    // Detail rings around the view target.
    let ring_count: usize = if camera_height > 500 {
        1
    } else if camera_height > 200 {
        2
    } else {
        3
    };
    let mut idx: usize = 0;
    while idx < ring_count
        invariant
            idx <= ring_count,
            ring_count == ring_count_spec(h),
            ring_centers@.len() == ring_count_spec(h),
            forall|i: int|
                0 <= i < ring_centers@.len() ==> ((#[trigger] ring_centers@[i]).0 as nat) < pow2(
                    ring_zoom_spec(h, i) as nat,
                ) && (ring_centers@[i].1 as nat) < pow2(ring_zoom_spec(h, i) as nat),
            adaptive_entries_ok(tiles_to_load@, h),
            bg_zoom == bg_zoom_spec(h),
            base_zoom == base_zoom_spec(h),
            (bg_center_x as nat) < pow2(bg_zoom as nat),
            (bg_center_y as nat) < pow2(bg_zoom as nat),
            tiles_to_load@.len() <= 9 + idx * 49,
            bg_count_upto(tiles_to_load@, tiles_to_load@.len() as int) <= 9,
            bg_ring_present(
                tiles_to_load@,
                bg_center_x,
                bg_center_y,
                bg_zoom,
                pow2(bg_zoom as nat) - 1,
            ),
        decreases ring_count - idx,
    {
        let zoom: u8 = {
            let drop: u8 = if idx == 0 {
                0
            } else if idx == 1 {
                2
            } else {
                4
            };
            if base_zoom >= drop + MIN_ZOOM_LEVEL {
                base_zoom - drop
            } else {
                MIN_ZOOM_LEVEL
            }
        };
        proof {
            assert(zoom == ring_zoom_spec(h, idx as int));
        }
        if zoom > bg_zoom + 1 {
            let radius: i64 = if idx == 0 {
                3
            } else {
                2
            };
            let (cx, cy) = ring_centers[idx];
            let maxi = max_tile_index(zoom as u32);
            let ghost ring_start = tiles_to_load@;
            let mut x_off: i64 = -radius;
            while x_off <= radius
                invariant
                    -3 <= -radius <= x_off <= radius + 1 <= 4,
                    idx < ring_count == ring_count_spec(h),
                    zoom == ring_zoom_spec(h, idx as int),
                    bg_zoom == bg_zoom_spec(h),
                    base_zoom == base_zoom_spec(h),
                    zoom > bg_zoom + 1,
                    zoom <= base_zoom,
                    maxi as nat == pow2(zoom as nat) - 1,
                    (cx as nat) < pow2(zoom as nat),
                    (cy as nat) < pow2(zoom as nat),
                    adaptive_entries_ok(tiles_to_load@, h),
                    tiles_to_load@.len() <= ring_start.len() + (x_off + radius) * 7,
                    ring_start.len() <= 9 + idx * 49,
                    bg_count_upto(tiles_to_load@, tiles_to_load@.len() as int) <= 9,
                    bg_ring_present(
                        tiles_to_load@,
                        bg_center_x,
                        bg_center_y,
                        bg_zoom,
                        pow2(bg_zoom as nat) - 1,
                    ),
                decreases radius + 1 - x_off,
            {
                let mut y_off: i64 = -radius;
                while y_off <= radius
                    invariant
                        -3 <= -radius <= x_off <= radius <= 3,
                        -3 <= -radius <= y_off <= radius + 1 <= 4,
                        idx < ring_count == ring_count_spec(h),
                        zoom == ring_zoom_spec(h, idx as int),
                        bg_zoom == bg_zoom_spec(h),
                        base_zoom == base_zoom_spec(h),
                        zoom > bg_zoom + 1,
                        zoom <= base_zoom,
                        maxi as nat == pow2(zoom as nat) - 1,
                        (cx as nat) < pow2(zoom as nat),
                        (cy as nat) < pow2(zoom as nat),
                        adaptive_entries_ok(tiles_to_load@, h),
                        tiles_to_load@.len() <= ring_start.len() + (x_off + radius) * 7 + (y_off
                            + radius),
                        ring_start.len() <= 9 + idx * 49,
                        bg_count_upto(tiles_to_load@, tiles_to_load@.len() as int) <= 9,
                        bg_ring_present(
                            tiles_to_load@,
                            bg_center_x,
                            bg_center_y,
                            bg_zoom,
                            pow2(bg_zoom as nat) - 1,
                        ),
                    decreases radius + 1 - y_off,
                {
                    let axo: i64 = if x_off < 0 {
                        -x_off
                    } else {
                        x_off
                    };
                    let ayo: i64 = if y_off < 0 {
                        -y_off
                    } else {
                        y_off
                    };
                    let manhattan: i64 = axo + ayo;
                    if !(idx > 0 && manhattan < idx as i64) {
                        let is_diagonal = axo == ayo && x_off != 0;
                        let tile_x = clamp_coord(cx, x_off, maxi);
                        let tile_y = clamp_coord(cy, y_off, maxi);
                        proof {
                            assert((TileId { zoom: zoom as u8, x: tile_x, y: tile_y }).wf()) by {
                                if zoom < 19 {
                                    vstd::arithmetic::power2::lemma_pow2_strictly_increases(
                                        zoom as nat,
                                        19 as nat,
                                    );
                                }
                            }
                        }
                        if !covered_by_any(&tiles_to_load, tile_x, tile_y, zoom as u32) {
                            let priority_adjustment: i32 = if is_diagonal {
                                -1
                            } else {
                                0
                            };
                            let priority: i32 = (idx as i32) * 100 + manhattan as i32
                                + priority_adjustment;
                            let entry = TileToLoad {
                                x: tile_x,
                                y: tile_y,
                                zoom: zoom as u32,
                                priority,
                                is_background: false,
                            };
                            let ghost before = tiles_to_load@;
                            tiles_to_load.push(entry);
                            proof {
                                broadcast use vstd::seq_lib::lemma_seq_contains_after_push;

                                assert(tiles_to_load@[before.len() as int] == entry);
                                lemma_bg_prefix(before, entry, before.len() as int);
                                lemma_bg_ring_transfer(
                                    before,
                                    tiles_to_load@,
                                    bg_center_x,
                                    bg_center_y,
                                    bg_zoom,
                                    pow2(bg_zoom as nat) - 1,
                                );
                            }
                        }
                    }
                    y_off = y_off + 1;
                }
                x_off = x_off + 1;
            }
        }
        idx = idx + 1;
    }
    // Cap the total: the whole background patch stays, the most urgent
    // detail tiles fill what is left.
    if tiles_to_load.len() > MAX_TOTAL_TILES {
        let mut background_tiles: Vec<TileToLoad> = Vec::new();
        let mut foreground_tiles: Vec<TileToLoad> = Vec::new();
        let ghost full = tiles_to_load@;
        let mut k: usize = 0;
        while k < tiles_to_load.len()
            invariant
                k <= full.len(),
                tiles_to_load@ == full,
                adaptive_entries_ok(full, h),
                bg_count_upto(full, full.len() as int) <= 9,
                adaptive_entries_ok(background_tiles@, h),
                adaptive_entries_ok(foreground_tiles@, h),
                background_tiles@.len() == bg_count_upto(full, k as int),
                foreground_tiles@.len() <= k,
                forall|j: int|
                    0 <= j < k && (#[trigger] full[j]).is_background
                        ==> background_tiles@.contains(full[j]),
            decreases full.len() - k,
        {
            let e = tiles_to_load[k];
            proof {
                lemma_bg_count_step(full, k as int);
            }
            if e.is_background {
                let ghost bb = background_tiles@;
                background_tiles.push(e);
                proof {
                    broadcast use vstd::seq_lib::lemma_seq_contains_after_push;

                    assert(background_tiles@[bb.len() as int] == e);
                    assert forall|j: int|
                        0 <= j < k + 1 && (#[trigger] full[j]).is_background
                            implies background_tiles@.contains(full[j]) by {
                        if j < k {
                            assert(bb.contains(full[j]));
                        } else {
                            assert(full[j] == e);
                        }
                    }
                }
            } else {
                foreground_tiles.push(e);
                proof {
                    assert forall|j: int|
                        0 <= j < k + 1 && (#[trigger] full[j]).is_background
                            implies background_tiles@.contains(full[j]) by {
                        if j == k {
                            assert(full[j] == e);
                        }
                    }
                }
            }
            k = k + 1;
        }
        proof {
            assert(background_tiles@.len() <= 9);
        }
        sort_by_priority_vec(&mut foreground_tiles);
        let keep: usize = if background_tiles.len() >= MAX_TOTAL_TILES {
            0
        } else {
            MAX_TOTAL_TILES - background_tiles.len()
        };
        foreground_tiles.truncate(keep);
        proof {
            assert forall|l: int|
                0 <= l < foreground_tiles@.len() implies entry_wf(#[trigger] foreground_tiles@[l])
                && (foreground_tiles@[l].is_background ==> foreground_tiles@[l].zoom
                == bg_zoom_spec(h) as u32) && (!foreground_tiles@[l].is_background
                ==> bg_zoom_spec(h) + 1 < foreground_tiles@[l].zoom <= base_zoom_spec(
                h,
            ) as u32) by {}
            assert(background_tiles@.len() + foreground_tiles@.len() <= MAX_TOTAL_TILES);
        }
        let ghost bgf = background_tiles@;
        let mut combined = background_tiles;
        let ghost bg_len = combined@.len();
        let mut f2: usize = 0;
        proof {
            assert forall|f: TileToLoad| bgf.contains(f) implies combined@.contains(f) by {}
        }
        while f2 < foreground_tiles.len()
            invariant
                f2 <= foreground_tiles@.len(),
                adaptive_entries_ok(foreground_tiles@, h),
                adaptive_entries_ok(combined@, h),
                combined@.len() == bg_len + f2,
                bg_len == bgf.len(),
                bg_len + foreground_tiles@.len() <= MAX_TOTAL_TILES,
                forall|f: TileToLoad| bgf.contains(f) ==> combined@.contains(f),
            decreases foreground_tiles@.len() - f2,
        {
            let ghost cb = combined@;
            combined.push(foreground_tiles[f2]);
            proof {
                broadcast use vstd::seq_lib::lemma_seq_contains_after_push;

                assert forall|f: TileToLoad| bgf.contains(f) implies combined@.contains(f) by {
                    assert(cb.contains(f));
                }
            }
            f2 = f2 + 1;
        }
        proof {
            broadcast use vstd::seq_lib::lemma_seq_contains_after_push;

            assert(combined@.len() <= MAX_TOTAL_TILES);
            assert forall|f: TileToLoad|
                full.contains(f) && (#[trigger] f.is_background) implies combined@.contains(
                f,
            ) by {
                let j = choose|j: int| 0 <= j < full.len() && full[j] == f;
                assert(background_tiles@.contains(full[j]));
                assert(bgf.contains(f));
            }
            lemma_bg_ring_transfer(
                full,
                combined@,
                bg_center_x,
                bg_center_y,
                bg_zoom,
                pow2(bg_zoom as nat) - 1,
            );
        }
        tiles_to_load = combined;
    }
    proof {
        assert(tiles_to_load@.len() <= MAX_TOTAL_TILES);
        assert(bg_ring_present(
            tiles_to_load@,
            bg_center_x,
            bg_center_y,
            bg_zoom,
            pow2(bg_zoom as nat) - 1,
        ));
    }
    let ghost pre_dedup = tiles_to_load@;
    dedup_tiles(&mut tiles_to_load);
    proof {
        assert forall|i: int|
            0 <= i < tiles_to_load@.len() implies entry_wf(#[trigger] tiles_to_load@[i]) && (
        tiles_to_load@[i].is_background ==> tiles_to_load@[i].zoom == bg_zoom_spec(h) as u32) && (
        !tiles_to_load@[i].is_background ==> bg_zoom_spec(h) + 1 < tiles_to_load@[i].zoom
            <= base_zoom_spec(h) as u32) by {
            assert(pre_dedup.contains(tiles_to_load@[i]));
            let l = choose|l: int| 0 <= l < pre_dedup.len() && pre_dedup[l] == tiles_to_load@[i];
        }
        lemma_bg_ring_through_dedup(
            pre_dedup,
            tiles_to_load@,
            bg_center_x,
            bg_center_y,
            bg_zoom,
            pow2(bg_zoom as nat) - 1,
        );
    }
    tiles_to_load
}


/// Whether the batch holds an entry for this tile address.
pub open spec fn batch_has_tile(batch: Seq<TileToLoad>, t: TileId) -> bool {
    exists|i: int| 0 <= i < batch.len() && entry_tile(#[trigger] batch[i]) == t
}

/// Whether the list holds the given address.
fn tile_list_contains(v: &Vec<TileId>, t: &TileId) -> (r: bool)
    ensures
        r == v@.contains(*t),
{
    let mut i: usize = 0;
    while i < v.len()
        invariant
            i <= v@.len(),
            forall|j: int| 0 <= j < i ==> v@[j] != *t,
        decreases v@.len() - i,
    {
        if v[i] == *t {
            return true;
        }
        i = i + 1;
    }
    proof {
        assert(forall|j: int| 0 <= j < v@.len() ==> v@[j] != *t);
    }
    false
}

/// Pick the tiles to actually dispatch this cycle: walking the candidates
/// in priority order, skip anything already loaded or pending, start at
/// most `max_concurrent_loads` new loads, and mark each started tile as
/// loaded so it is never requested twice.
pub fn load_tiles(
    tiles_to_load: &Vec<TileToLoad>,
    loaded_tiles: &mut Vec<TileId>,
    pending_tiles: &Vec<TileId>,
    max_concurrent_loads: usize,
) -> (batch: Vec<TileToLoad>)
    requires
        entries_wf(tiles_to_load@),
    ensures
        batch@.len() <= max_concurrent_loads,
        forall|i: int|
            0 <= i < batch@.len() ==> tiles_to_load@.contains(#[trigger] batch@[i]) && !old(
                loaded_tiles,
            )@.contains(entry_tile(batch@[i])) && !pending_tiles@.contains(entry_tile(batch@[i])),
        forall|t: TileId|
            final(loaded_tiles)@.contains(t) <==> (old(loaded_tiles)@.contains(t) || batch_has_tile(
                batch@,
                t,
            )),
        batch@.len() == max_concurrent_loads || forall|k: int|
            0 <= k < tiles_to_load@.len() ==> old(loaded_tiles)@.contains(
                entry_tile(#[trigger] tiles_to_load@[k]),
            ) || pending_tiles@.contains(entry_tile(tiles_to_load@[k])) || batch_has_tile(
                batch@,
                entry_tile(tiles_to_load@[k]),
            ),
        sorted_by_priority(tiles_to_load@) ==> sorted_by_priority(batch@),
{
    let ghost l0 = loaded_tiles@;
    let mut batch: Vec<TileToLoad> = Vec::new();
    let mut i: usize = 0;
    while i < tiles_to_load.len() && batch.len() < max_concurrent_loads
        invariant
            i <= tiles_to_load@.len(),
            entries_wf(tiles_to_load@),
            batch@.len() <= max_concurrent_loads,
            forall|k: int|
                0 <= k < batch@.len() ==> tiles_to_load@.contains(#[trigger] batch@[k])
                    && !l0.contains(entry_tile(batch@[k])) && !pending_tiles@.contains(
                    entry_tile(batch@[k]),
                ),
            forall|t: TileId| l0.contains(t) ==> loaded_tiles@.contains(t),
            forall|t: TileId|
                loaded_tiles@.contains(t) <==> (l0.contains(t) || batch_has_tile(batch@, t)),
            forall|k: int|
                0 <= k < i ==> l0.contains(entry_tile(#[trigger] tiles_to_load@[k]))
                    || pending_tiles@.contains(entry_tile(tiles_to_load@[k])) || batch_has_tile(
                    batch@,
                    entry_tile(tiles_to_load@[k]),
                ),
            sorted_by_priority(tiles_to_load@) ==> sorted_by_priority(batch@) && (i
                < tiles_to_load@.len() ==> forall|l: int|
                0 <= l < batch@.len() ==> (#[trigger] batch@[l]).priority
                    <= tiles_to_load@[i as int].priority),
        decreases tiles_to_load@.len() - i,
    {
        let e = tiles_to_load[i];
        let t = TileId { zoom: e.zoom as u8, x: e.x, y: e.y };
        let already_loaded = tile_list_contains(loaded_tiles, &t);
        let already_pending = tile_list_contains(pending_tiles, &t);
        if !already_loaded && !already_pending {
            let ghost lc = loaded_tiles@;
            let ghost bc = batch@;
            loaded_tiles.push(t);
            batch.push(e);
            proof {
                let ln = loaded_tiles@;
                let bn = batch@;
                assert(bn[bc.len() as int] == e);
                assert(entry_tile(e) == t);
                assert(tiles_to_load@.contains(e)) by {
                    assert(tiles_to_load@[i as int] == e);
                }
                assert(!l0.contains(t)) by {
                    if l0.contains(t) {
                        let m = choose|m: int| 0 <= m < l0.len() && l0[m] == t;
                        assert(lc.contains(t));
                    }
                }
                assert forall|k: int|
                    0 <= k < bn.len() implies tiles_to_load@.contains(#[trigger] bn[k])
                        && !l0.contains(entry_tile(bn[k])) && !pending_tiles@.contains(
                        entry_tile(bn[k]),
                    ) by {
                    if k < bc.len() {
                        assert(bn[k] == bc[k]);
                    }
                }
                assert forall|t2: TileId|
                    ln.contains(t2) <==> (l0.contains(t2) || batch_has_tile(bn, t2)) by {
                    if ln.contains(t2) {
                        let m = choose|m: int| 0 <= m < ln.len() && ln[m] == t2;
                        if m < lc.len() {
                            assert(lc[m] == t2);
                            assert(lc.contains(t2));
                            if !l0.contains(t2) {
                                let k = choose|k: int|
                                    0 <= k < bc.len() && entry_tile(bc[k]) == t2;
                                assert(entry_tile(bn[k]) == t2);
                            }
                        } else {
                            assert(t2 == t);
                            assert(entry_tile(bn[bc.len() as int]) == t2);
                        }
                    }
                    if l0.contains(t2) {
                        let m = choose|m: int| 0 <= m < l0.len() && l0[m] == t2;
                        assert(lc.contains(t2));
                        let m2 = choose|m2: int| 0 <= m2 < lc.len() && lc[m2] == t2;
                        assert(ln[m2] == t2);
                    }
                    if batch_has_tile(bn, t2) {
                        let k = choose|k: int| 0 <= k < bn.len() && entry_tile(bn[k]) == t2;
                        if k < bc.len() {
                            assert(entry_tile(bc[k]) == t2);
                            assert(batch_has_tile(bc, t2));
                            assert(lc.contains(t2));
                            let m2 = choose|m2: int| 0 <= m2 < lc.len() && lc[m2] == t2;
                            assert(ln[m2] == t2);
                        } else {
                            assert(t2 == t);
                            assert(ln[lc.len() as int] == t2);
                        }
                    }
                }
                assert forall|k: int|
                    0 <= k < i + 1 implies l0.contains(entry_tile(#[trigger] tiles_to_load@[k]))
                        || pending_tiles@.contains(entry_tile(tiles_to_load@[k])) || batch_has_tile(
                        bn,
                        entry_tile(tiles_to_load@[k]),
                    ) by {
                    if k < i {
                        if batch_has_tile(bc, entry_tile(tiles_to_load@[k])) {
                            let l = choose|l: int|
                                0 <= l < bc.len() && entry_tile(bc[l]) == entry_tile(
                                    tiles_to_load@[k],
                                );
                            assert(entry_tile(bn[l]) == entry_tile(tiles_to_load@[k]));
                        }
                    } else {
                        assert(entry_tile(bn[bc.len() as int]) == t);
                    }
                }
                if sorted_by_priority(tiles_to_load@) {
                    assert forall|i2: int, j2: int|
                        0 <= i2 <= j2 < bn.len() implies bn[i2].priority <= bn[j2].priority by {
                        if j2 < bc.len() {
                            assert(bc[i2].priority <= bc[j2].priority);
                        } else if i2 < bc.len() {
                            assert(bn[i2] == bc[i2] && bn[j2] == e);
                            assert(bc[i2].priority <= tiles_to_load@[i as int].priority);
                        }
                    }
                    if i + 1 < tiles_to_load@.len() {
                        assert(tiles_to_load@[i as int].priority <= tiles_to_load@[i as int
                            + 1].priority);
                        assert forall|l: int|
                            0 <= l < bn.len() implies (#[trigger] bn[l]).priority
                                <= tiles_to_load@[i as int + 1].priority by {
                            if l < bc.len() {
                                assert(bn[l] == bc[l]);
                                assert(bc[l].priority <= tiles_to_load@[i as int].priority);
                            } else {
                                assert(bn[l] == e);
                            }
                        }
                    }
                }
            }
        } else {
            proof {
                assert(loaded_tiles@.contains(t) || pending_tiles@.contains(t));
                assert(entry_tile(tiles_to_load@[i as int]) == t);
                if loaded_tiles@.contains(t) && !l0.contains(t) {
                    assert(batch_has_tile(batch@, t));
                }
                if sorted_by_priority(tiles_to_load@) && i + 1 < tiles_to_load@.len() {
                    assert(tiles_to_load@[i as int].priority <= tiles_to_load@[i as int
                        + 1].priority);
                }
            }
        }
        i = i + 1;
    }
    batch
}

/// How many of the first `n` entries are background entries.
spec fn bg_count_upto(s: Seq<TileToLoad>, n: int) -> int
    decreases n,
{
    if n <= 0 {
        0
    } else {
        bg_count_upto(s, n - 1) + if s[n - 1].is_background {
            1int
        } else {
            0int
        }
    }
}

proof fn lemma_bg_count_step(s: Seq<TileToLoad>, k: int)
    requires
        0 <= k < s.len(),
    ensures
        bg_count_upto(s, k + 1) == bg_count_upto(s, k) + if s[k].is_background {
            1int
        } else {
            0int
        },
{
}

/// The background count of a prefix is unchanged by a later push.
proof fn lemma_bg_prefix(s: Seq<TileToLoad>, e: TileToLoad, n: int)
    requires
        0 <= n <= s.len(),
    ensures
        bg_count_upto(s.push(e), n) == bg_count_upto(s, n),
    decreases n,
{
    if n > 0 {
        lemma_bg_prefix(s, e, n - 1);
        assert(s.push(e)[n - 1] == s[n - 1]);
    }
}


} // verus!