//! Tests for the per-frame reconciliation: materialization records,
//! visibility refresh, eviction sweeps and the result channel.

use tile_pyramid::channel::{ResultChannel, TileLoadedEvent};
use tile_pyramid::reconciler::{Reconciler, retain_loaded};
use tile_pyramid::types::{Tile, TileId, TileState, TileTier};

#[test]
fn focus_tile_survives_before_its_timeout_and_dies_after() {
    // focus-tier timeout of 3s, swept once per second
    let mut r = Reconciler::new(3_000, 30_000, 1_000);
    let a = TileId::new(13, 4216, 2668);
    r.record_materialized(a, 1, TileTier::Focus, 0);
    // at t=2.9s the tile still exists
    let evicted = r.sweep(2_900);
    assert!(evicted.is_empty());
    assert_eq!(r.record_count(), 1);
    // at t=3.1s the next sweep evicts it
    let evicted = r.sweep(3_100);
    assert_eq!(evicted, vec![1]);
    assert_eq!(r.record_count(), 0);
}

#[test]
fn background_tiles_outlive_focus_tiles() {
    let mut r = Reconciler::new(3_000, 30_000, 1_000);
    r.record_materialized(TileId::new(13, 1, 1), 1, TileTier::Focus, 0);
    r.record_materialized(TileId::new(2, 1, 1), 2, TileTier::Background, 0);
    let evicted = r.sweep(10_000);
    assert_eq!(evicted, vec![1]);
    assert_eq!(r.record_count(), 1);
    let evicted = r.sweep(40_000);
    assert_eq!(evicted, vec![2]);
    assert_eq!(r.record_count(), 0);
}

#[test]
fn touching_a_visible_tile_resets_its_idle_clock() {
    let mut r = Reconciler::new(3_000, 30_000, 1_000);
    let a = TileId::new(13, 4216, 2668);
    r.record_materialized(a, 1, TileTier::Focus, 0);
    let visible = vec![a];
    r.touch_visible(&visible, 2_000);
    // 3s timeout counted from the touch, not from materialization
    assert!(r.sweep(4_000).is_empty());
    assert_eq!(r.sweep(5_100), vec![1]);
}

#[test]
fn eviction_of_an_absent_address_is_a_no_op() {
    let mut r = Reconciler::new(3_000, 30_000, 1_000);
    let a = TileId::new(13, 4216, 2668);
    assert!(r.evict(&a).is_none());
    r.record_materialized(a, 9, TileTier::Focus, 0);
    assert_eq!(r.evict(&a), Some(9));
    assert!(r.evict(&a).is_none());
    // sweeping an empty set removes nothing
    assert!(r.sweep(1_000_000).is_empty());
}

#[test]
fn a_failed_record_never_blocks_a_later_success() {
    // the record transitions Failed -> Loading -> Loaded cleanly
    let mut tile = Tile::new(TileId::new(13, 4216, 2668));
    tile.set_failed();
    assert_eq!(tile.state, TileState::Failed);
    tile.set_loading();
    assert_eq!(tile.state, TileState::Loading);
    tile.set_loaded(5, 65536, 1_000);
    assert_eq!(tile.state, TileState::Loaded { entity: 5, load_time: 1_000 });
    // and a late failure does not displace the loaded result
    tile.set_failed();
    assert_eq!(tile.state, TileState::Loaded { entity: 5, load_time: 1_000 });
}

#[test]
fn rematerializing_an_address_replaces_its_record() {
    let mut r = Reconciler::new(3_000, 30_000, 1_000);
    let a = TileId::new(13, 4216, 2668);
    // a fallback placeholder was materialized for a failed load
    r.record_materialized(a, 1, TileTier::Focus, 0);
    // the view came back and the re-requested download succeeded
    r.record_materialized(a, 2, TileTier::Focus, 100);
    assert_eq!(r.record_count(), 1);
    assert_eq!(r.evict(&a), Some(2));
}

#[test]
fn sweep_cadence_is_fixed() {
    let mut r = Reconciler::new(3_000, 30_000, 1_000);
    assert!(!r.should_sweep(500));
    assert!(r.should_sweep(1_000));
    r.sweep(1_000);
    assert!(!r.should_sweep(1_500));
    assert!(r.should_sweep(2_000));
}

#[test]
fn drained_outcomes_appear_exactly_once() {
    // two workers complete downloads for different addresses; both
    // outcomes appear in the drained batch exactly once
    let mut ch = ResultChannel::new();
    let a = TileId::new(13, 1, 1);
    let b = TileId::new(13, 2, 2);
    ch.push(TileLoadedEvent { tile_id: a, data: Ok(vec![1u8]), tier: TileTier::Focus });
    ch.push(TileLoadedEvent { tile_id: b, data: Ok(vec![2u8]), tier: TileTier::Focus });
    assert_eq!(ch.len(), 2);
    let drained = ch.drain();
    assert_eq!(drained.len(), 2);
    assert_eq!(drained[0].tile_id, a);
    assert_eq!(drained[1].tile_id, b);
    // nothing is handed out twice
    assert!(ch.is_empty());
    assert!(ch.drain().is_empty());
}

#[test]
fn drain_up_to_caps_one_frame_and_keeps_the_rest() {
    let mut ch = ResultChannel::new();
    for i in 0..5u32 {
        ch.push(TileLoadedEvent {
            tile_id: TileId::new(10, i, 0),
            data: Err(tile_pyramid::types::TileError::NotFound),
            tier: TileTier::Background,
        });
    }
    let first = ch.drain_up_to(3);
    assert_eq!(first.len(), 3);
    assert_eq!(first[0].tile_id.x, 0);
    assert_eq!(ch.len(), 2);
    let second = ch.drain_up_to(3);
    assert_eq!(second.len(), 2);
    assert_eq!(second[0].tile_id.x, 3);
    assert!(ch.is_empty());
}

#[test]
fn retain_loaded_drops_addresses_no_longer_materialized() {
    let mut loaded = vec![TileId::new(10, 1, 1), TileId::new(10, 2, 2), TileId::new(10, 3, 3)];
    let active = vec![TileId::new(10, 2, 2)];
    retain_loaded(&mut loaded, &active);
    assert_eq!(loaded, vec![TileId::new(10, 2, 2)]);
}

#[test]
fn retained_ids_reflect_the_records() {
    let mut r = Reconciler::new(3_000, 30_000, 1_000);
    let a = TileId::new(13, 1, 1);
    let b = TileId::new(2, 0, 0);
    r.record_materialized(a, 1, TileTier::Focus, 0);
    r.record_materialized(b, 2, TileTier::Background, 0);
    let ids = r.retained_ids();
    assert_eq!(ids.len(), 2);
    assert!(ids.contains(&a));
    assert!(ids.contains(&b));
}
