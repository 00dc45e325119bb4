//! Tests for the priority scheduler: coalescing, batching and the
//! priority formula.

use tile_pyramid::scheduler::{TileScheduler, calculate_ideal_zoom, MAX_CONCURRENT_DOWNLOADS};
use tile_pyramid::types::TileId;

#[test]
fn resubmitting_with_lower_priority_keeps_the_higher() {
    let mut s = TileScheduler::new(10_000);
    let a = TileId::new(10, 1, 1);
    let b = TileId::new(10, 2, 2);
    s.queue_request(a, 10, 0);
    s.queue_request(b, 7, 0);
    // re-submit a with a lower priority: max wins, so a still outranks b
    s.queue_request(a, 5, 1);
    let batch = s.get_next_batch(2);
    assert_eq!(batch.len(), 2);
    assert_eq!(batch[0], a);
    assert_eq!(batch[1], b);
}

#[test]
fn resubmitting_with_higher_priority_raises_it() {
    let mut s = TileScheduler::new(10_000);
    let a = TileId::new(10, 1, 1);
    let b = TileId::new(10, 2, 2);
    s.queue_request(a, 5, 0);
    s.queue_request(b, 7, 0);
    s.queue_request(a, 20, 1);
    let batch = s.get_next_batch(2);
    assert_eq!(batch[0], a);
    assert_eq!(batch[1], b);
}

#[test]
fn coalescing_never_duplicates_an_address() {
    let mut s = TileScheduler::new(10_000);
    let a = TileId::new(10, 1, 1);
    s.queue_request(a, 5, 0);
    s.queue_request(a, 9, 1);
    s.queue_request(a, 2, 2);
    let batch = s.get_next_batch(3);
    assert_eq!(batch.len(), 1);
    assert_eq!(batch[0], a);
}

#[test]
fn batches_respect_the_concurrency_bound() {
    let mut s = TileScheduler::new(10_000);
    for i in 0..10u32 {
        s.queue_request(TileId::new(10, i, 0), 100 - i, 0);
    }
    let batch = s.get_next_batch(5);
    assert_eq!(batch.len(), MAX_CONCURRENT_DOWNLOADS);
    // highest priority first
    for w in batch.windows(2) {
        assert!(w[0].x <= w[1].x);
    }
    // all slots are taken: nothing more is dispatched
    let batch2 = s.get_next_batch(6);
    assert_eq!(batch2.len(), 0);
}

#[test]
fn completing_a_download_frees_its_slot() {
    let mut s = TileScheduler::new(10_000);
    for i in 0..8u32 {
        s.queue_request(TileId::new(10, i, 0), 10, 0);
    }
    let batch = s.get_next_batch(5);
    assert_eq!(batch.len(), 6);
    s.mark_completed(batch[0]);
    let batch2 = s.get_next_batch(6);
    assert_eq!(batch2.len(), 1);
}

#[test]
fn timed_out_downloads_free_their_slots() {
    let mut s = TileScheduler::new(1_000);
    for i in 0..6u32 {
        s.queue_request(TileId::new(10, i, 0), 10, 0);
    }
    let batch = s.get_next_batch(0);
    assert_eq!(batch.len(), 6);
    // queue more work; while everything is in flight nothing is handed out
    for i in 6..9u32 {
        s.queue_request(TileId::new(10, i, 0), 10, 500);
    }
    assert_eq!(s.get_next_batch(500).len(), 0);
    // after the timeout elapses, the stale downloads are dropped
    let batch2 = s.get_next_batch(2_000);
    assert_eq!(batch2.len(), 3);
}

#[test]
fn an_address_in_flight_is_not_requeued() {
    let mut s = TileScheduler::new(10_000);
    let a = TileId::new(10, 1, 1);
    s.queue_request(a, 10, 0);
    let batch = s.get_next_batch(0);
    assert_eq!(batch, vec![a]);
    // while a is in flight, re-submission is ignored
    s.queue_request(a, 50, 1);
    assert_eq!(s.get_next_batch(1).len(), 0);
}

#[test]
fn ideal_zoom_follows_the_height_table() {
    assert_eq!(calculate_ideal_zoom(0), 18);
    assert_eq!(calculate_ideal_zoom(9), 18);
    assert_eq!(calculate_ideal_zoom(10), 17);
    assert_eq!(calculate_ideal_zoom(49), 16);
    assert_eq!(calculate_ideal_zoom(60), 15);
    assert_eq!(calculate_ideal_zoom(400), 13);
    assert_eq!(calculate_ideal_zoom(20_000), 8);
}

#[test]
fn priority_formula_matches_its_specification() {
    // zoom 13 tile, right at the view center, visible, camera at height 60:
    // ideal zoom 15, zoom gap 2, so
    // (0x200000 - 0) * 10 * (20 - 2)
    let id = TileId::new(13, 0, 0);
    let span: u32 = 1 << 21;
    let p = TileScheduler::calculate_priority(id, 0, true, 60);
    assert_eq!(p, span * 10 * 18);
    // the same tile out of view scores exactly a tenth of that
    let q = TileScheduler::calculate_priority(id, 0, false, 60);
    assert_eq!(p, 10 * q);
    // distance lowers the score
    let far = TileScheduler::calculate_priority(id, 9, true, 60);
    assert_eq!(far, (span - 9) * 10 * 18);
    assert!(far < p);
}

#[test]
fn priority_is_strictly_ordered_by_distance_and_zoom_gap() {
    let id = TileId::new(13, 0, 0);
    // strictly less at every greater distance, even deep in the range
    let near = TileScheduler::calculate_priority(id, 600, true, 60);
    let far = TileScheduler::calculate_priority(id, 700, true, 60);
    assert!(far < near);
    let edge_a = TileScheduler::calculate_priority(id, 1_048_570, true, 60);
    let edge_b = TileScheduler::calculate_priority(id, 1_048_571, true, 60);
    assert!(edge_b < edge_a);
    // a zoom nearer the ideal (15 at height 60) outranks a farther one
    let near_zoom = TileScheduler::calculate_priority(TileId::new(14, 0, 0), 5, true, 60);
    let far_zoom = TileScheduler::calculate_priority(TileId::new(11, 0, 0), 5, true, 60);
    assert!(far_zoom < near_zoom);
}
