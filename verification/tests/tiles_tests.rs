//! Tests for the adaptive tile selection pass and its deduplication.

use tile_pyramid::tiles::{
    TileToLoad, dedup_tiles, generate_adaptive_tiles, load_tiles, MAX_TOTAL_TILES,
};
use tile_pyramid::types::{TileId, is_same_area};
use tile_pyramid::downloader::{TileDownloadQueue, MAX_BATCH_SIZE, process_download_result};
use tile_pyramid::cache::TileCache;
use tile_pyramid::channel::TileLoadedEvent;
use tile_pyramid::types::{TileError, TileTier};

fn entry(x: u32, y: u32, zoom: u32, priority: i32, bg: bool) -> TileToLoad {
    TileToLoad { x, y, zoom, priority, is_background: bg }
}

#[test]
fn dedup_drops_a_coarse_tile_covered_by_a_finer_one() {
    // (1,1,2) contains its zoom-3 child (2,2,3)
    let mut tiles = vec![entry(1, 1, 2, 5, false), entry(2, 2, 3, 7, false)];
    dedup_tiles(&mut tiles);
    assert_eq!(tiles.len(), 1);
    assert_eq!((tiles[0].x, tiles[0].y, tiles[0].zoom), (2, 2, 3));
}

#[test]
fn dedup_keeps_unrelated_tiles_and_sorts_by_priority() {
    let mut tiles = vec![
        entry(1, 1, 3, 9, false),
        entry(2, 2, 3, 3, false),
        entry(3, 3, 3, 6, false),
    ];
    dedup_tiles(&mut tiles);
    assert_eq!(tiles.len(), 3);
    assert!(tiles[0].priority <= tiles[1].priority && tiles[1].priority <= tiles[2].priority);
}

#[test]
fn dedup_separates_background_from_focus_tiers() {
    // same ground, different tiers: both stay
    let mut tiles = vec![entry(1, 1, 2, 5, true), entry(2, 2, 3, 7, false)];
    dedup_tiles(&mut tiles);
    assert_eq!(tiles.len(), 2);
}

#[test]
fn dedup_removes_exact_duplicates() {
    let mut tiles = vec![entry(4, 4, 5, 2, false), entry(4, 4, 5, 8, false)];
    dedup_tiles(&mut tiles);
    assert_eq!(tiles.len(), 1);
}

#[test]
fn dedup_of_an_empty_list_is_empty() {
    let mut tiles: Vec<TileToLoad> = Vec::new();
    dedup_tiles(&mut tiles);
    assert!(tiles.is_empty());
}

#[test]
fn adaptive_pass_keeps_the_background_center_and_caps_the_total() {
    // camera at height 1000: base zoom 9, background zoom 4, one ring
    let ring_centers = vec![(100u32, 100u32)];
    let tiles = generate_adaptive_tiles(1000, 8, 8, &ring_centers);
    assert!(tiles.len() <= MAX_TOTAL_TILES);
    assert!(!tiles.is_empty());
    // the whole 3x3 background patch under the camera is always requested
    for dx in -1i64..=1 {
        for dy in -1i64..=1 {
            let (bx, by) = ((8 + dx) as u32, (8 + dy) as u32);
            assert!(
                tiles.iter().any(|t| t.is_background && t.zoom == 4 && t.x == bx && t.y == by),
                "missing background tile ({}, {})",
                bx,
                by
            );
        }
    }
    // no redundant coverage within a tier
    for i in 0..tiles.len() {
        for j in 0..tiles.len() {
            if i != j && tiles[i].is_background == tiles[j].is_background {
                let a = tiles[i];
                let b = tiles[j];
                assert!(!is_same_area(a.x, a.y, a.zoom, b.x, b.y, b.zoom));
            }
        }
    }
    // ordered by priority, most urgent first
    for w in tiles.windows(2) {
        assert!(w[0].priority <= w[1].priority);
    }
}

#[test]
fn adaptive_pass_low_camera_uses_three_rings() {
    // camera at height 60: base zoom 13, background zoom 4, three rings
    let ring_centers = vec![(4216u32, 2668u32), (1054u32, 667u32), (263u32, 166u32)];
    let tiles = generate_adaptive_tiles(60, 8, 8, &ring_centers);
    // detail tiles from several zoom levels appear
    assert!(tiles.iter().any(|t| !t.is_background && t.zoom == 13));
    assert!(tiles.iter().any(|t| !t.is_background && t.zoom < 13));
    assert!(tiles.iter().any(|t| t.is_background));
    assert!(tiles.len() <= MAX_TOTAL_TILES);
}

#[test]
fn load_tiles_skips_known_work_and_bounds_the_batch() {
    let candidates = vec![
        entry(1, 0, 5, 1, false),
        entry(2, 0, 5, 2, false),
        entry(3, 0, 5, 3, false),
        entry(4, 0, 5, 4, false),
    ];
    let mut loaded = vec![TileId::new(5, 1, 0)];
    let pending = vec![TileId::new(5, 2, 0)];
    let batch = load_tiles(&candidates, &mut loaded, &pending, 1);
    // the loaded and pending addresses are skipped; the cap stops at one
    assert_eq!(batch.len(), 1);
    assert_eq!((batch[0].x, batch[0].y), (3, 0));
    // the dispatched tile is now recorded as loaded
    assert!(loaded.contains(&TileId::new(5, 3, 0)));
    // a second pass dispatches the remaining candidate
    let batch2 = load_tiles(&candidates, &mut loaded, &pending, 8);
    assert_eq!(batch2.len(), 1);
    assert_eq!((batch2[0].x, batch2[0].y), (4, 0));
}

#[test]
fn download_queue_moves_work_in_batches() {
    let mut q = TileDownloadQueue::new();
    for i in 0..70u32 {
        q.queue(TileId::new(10, i, 0));
    }
    // duplicates are not queued twice
    q.queue(TileId::new(10, 0, 0));
    assert_eq!(q.queued_count(), 70);
    let batch = q.get_next_batch();
    assert_eq!(batch.len(), MAX_BATCH_SIZE);
    assert_eq!(q.queued_count(), 6);
    assert_eq!(q.downloading_count(), MAX_BATCH_SIZE);
    q.mark_completed(&batch[0]);
    assert_eq!(q.downloading_count(), MAX_BATCH_SIZE - 1);
    assert!(!q.is_empty());
    q.clear();
    assert!(q.is_empty());
}

#[test]
fn applying_a_download_result_reports_cache_rejections() {
    let mut cache = TileCache::new();
    let mut q = TileDownloadQueue::new();
    let id = TileId::new(9, 3, 4);
    // a payload that is not a well-formed image never enters the cache
    let bad = TileLoadedEvent { tile_id: id, data: Ok(vec![5u8, 5, 5]), tier: TileTier::Focus };
    let r = process_download_result(bad, &mut cache, &mut q, 7);
    assert!(matches!(r.result, Err(TileError::CacheError)));
    assert!(!cache.contains(&id));
    // a well-formed payload is cached
    let img = image::RgbaImage::from_pixel(1, 1, image::Rgba([7, 7, 7, 255]));
    let mut bytes: Vec<u8> = Vec::new();
    let mut cursor = std::io::Cursor::new(&mut bytes);
    image::DynamicImage::ImageRgba8(img)
        .write_to(&mut cursor, image::ImageFormat::Png)
        .unwrap();
    let good = TileLoadedEvent { tile_id: id, data: Ok(bytes), tier: TileTier::Focus };
    let r = process_download_result(good, &mut cache, &mut q, 8);
    assert!(r.result.is_ok());
    assert!(cache.contains(&id));
    // a failed download is passed through unchanged in kind
    let failed = TileLoadedEvent {
        tile_id: id,
        data: Err(TileError::NotFound),
        tier: TileTier::Focus,
    };
    let r = process_download_result(failed, &mut cache, &mut q, 9);
    assert!(matches!(r.result, Err(TileError::NotFound)));
}
