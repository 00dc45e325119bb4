//! Tests for the retry/fallback classification and download bookkeeping.

use tile_pyramid::loader::{
    DownloadAttempt, FetchOutcome, LoaderStep, CacheStep, TileLoader, MAX_CONCURRENT_LOADS,
    RETRY_BACKOFF_MS,
};
use tile_pyramid::osm::{OSMTile, u32_to_string};
use tile_pyramid::types::{TileId, TileError};

fn tiny_png() -> Vec<u8> {
    let img = image::RgbaImage::from_pixel(1, 1, image::Rgba([0, 0, 0, 255]));
    let mut bytes: Vec<u8> = Vec::new();
    let mut cursor = std::io::Cursor::new(&mut bytes);
    image::DynamicImage::ImageRgba8(img)
        .write_to(&mut cursor, image::ImageFormat::Png)
        .unwrap();
    bytes
}

#[test]
fn not_found_fails_without_a_second_attempt() {
    let id = TileId::new(13, 4216, 2668);
    let mut attempt = DownloadAttempt::new(id, 3);
    let step = attempt.on_fetch_result(FetchOutcome::NotFound);
    assert!(matches!(step, LoaderStep::Failed { error: TileError::NotFound }));
    // exactly one attempt was used: no retry happened or will happen
    assert_eq!(attempt.attempts_used, 1);
}

#[test]
fn two_transient_failures_then_a_success_loads_and_persists() {
    let id = TileId::new(13, 4216, 2668);
    let mut attempt = DownloadAttempt::new(id, 3);
    let s1 = attempt.on_fetch_result(FetchOutcome::Transient);
    assert!(matches!(s1, LoaderStep::Retry { backoff_ms } if backoff_ms == RETRY_BACKOFF_MS));
    let s2 = attempt.on_fetch_result(FetchOutcome::Transient);
    assert!(matches!(s2, LoaderStep::Retry { .. }));
    let bytes = tiny_png();
    let s3 = attempt.on_fetch_result(FetchOutcome::Success(bytes.clone()));
    match s3 {
        LoaderStep::Loaded { bytes: got, persist } => {
            assert_eq!(got, bytes);
            assert!(persist, "a fresh network success must be persisted to disk");
        },
        _ => panic!("expected the third attempt to load"),
    }
}

#[test]
fn exhausting_the_attempt_budget_fails_definitively() {
    let id = TileId::new(13, 4216, 2668);
    let mut attempt = DownloadAttempt::new(id, 3);
    assert!(matches!(attempt.on_fetch_result(FetchOutcome::Transient), LoaderStep::Retry { .. }));
    assert!(matches!(attempt.on_fetch_result(FetchOutcome::Transient), LoaderStep::Retry { .. }));
    let s3 = attempt.on_fetch_result(FetchOutcome::Transient);
    assert!(matches!(s3, LoaderStep::Failed { error: TileError::DownloadFailed }));
}

#[test]
fn malformed_bytes_count_as_a_transient_failure() {
    let id = TileId::new(13, 4216, 2668);
    let mut attempt = DownloadAttempt::new(id, 2);
    let s1 = attempt.on_fetch_result(FetchOutcome::Success(vec![9u8, 9, 9]));
    assert!(matches!(s1, LoaderStep::Retry { .. }));
    let s2 = attempt.on_fetch_result(FetchOutcome::Success(vec![9u8, 9, 9]));
    assert!(matches!(s2, LoaderStep::Failed { error: TileError::LoadError(_) }));
}

#[test]
fn cache_probe_uses_well_formed_bytes_and_deletes_corrupt_ones() {
    let id = TileId::new(13, 4216, 2668);
    let attempt = DownloadAttempt::new(id, 3);
    let bytes = tiny_png();
    match attempt.on_cache_probe(Some(bytes.clone())) {
        CacheStep::UseCached { bytes: got } => assert_eq!(got, bytes),
        _ => panic!("well-formed cached bytes must be used"),
    }
    assert!(matches!(attempt.on_cache_probe(Some(vec![1u8, 2, 3])), CacheStep::DeleteCorrupt));
    assert!(matches!(attempt.on_cache_probe(None), CacheStep::Fetch));
}

#[test]
fn loader_bookkeeping_bounds_concurrency() {
    let mut loader = TileLoader::new();
    let mut ids: Vec<TileId> = Vec::new();
    for i in 0..12u32 {
        ids.push(TileId::new(10, i, 0));
    }
    loader.queue_tiles(&ids);
    assert_eq!(loader.queued_download_count(), 12);
    let batch = loader.start_downloads();
    assert_eq!(batch.len(), MAX_CONCURRENT_LOADS);
    assert_eq!(loader.active_download_count(), MAX_CONCURRENT_LOADS);
    assert_eq!(loader.queued_download_count(), 4);
    // tiles stay pending while queued or in flight
    assert!(loader.is_pending(&ids[0]));
    assert!(loader.is_pending(&ids[11]));
    loader.complete_download(&batch[0]);
    assert_eq!(loader.active_download_count(), MAX_CONCURRENT_LOADS - 1);
    assert!(!loader.is_pending(&batch[0]));
}

#[test]
fn queueing_a_pending_tile_is_a_no_op() {
    let mut loader = TileLoader::new();
    let a = TileId::new(10, 1, 1);
    loader.queue_tile(a);
    loader.queue_tile(a);
    assert_eq!(loader.queued_download_count(), 1);
    loader.clear_queue();
    assert_eq!(loader.queued_download_count(), 0);
}

#[test]
fn tile_urls_follow_the_slippy_map_convention() {
    let mut loader = TileLoader::new();
    let id = TileId::new(13, 4216, 2668);
    assert_eq!(loader.tile_url(&id), "https://tile.openstreetmap.org/13/4216/2668.png");
    loader.set_tile_server(String::from("https://tiles.example.org"));
    assert_eq!(loader.tile_url(&id), "https://tiles.example.org/13/4216/2668.png");
}

#[test]
fn osm_tile_urls_and_cache_paths_are_deterministic() {
    let t = OSMTile::new(4216, 2668, 13);
    assert_eq!(t.get_url(), "https://a.tile.openstreetmap.org/13/4216/2668.png");
    assert_eq!(t.get_cache_path(), "tile_cache/13/4216/2668.png");
    let origin = OSMTile::new(0, 0, 0);
    assert_eq!(origin.get_url(), "https://a.tile.openstreetmap.org/0/0/0.png");
}

#[test]
fn decimal_formatting_matches_std() {
    for n in [0u32, 1, 9, 10, 99, 100, 4216, 65535, u32::MAX] {
        assert_eq!(u32_to_string(n), n.to_string());
    }
}
