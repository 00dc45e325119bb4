//! Tests for the in-memory tile cache and image validation.

use tile_pyramid::cache::TileCache;
use tile_pyramid::types::{TileId, TileError, calculate_image_dimensions};

/// A small well-formed PNG, built with the same codec the library decodes
/// with.
fn tiny_png() -> Vec<u8> {
    let img = image::RgbaImage::from_pixel(2, 3, image::Rgba([10, 20, 30, 255]));
    let mut bytes: Vec<u8> = Vec::new();
    let mut cursor = std::io::Cursor::new(&mut bytes);
    image::DynamicImage::ImageRgba8(img)
        .write_to(&mut cursor, image::ImageFormat::Png)
        .unwrap();
    bytes
}

#[test]
fn image_dimensions_of_a_real_png() {
    let bytes = tiny_png();
    assert_eq!(calculate_image_dimensions(&bytes), Some((2, 3)));
}

#[test]
fn image_dimensions_of_garbage_is_none() {
    let bytes = vec![1u8, 2, 3, 4, 5, 6, 7, 8];
    assert_eq!(calculate_image_dimensions(&bytes), None);
}

#[test]
fn insert_then_get_round_trips_byte_identical() {
    let mut cache = TileCache::new();
    let id = TileId::new(5, 10, 11);
    let bytes = tiny_png();
    let r = cache.insert(id, bytes.clone(), 42);
    assert!(r.is_ok());
    let got = cache.get(&id).expect("tile must be cached");
    assert_eq!(got, &bytes);
    assert!(cache.contains(&id));
    assert_eq!(cache.len(), 1);
}

#[test]
fn insert_rejects_malformed_payloads() {
    let mut cache = TileCache::new();
    let id = TileId::new(5, 10, 11);
    let r = cache.insert(id, vec![0u8, 1, 2, 3], 42);
    assert!(matches!(r, Err(TileError::LoadError(_))));
    assert!(!cache.contains(&id));
    assert!(cache.is_empty());
}

#[test]
fn insert_replaces_an_existing_entry() {
    let mut cache = TileCache::new();
    let id = TileId::new(5, 10, 11);
    let first = tiny_png();
    let second = {
        let img = image::RgbaImage::from_pixel(4, 4, image::Rgba([1, 2, 3, 255]));
        let mut bytes: Vec<u8> = Vec::new();
        let mut cursor = std::io::Cursor::new(&mut bytes);
        image::DynamicImage::ImageRgba8(img)
            .write_to(&mut cursor, image::ImageFormat::Png)
            .unwrap();
        bytes
    };
    cache.insert(id, first, 1).unwrap();
    cache.insert(id, second.clone(), 2).unwrap();
    assert_eq!(cache.len(), 1);
    assert_eq!(cache.get(&id).unwrap(), &second);
}

#[test]
fn remove_of_an_absent_address_is_a_no_op() {
    let mut cache = TileCache::new();
    let id = TileId::new(5, 10, 11);
    assert!(cache.remove(&id).is_none());
    let bytes = tiny_png();
    cache.insert(id, bytes.clone(), 1).unwrap();
    assert_eq!(cache.remove(&id), Some(bytes));
    // evicting again: still a no-op, not an error
    assert!(cache.remove(&id).is_none());
    assert!(cache.is_empty());
}

#[test]
fn loading_bookkeeping_marks_and_clears() {
    let mut cache = TileCache::new();
    let id = TileId::new(7, 1, 2);
    assert!(!cache.is_loading(&id));
    cache.mark_downloading(id);
    assert!(cache.is_loading(&id));
    cache.mark_loading(id);
    assert!(cache.is_loading(&id));
    // a successful insert clears the loading mark
    cache.insert(id, tiny_png(), 5).unwrap();
    assert!(!cache.is_loading(&id));
}

#[test]
fn update_access_time_ignores_unknown_addresses() {
    let mut cache = TileCache::new();
    let id = TileId::new(7, 1, 2);
    cache.update_access_time(&id, 99);
    assert!(cache.is_empty());
    cache.insert(id, tiny_png(), 5).unwrap();
    cache.update_access_time(&id, 99);
    assert!(cache.contains(&id));
}

#[test]
fn clear_empties_everything() {
    let mut cache = TileCache::new();
    cache.insert(TileId::new(3, 0, 0), tiny_png(), 1).unwrap();
    cache.mark_downloading(TileId::new(3, 1, 1));
    cache.clear();
    assert!(cache.is_empty());
    assert!(!cache.is_loading(&TileId::new(3, 1, 1)));
}
