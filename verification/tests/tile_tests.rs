//! Tests for tile addressing and the quadtree visibility pass.

use tile_pyramid::types::{TileId, calculate_base_zoom_level, is_same_area, max_tile_index, pow2_u64};
use tile_pyramid::types::{
    zoom_level_from_camera_height, DEFAULT_ZOOM_LEVEL, GRONINGEN_X, GRONINGEN_Y, MAX_TILE_INDEX,
};
use tile_pyramid::quadtree::{TileQuadtree, TileView, tile_intersects_view};

#[test]
fn tile_children_are_the_four_subcells() {
    let t = TileId::new(3, 2, 5);
    let c = t.children();
    assert_eq!(c.len(), 4);
    assert!(c.contains(&TileId::new(4, 4, 10)));
    assert!(c.contains(&TileId::new(4, 5, 10)));
    assert!(c.contains(&TileId::new(4, 4, 11)));
    assert!(c.contains(&TileId::new(4, 5, 11)));
}

#[test]
fn adjacent_tiles_in_the_interior_are_eight() {
    let t = TileId::new(13, 4216, 2668);
    let adj = t.get_adjacent_tiles();
    assert_eq!(adj.len(), 8);
    for a in &adj {
        assert_eq!(a.zoom, 13);
        assert!(a.x >= 4215 && a.x <= 4217);
        assert!(a.y >= 2667 && a.y <= 2669);
        assert!(!(a.x == 4216 && a.y == 2668));
    }
}

#[test]
fn adjacent_tiles_wrap_in_x_and_clamp_in_y() {
    // north-west corner of the world at zoom 2: x wraps, y rows above do not exist
    let t = TileId::new(2, 0, 0);
    let adj = t.get_adjacent_tiles();
    assert_eq!(adj.len(), 5);
    assert!(adj.contains(&TileId::new(2, 3, 0)));
    assert!(adj.contains(&TileId::new(2, 3, 1)));
    assert!(adj.contains(&TileId::new(2, 1, 0)));
    assert!(adj.contains(&TileId::new(2, 1, 1)));
    assert!(adj.contains(&TileId::new(2, 0, 1)));
}

#[test]
fn same_area_detects_ancestry_both_ways() {
    // (4216,2668,13)'s child at zoom 14 is (8432,5336)
    assert!(is_same_area(4216, 2668, 13, 8432, 5336, 14));
    assert!(is_same_area(8432, 5336, 14, 4216, 2668, 13));
    assert!(is_same_area(4216, 2668, 13, 4216, 2668, 13));
    assert!(!is_same_area(4216, 2668, 13, 4217, 2668, 13));
    assert!(!is_same_area(4216, 2668, 13, 8434, 5336, 14));
}

#[test]
fn max_tile_index_is_grid_size_minus_one() {
    assert_eq!(max_tile_index(0), 0);
    assert_eq!(max_tile_index(1), 1);
    assert_eq!(max_tile_index(13), 8191);
    assert_eq!(max_tile_index(19), 524287);
    assert_eq!(pow2_u64(13), 8192);
}

#[test]
fn base_zoom_tracks_camera_height() {
    assert_eq!(calculate_base_zoom_level(0), 19);
    assert_eq!(calculate_base_zoom_level(1), 19);
    assert_eq!(calculate_base_zoom_level(2), 18);
    assert_eq!(calculate_base_zoom_level(60), 13);
    assert_eq!(calculate_base_zoom_level(100000), 2);
    assert_eq!(calculate_base_zoom_level(1000000), 1);
}

#[test]
fn quadtree_visible_tiles_cover_the_view_at_target_zoom() {
    let mut q = TileQuadtree::new(19);
    let view = TileView::new(13, 4216, 2668, 1, 1);
    q.update(view);
    assert_eq!(q.current_zoom(), 13);
    let visible = q.get_visible_tiles();
    assert!(visible.contains(&TileId::new(13, 4216, 2668)));
    // every visible tile overlaps the view
    for t in &visible {
        assert!(t.zoom <= 13);
        assert!(tile_intersects_view(t, &view));
    }
}

#[test]
fn visible_tiles_have_no_parent_and_child_double_coverage() {
    let mut q = TileQuadtree::new(19);
    let view = TileView::new(13, 4216, 2668, 2, 2);
    q.update(view);
    let visible = q.get_visible_tiles();
    for i in 0..visible.len() {
        for j in 0..visible.len() {
            if i != j {
                let a = visible[i];
                let b = visible[j];
                assert!(!is_same_area(a.x, a.y, a.zoom as u32, b.x, b.y, b.zoom as u32));
            }
        }
    }
}

#[test]
fn tiles_to_load_include_center_and_ring_but_not_children() {
    // view at zoom 13 centered on tile (4216,2668)
    let mut q = TileQuadtree::new(19);
    let view = TileView::new(13, 4216, 2668, 1, 1);
    q.update(view);
    let to_load = q.get_tiles_to_load();
    // the center tile and its 8 neighbors at zoom 13 must all be included
    assert!(to_load.contains(&TileId::new(13, 4216, 2668)));
    for dx in -1i64..=1 {
        for dy in -1i64..=1 {
            let n = TileId::new(13, (4216 + dx) as u32, (2668 + dy) as u32);
            assert!(to_load.contains(&n), "missing neighbor {:?}", n);
        }
    }
    // the child of the center tile at zoom 14 must not be included: the
    // target zoom for this view is 13, not 14 or deeper
    assert!(!to_load.contains(&TileId::new(14, 8432, 5336)));
}

#[test]
fn quadtree_merges_out_of_view_branches() {
    let mut q = TileQuadtree::new(19);
    q.update(TileView::new(10, 100, 100, 1, 1));
    let first = q.get_visible_tiles();
    assert!(!first.is_empty());
    // move the view far away; the old detail must not be visible any more
    q.update(TileView::new(10, 900, 900, 1, 1));
    let second = q.get_visible_tiles();
    for t in &second {
        assert!(tile_intersects_view(t, &TileView::new(10, 900, 900, 1, 1)));
    }
    assert!(!second.contains(&TileId::new(10, 100, 100)));
}

#[test]
fn should_load_tile_respects_max_zoom() {
    let q = TileQuadtree::new(15);
    assert!(q.should_load_tile(TileId::new(15, 0, 0)));
    assert!(q.should_load_tile(TileId::new(3, 1, 1)));
    assert!(!q.should_load_tile(TileId::new(16, 0, 0)));
}

#[test]
fn insert_tile_marks_the_address_loaded() {
    let mut q = TileQuadtree::new(19);
    q.insert_tile(TileId::new(3, 5, 2), 77, 1024);
    q.insert_failed_tile(TileId::new(3, 5, 3), 78);
    let mut loaded: Vec<TileId> = Vec::new();
    loaded.push(TileId::new(3, 5, 2));
    q.update_loaded_state(&loaded);
}

#[test]
fn world_constants_are_consistent() {
    assert_eq!(MAX_TILE_INDEX, max_tile_index(19));
    assert_eq!(DEFAULT_ZOOM_LEVEL, 13);
    assert!(GRONINGEN_X <= max_tile_index(DEFAULT_ZOOM_LEVEL as u32));
    assert!(GRONINGEN_Y <= max_tile_index(DEFAULT_ZOOM_LEVEL as u32));
    assert_eq!(zoom_level_from_camera_height(1), 19);
    assert_eq!(zoom_level_from_camera_height(50), 14);
    assert_eq!(zoom_level_from_camera_height(60), 13);
    assert_eq!(zoom_level_from_camera_height(300_000), 1);
}
