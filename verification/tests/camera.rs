use tilekit::camera::TileCamera;
use tilekit::geom::Cell;

#[test]
fn a_new_camera_starts_at_the_origin() {
    let cam = TileCamera::new(40, 20, 200, 100);
    assert_eq!(cam.origin(), Cell::new(0, 0));
    assert_eq!(cam.viewport(), (40, 20));
    assert_eq!(cam.visible_cells(), (0, 0, 39, 19));
}

#[test]
fn panning_clamps_to_the_map_edges() {
    let mut cam = TileCamera::new(40, 20, 200, 100);
    cam.pan(-50, -50);
    assert_eq!(cam.origin(), Cell::new(0, 0), "clamped at the near edge");
    cam.pan(1000, 1000);
    assert_eq!(cam.origin(), Cell::new(160, 80), "clamped at the far edge, leaving a full viewport of map");
}

#[test]
fn an_unbounded_camera_never_clamps() {
    let mut cam = TileCamera::unbounded(40, 20);
    cam.pan(-500, -500);
    assert_eq!(cam.origin(), Cell::new(-500, -500));
    cam.pan(9000, 9000);
    assert_eq!(cam.origin(), Cell::new(8500, 8500));
}

#[test]
fn centering_puts_the_target_in_the_middle() {
    let mut cam = TileCamera::new(40, 20, 400, 200);
    cam.center_on(Cell::new(200, 100));
    assert_eq!(cam.origin(), Cell::new(180, 90));
    let screen = cam.world_to_screen(Cell::new(200, 100));
    assert_eq!(screen, Cell::new(20, 10), "target lands mid-viewport");
}

#[test]
fn centering_near_an_edge_still_clamps() {
    let mut cam = TileCamera::new(40, 20, 200, 100);
    cam.center_on(Cell::new(0, 0));
    assert_eq!(cam.origin(), Cell::new(0, 0));
    cam.center_on(Cell::new(199, 99));
    assert_eq!(cam.origin(), Cell::new(160, 80));
}

#[test]
fn a_viewport_larger_than_the_map_centers_the_map() {
    let mut cam = TileCamera::new(100, 50, 40, 20);
    cam.pan(0, 0);
    assert_eq!(cam.origin(), Cell::new(-30, -15));
    let (left, top, right, bottom) = cam.visible_cells();
    assert_eq!(left.midpoint(right), 19, "map is horizontally centered");
    assert_eq!(top.midpoint(bottom), 9, "map is vertically centered");
}

#[test]
fn screen_and_world_conversions_round_trip() {
    let mut cam = TileCamera::new(40, 20, 400, 200);
    cam.center_on(Cell::new(123, 77));
    for (x, y) in [(0, 0), (39, 19), (-5, -5), (100, 100)] {
        let cell = Cell::new(x, y);
        assert_eq!(cam.world_to_screen(cam.screen_to_world(cell)), cell);
        assert_eq!(cam.screen_to_world(cam.world_to_screen(cell)), cell);
    }
}

#[test]
fn on_screen_bounds_the_viewport_exactly() {
    let cam = TileCamera::new(40, 20, 400, 200);
    assert!(cam.on_screen(Cell::new(0, 0)));
    assert!(cam.on_screen(Cell::new(39, 19)));
    assert!(!cam.on_screen(Cell::new(40, 19)), "one past the right edge");
    assert!(!cam.on_screen(Cell::new(39, 20)), "one past the bottom");
    assert!(!cam.on_screen(Cell::new(-1, 0)));
}

#[test]
fn resizing_the_viewport_reclamps_the_origin() {
    let mut cam = TileCamera::new(40, 20, 200, 100);
    cam.pan(1000, 1000);
    assert_eq!(cam.origin(), Cell::new(160, 80));
    cam.set_viewport(80, 40);
    assert_eq!(cam.origin(), Cell::new(120, 60), "shrunk back into bounds");
}

#[test]
fn changing_the_world_reclamps_the_origin() {
    let mut cam = TileCamera::new(40, 20, 400, 200);
    cam.pan(300, 150);
    assert_eq!(cam.origin(), Cell::new(300, 150));
    cam.set_world(200, 100);
    assert_eq!(cam.origin(), Cell::new(160, 80));
}

#[test]
fn degenerate_sizes_do_not_produce_a_zero_viewport() {
    let cam = TileCamera::new(0, -5, 100, 100);
    assert_eq!(cam.viewport(), (1, 1), "viewport is never empty");
}

#[test]
fn visible_tiles_covers_the_viewport_with_a_margin() {
    let mut cam = TileCamera::unbounded(40, 20);
    cam.pan(100, 50);
    let (c0, r0, c1, r1) = cam.visible_tiles(8, 4);
    assert!(c0 < 12, "left margin missing (got {c0})");
    assert!(c1 > 17, "right margin missing (got {c1})");
    assert!(r0 < 12, "top margin missing (got {r0})");
    assert!(r1 > 17, "bottom margin missing (got {r1})");
}

#[test]
fn visible_tiles_covers_every_tile_that_touches_the_viewport() {
    let mut cam = TileCamera::unbounded(37, 17);
    for (px, py) in [(0, 0), (3, 1), (-11, -7), (129, 63)] {
        cam.pan(px, py);
        let (c0, r0, c1, r1) = cam.visible_tiles(8, 4);
        let (ox, oy) = (cam.origin().x, cam.origin().y);
        for y in oy..oy + 17 {
            for x in ox..ox + 37 {
                let (col, row) = (x.div_euclid(8), y.div_euclid(4));
                assert!(
                    (c0..c1).contains(&col) && (r0..r1).contains(&row),
                    "tile ({col}, {row}) for cell ({x}, {y}) is outside {:?}",
                    (c0, r0, c1, r1)
                );
            }
        }
        cam.pan(-px, -py);
    }
}

#[test]
fn visible_tiles_rejects_a_degenerate_tile_size() {
    let cam = TileCamera::unbounded(40, 20);
    assert_eq!(cam.visible_tiles(0, 4), (0, 0, 0, 0));
    assert_eq!(cam.visible_tiles(8, -1), (0, 0, 0, 0));
}

#[test]
fn visible_tiles_pads_one_tile_before_and_two_past_the_far_edge() {
    let mut cam = TileCamera::unbounded(40, 20);
    cam.pan(100, 50);
    assert_eq!(cam.visible_tiles(8, 4), (11, 11, 19, 19));
}

#[test]
fn a_shrinking_world_recenters_an_oversized_viewport() {
    let mut cam = TileCamera::new(40, 20, 400, 200);
    cam.set_world(10, 10);
    assert_eq!(cam.origin(), Cell::new(-15, -5));
}
