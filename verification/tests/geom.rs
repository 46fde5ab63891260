use tilekit::geom::{
    even_q_to_hex, hex_line, hex_ring, hex_spiral, AxialHex, Cell, HexLayout, IsoLayout,
    SquareLayout, StaggeredLayout, Tile,
};

#[test]
fn square_round_trips_every_tile() {
    for layout in [SquareLayout::fine(), SquareLayout::medium(), SquareLayout::chunky()] {
        for col in -5..5 {
            for row in -5..5 {
                let tile = Tile::new(col, row);
                let cell = layout.tile_to_cell(tile);
                assert_eq!(layout.cell_to_tile(cell), tile, "{layout:?} {tile:?}");
            }
        }
    }
}

#[test]
fn square_maps_every_cell_of_a_tile_back_to_it() {
    let layout = SquareLayout::chunky();
    let tile = Tile::new(2, -3);
    let origin = layout.tile_to_cell(tile);
    for dy in 0..layout.h {
        for dx in 0..layout.w {
            let cell = origin.offset(dx, dy);
            assert_eq!(layout.cell_to_tile(cell), tile, "at ({dx}, {dy})");
            assert_eq!(layout.cell_within(cell), (dx, dy));
        }
    }
}

#[test]
fn square_handles_negative_cells_without_folding_rows() {
    let layout = SquareLayout::new(8, 4);
    assert_eq!(layout.cell_to_tile(Cell::new(-1, -1)), Tile::new(-1, -1));
    assert_eq!(layout.cell_to_tile(Cell::new(-8, -4)), Tile::new(-1, -1));
    assert_eq!(layout.cell_to_tile(Cell::new(-9, -5)), Tile::new(-2, -2));
}

#[test]
fn iso_round_trips_tile_centers() {
    for layout in [IsoLayout::small(), IsoLayout::standard(), IsoLayout::large()] {
        for col in -6..6 {
            for row in -6..6 {
                let tile = Tile::new(col, row);
                let cell = layout.tile_to_cell(tile);
                assert_eq!(layout.cell_to_tile(cell), tile, "{layout:?} {tile:?}");
            }
        }
    }
}

#[test]
fn iso_depth_orders_back_to_front() {
    assert!(IsoLayout::depth(Tile::new(0, 0)) < IsoLayout::depth(Tile::new(1, 0)));
    assert!(IsoLayout::depth(Tile::new(1, 0)) < IsoLayout::depth(Tile::new(1, 1)));
    assert_eq!(IsoLayout::depth(Tile::new(2, 0)), IsoLayout::depth(Tile::new(0, 2)));
}

#[test]
fn iso_neighbors_land_where_the_projection_says() {
    let layout = IsoLayout::standard();
    let origin = layout.tile_to_cell(Tile::new(0, 0));
    let east = layout.tile_to_cell(Tile::new(1, 0));
    assert_eq!(east.x - origin.x, layout.half_w);
    assert_eq!(east.y - origin.y, layout.half_h);
    let south = layout.tile_to_cell(Tile::new(0, 1));
    assert_eq!(south.x - origin.x, -layout.half_w);
    assert_eq!(south.y - origin.y, layout.half_h);
}

#[test]
fn iso_elevation_only_moves_tiles_up() {
    let layout = IsoLayout::standard();
    let flat = layout.tile_to_cell(Tile::new(3, 4));
    let high = layout.tile_to_cell_elevated(Tile::new(3, 4), 5, 2);
    assert_eq!(high.x, flat.x);
    assert_eq!(high.y, flat.y - 10);
}

#[test]
fn iso_diamond_tapers_to_its_points() {
    for layout in [IsoLayout::small(), IsoLayout::standard(), IsoLayout::large()] {
        assert_eq!(layout.span_at(0), Some(layout.half_w), "widest at center");
        assert_eq!(layout.span_at(layout.half_h), Some(0), "one cell at the tip");
        assert_eq!(layout.span_at(layout.half_h + 1), None, "past the tip");
        for dy in 0..=layout.half_h {
            assert_eq!(layout.span_at(dy), layout.span_at(-dy));
            if dy > 0 {
                assert!(layout.span_at(dy) < layout.span_at(dy - 1), "dy {dy}");
            }
        }
    }
}

#[test]
fn iso_contains_agrees_with_span() {
    let layout = IsoLayout::large();
    assert!(layout.contains(0, 0));
    assert!(layout.contains(layout.half_w, 0));
    assert!(!layout.contains(layout.half_w + 1, 0));
    assert!(layout.contains(0, layout.half_h), "the tip cell is inside");
    assert!(!layout.contains(1, layout.half_h), "but only the tip cell");
    assert!(!layout.contains(0, layout.half_h + 1));
}

#[test]
fn iso_diamonds_tile_the_plane_without_gaps_or_overlap() {
    let layout = IsoLayout::standard();
    for y in -6..6 {
        for x in -12..12 {
            let cell = Cell::new(x, y);
            let tile = layout.cell_to_tile(cell);
            let center = layout.tile_to_cell(tile);
            let (dx, dy) = (cell.x - center.x, cell.y - center.y);
            assert!(
                dx.abs() <= layout.half_w && dy.abs() <= layout.half_h,
                "cell {cell:?} resolved to distant tile {tile:?}"
            );
        }
    }
}

#[test]
fn staggered_round_trips_and_shifts_odd_rows() {
    let layout = StaggeredLayout::standard();
    for col in -4..4 {
        for row in -4..4 {
            let tile = Tile::new(col, row);
            assert_eq!(layout.cell_to_tile(layout.tile_to_cell(tile)), tile);
        }
    }
    assert_eq!(layout.stagger(0), 0);
    assert_eq!(layout.stagger(1), layout.w / 2);
    assert_eq!(layout.stagger(-1), layout.w / 2, "parity holds below zero");
    assert_eq!(layout.stagger(2), 0);
}

#[test]
fn hex_round_trips_offset_and_axial() {
    for layout in [HexLayout::pointy(), HexLayout::flat(), HexLayout::pointy_large()] {
        for col in -6..6 {
            for row in -6..6 {
                let tile = Tile::new(col, row);
                let back = layout.from_hex(layout.to_hex(tile));
                assert_eq!(back, tile, "{layout:?} {tile:?}");
            }
        }
    }
}

#[test]
fn hex_picking_finds_the_tile_under_its_own_center() {
    for layout in [HexLayout::pointy(), HexLayout::flat(), HexLayout::pointy_large()] {
        for col in -4..4 {
            for row in -4..4 {
                let tile = Tile::new(col, row);
                let center = layout.center_cell(tile);
                assert_eq!(layout.cell_to_tile(center), tile, "{layout:?} {tile:?}");
            }
        }
    }
}

#[test]
fn hex_picking_is_stable_near_centers() {
    let layout = HexLayout::pointy_large();
    let tile = Tile::new(2, 3);
    let center = layout.center_cell(tile);
    for dy in -1..=1 {
        for dx in -2..=2 {
            let probe = center.offset(dx, dy);
            assert_eq!(layout.cell_to_tile(probe), tile, "offset ({dx}, {dy})");
        }
    }
}

#[test]
fn hex_neighbors_are_all_distance_one() {
    for layout in [HexLayout::pointy(), HexLayout::flat()] {
        let tile = Tile::new(3, 4);
        let neighbors = layout.neighbors(tile);
        for n in neighbors {
            assert_eq!(layout.distance(tile, n), 1, "{layout:?} {n:?}");
        }
        let mut sorted = neighbors;
        sorted.sort_unstable();
        for pair in sorted.windows(2) {
            assert_ne!(pair[0], pair[1], "duplicate neighbour");
        }
        assert!(!neighbors.contains(&tile));
    }
}

#[test]
fn hex_distance_is_a_metric() {
    let layout = HexLayout::pointy();
    let (a, b, c) = (Tile::new(0, 0), Tile::new(3, -2), Tile::new(-1, 4));
    assert_eq!(layout.distance(a, a), 0);
    assert_eq!(layout.distance(a, b), layout.distance(b, a));
    assert!(layout.distance(a, c) <= layout.distance(a, b) + layout.distance(b, c));
}

#[test]
fn hex_ring_has_the_right_size_and_distance() {
    let layout = HexLayout::pointy();
    let center = Tile::new(2, 2);
    assert_eq!(hex_ring(layout, center, 0), vec![center]);
    assert!(hex_ring(layout, center, -1).is_empty());
    for radius in 1..5 {
        let ring = hex_ring(layout, center, radius);
        assert_eq!(ring.len(), 6 * radius as usize, "radius {radius}");
        for tile in ring {
            assert_eq!(layout.distance(center, tile), radius);
        }
    }
}

#[test]
fn hex_spiral_covers_every_hex_in_range_exactly_once() {
    let layout = HexLayout::pointy();
    let center = Tile::new(0, 0);
    let spiral = hex_spiral(layout, center, 3);
    assert_eq!(spiral.len(), 37);
    let mut sorted = spiral.clone();
    sorted.sort_unstable();
    sorted.dedup();
    assert_eq!(sorted.len(), spiral.len(), "spiral repeated a hex");
    assert!(spiral.iter().all(|&t| layout.distance(center, t) <= 3));
}

#[test]
fn hex_line_is_contiguous_in_every_direction() {
    for layout in [HexLayout::pointy(), HexLayout::flat()] {
        for col in -5..=5 {
            for row in -5..=5 {
                let (a, b) = (Tile::new(0, 0), Tile::new(col, row));
                let line = hex_line(layout, a, b);
                for pair in line.windows(2) {
                    assert_eq!(
                        layout.distance(pair[0], pair[1]),
                        1,
                        "{layout:?}: line to {b:?} jumps {:?} -> {:?}",
                        pair[0],
                        pair[1]
                    );
                }
            }
        }
    }
}

#[test]
fn hex_line_has_exactly_distance_plus_one_distinct_steps() {
    let layout = HexLayout::pointy();
    for col in -5..=5 {
        for row in -5..=5 {
            let (a, b) = (Tile::new(0, 0), Tile::new(col, row));
            let line = hex_line(layout, a, b);
            let expected = layout.distance(a, b) as usize + 1;
            assert_eq!(line.len(), expected, "line to {b:?}");

            let mut sorted = line.clone();
            sorted.sort_unstable();
            sorted.dedup();
            assert_eq!(sorted.len(), line.len(), "line to {b:?} repeats a hex");
        }
    }
}

#[test]
fn hex_line_starts_and_ends_where_asked() {
    let layout = HexLayout::pointy();
    let (a, b) = (Tile::new(2, -3), Tile::new(-4, 5));
    let line = hex_line(layout, a, b);
    assert_eq!(line.first(), Some(&a));
    assert_eq!(line.last(), Some(&b));
    assert_eq!(hex_line(layout, a, a), vec![a]);
}

#[test]
fn hex_line_passes_through_every_intervening_ring() {
    let layout = HexLayout::pointy();
    let center = Tile::new(0, 0);
    for col in -4..=4 {
        for row in -4..=4 {
            let target = Tile::new(col, row);
            let line = hex_line(layout, center, target);
            for radius in 1..layout.distance(center, target) {
                assert!(
                    line.iter().any(|&t| layout.distance(center, t) == radius),
                    "line to {target:?} skips ring {radius}"
                );
            }
        }
    }
}

#[test]
fn even_q_differs_from_odd_q_on_odd_columns() {
    let odd_layout = HexLayout::flat();
    assert_eq!(even_q_to_hex(Tile::new(2, 3)), odd_layout.to_hex(Tile::new(2, 3)));
    assert_ne!(even_q_to_hex(Tile::new(1, 3)), odd_layout.to_hex(Tile::new(1, 3)));
}

#[test]
fn pointy_and_flat_stagger_different_axes() {
    assert_eq!(HexLayout::pointy().stagger(Tile::new(0, 1)).1, 0);
    assert!(HexLayout::pointy().stagger(Tile::new(0, 1)).0 > 0);
    assert_eq!(HexLayout::flat().stagger(Tile::new(1, 0)).0, 0);
    assert!(HexLayout::flat().stagger(Tile::new(1, 0)).1 > 0);
}

#[test]
fn offset_conversions_follow_the_odd_r_and_odd_q_formulas() {
    assert_eq!(HexLayout::pointy().to_hex(Tile::new(2, 3)), AxialHex::new(1, 3));
    assert_eq!(HexLayout::pointy().to_hex(Tile::new(2, -3)), AxialHex::new(4, -3));
    assert_eq!(HexLayout::flat().to_hex(Tile::new(3, 2)), AxialHex::new(3, 1));
    assert_eq!(even_q_to_hex(Tile::new(3, 2)), AxialHex::new(3, 0));
    assert_eq!(HexLayout::pointy().from_hex(AxialHex::new(1, 3)), Tile::new(2, 3));
}

#[test]
fn hex_ring_starts_at_the_south_west_corner() {
    let layout = HexLayout::pointy();
    let ring = hex_ring(layout, Tile::new(0, 0), 1);
    assert_eq!(layout.to_hex(ring[0]), AxialHex::new(-1, 1));
    assert_eq!(layout.to_hex(ring[1]), AxialHex::new(0, 1));
    assert_eq!(layout.to_hex(ring[5]), AxialHex::new(-1, 0));
}

#[test]
fn a_line_along_the_diagonal_commits_to_one_side() {
    let layout = HexLayout::pointy();
    let a = layout.from_hex(AxialHex::new(0, 0));
    let b = layout.from_hex(AxialHex::new(2, 2));
    let line: Vec<AxialHex> = hex_line(layout, a, b).into_iter().map(|t| layout.to_hex(t)).collect();
    assert_eq!(
        line,
        vec![
            AxialHex::new(0, 0),
            AxialHex::new(1, 0),
            AxialHex::new(1, 1),
            AxialHex::new(2, 1),
            AxialHex::new(2, 2)
        ]
    );
}

#[test]
fn iso_picks_the_diamond_that_contains_the_cell() {
    let layout = IsoLayout::standard();
    assert!(layout.contains(1, 0) && layout.contains(-1, 0));
    assert_eq!(layout.cell_to_tile(Cell::new(0, 0)), Tile::new(0, 0));
    assert_eq!(layout.cell_to_tile(Cell::new(1, 0)), Tile::new(0, 0));
    assert_eq!(layout.cell_to_tile(Cell::new(-1, 0)), Tile::new(0, 0));
    // One row below the centre of (0, 0) and inside the diamond of (1, 1).
    let large = IsoLayout::large();
    assert_eq!(large.cell_to_tile(Cell::new(0, 3)), Tile::new(1, 1));
    // Every cell strictly inside a diamond picks that diamond's tile.
    for (c, r) in [(0, 0), (2, -3), (-4, 1)] {
        let centre = layout.tile_to_cell(Tile::new(c, r));
        for dy in -1..=1 {
            for dx in -4..=4 {
                let dx_abs: i32 = if dx < 0 { -dx } else { dx };
                let dy_abs: i32 = if dy < 0 { -dy } else { dy };
                if dx_abs + 4 * dy_abs < 4 {
                    let cell = Cell::new(centre.x + dx, centre.y + dy);
                    assert_eq!(layout.cell_to_tile(cell), Tile::new(c, r), "({dx}, {dy})");
                }
            }
        }
    }
}

#[test]
fn iso_every_cell_lies_in_the_diamond_it_picks() {
    for layout in [IsoLayout::small(), IsoLayout::standard(), IsoLayout::large()] {
        for y in -9..9 {
            for x in -20..20 {
                let t = layout.cell_to_tile(Cell::new(x, y));
                let c = layout.tile_to_cell(t);
                assert!(layout.contains(x - c.x, y - c.y), "{layout:?} ({x}, {y}) -> {t:?}");
            }
        }
    }
}

#[test]
fn axial_s_completes_the_cube() {
    let h = AxialHex::new(2, -5);
    assert_eq!(h.q + h.r + h.s(), 0);
}
