use std::collections::HashSet;

use tilekit::fov::{hex_fov, shadowcast, FogMap, Visibility};
use tilekit::geom::{hex_ring, HexLayout, Tile};

/// Runs shadowcasting over a small ASCII map and returns the visible set.
/// `#` blocks, `@` is the origin.
fn cast_map(map: &[&str], radius: i32) -> HashSet<(i32, i32)> {
    let grid: Vec<Vec<char>> = map.iter().map(|r| r.chars().collect()).collect();
    let mut origin = (0, 0);
    for (y, row) in grid.iter().enumerate() {
        for (x, &c) in row.iter().enumerate() {
            if c == '@' {
                origin = (x as i32, y as i32);
            }
        }
    }
    let blocks = |x: i32, y: i32| {
        grid.get(y as usize)
            .and_then(|r| r.get(x as usize))
            .is_none_or(|&c| c == '#')
    };
    shadowcast(origin.0, origin.1, radius, blocks).into_iter().collect()
}

#[test]
fn visibility_states_are_ordered_by_how_much_they_reveal() {
    assert!(Visibility::Unknown < Visibility::Explored);
    assert!(Visibility::Explored < Visibility::Visible);
    assert!(!Visibility::Unknown.shows_terrain());
    assert!(Visibility::Explored.shows_terrain());
    assert!(Visibility::Visible.shows_terrain());
    assert!(!Visibility::Explored.shows_units(), "memory has no units");
    assert!(Visibility::Visible.shows_units());
}

#[test]
fn revealing_then_ending_the_turn_leaves_a_memory() {
    let mut fog = FogMap::new(4, 4);
    fog.reveal_at(1, 1);
    assert_eq!(fog.get(1, 1), Visibility::Visible);

    fog.begin_turn();
    assert_eq!(fog.get(1, 1), Visibility::Explored, "memory persists");
    assert_eq!(fog.get(2, 2), Visibility::Unknown, "and does not spread");

    for _ in 0..10 {
        fog.begin_turn();
    }
    assert_eq!(fog.get(1, 1), Visibility::Explored);
}

#[test]
fn a_new_fog_map_is_entirely_unknown() {
    let fog = FogMap::new(8, 5);
    assert_eq!(fog.size(), (8, 5));
    for y in 0..5 {
        for x in 0..8 {
            assert_eq!(fog.get(x, y), Visibility::Unknown);
        }
    }
    assert_eq!(fog.explored_count(), 0);
}

#[test]
fn out_of_bounds_access_is_unknown_and_writes_are_dropped() {
    let mut fog = FogMap::new(4, 4);
    for (x, y) in [(-1, 0), (0, -1), (4, 0), (0, 4), (99, 99)] {
        assert!(!fog.in_bounds(x, y));
        assert_eq!(fog.get(x, y), Visibility::Unknown);
        fog.reveal_at(x, y);
        assert_eq!(fog.get(x, y), Visibility::Unknown, "write leaked");
    }
    assert_eq!(fog.explored_count(), 0);
}

#[test]
fn explored_count_tracks_revealed_tiles() {
    let mut fog = FogMap::new(4, 4);
    for x in 0..4 {
        fog.reveal_at(x, 0);
    }
    assert_eq!(fog.explored_count(), 4);
    fog.begin_turn();
    assert_eq!(fog.explored_count(), 4, "explored tiles still count");
    fog.reveal_all();
    assert_eq!(fog.explored_count(), 16);
    fog.reset();
    assert_eq!(fog.explored_count(), 0);
    assert_eq!(FogMap::new(0, 0).explored_count(), 0);
}

#[test]
fn the_origin_is_always_visible_even_at_zero_radius() {
    let seen = shadowcast(3, 4, 0, |_, _| false);
    assert_eq!(seen, vec![(3, 4)]);
}

#[test]
fn open_ground_is_fully_visible_within_the_radius() {
    let seen = cast_map(
        &[".......", ".......", ".......", "...@...", ".......", ".......", "......."],
        3,
    );
    for y in 0..7 {
        for x in 0..7 {
            let (dx, dy) = (x - 3, y - 3);
            if dx * dx + dy * dy <= 9 {
                assert!(seen.contains(&(x, y)), "({x}, {y}) should be visible");
            }
        }
    }
}

#[test]
fn nothing_outside_the_radius_is_ever_visible() {
    let seen = cast_map(&["..........", "....@.....", ".........."], 2);
    for &(x, y) in &seen {
        let (dx, dy) = (x - 4, y - 1);
        assert!(dx * dx + dy * dy <= 8, "({x}, {y}) is beyond the radius");
    }
}

#[test]
fn a_wall_casts_a_shadow_behind_it() {
    let seen = cast_map(&["-------", "...#...", "...@...", "......."], 4);
    assert!(seen.contains(&(3, 1)), "the wall itself is visible");
    assert!(!seen.contains(&(3, 0)), "directly behind the wall is dark");
}

#[test]
fn a_sealed_room_shows_only_its_own_walls() {
    let seen = cast_map(&["#####", "#...#", "#.@.#", "#...#", "#####"], 8);
    for y in 0..5 {
        for x in 0..5 {
            assert!(seen.contains(&(x, y)), "({x}, {y}) inside the room");
        }
    }
    for &(x, y) in &seen {
        assert!(
            (0..5).contains(&x) && (0..5).contains(&y),
            "saw ({x}, {y}) outside the sealed room"
        );
    }
}

#[test]
fn light_passes_through_a_doorway_but_not_the_wall_beside_it() {
    let seen = cast_map(&["#######", "#.....#", "###.###", "...@..."], 6);
    assert!(seen.contains(&(3, 2)), "the doorway is visible");
    assert!(seen.contains(&(3, 1)), "and straight through it");
    assert!(!seen.contains(&(1, 1)), "but not far off-axis through a one-tile gap");
}

#[test]
fn visibility_is_symmetric_across_a_pillar() {
    let seen = cast_map(
        &[".........", ".........", ".........", "....#....", "....@....", "........."],
        4,
    );
    for dx in 1..=3 {
        assert_eq!(
            seen.contains(&(4 - dx, 2)),
            seen.contains(&(4 + dx, 2)),
            "shadow is asymmetric at dx = {dx}"
        );
    }
}

#[test]
fn no_cell_is_reported_twice_in_open_ground() {
    let mut counts = std::collections::HashMap::new();
    for cell in shadowcast(0, 0, 5, |_, _| false) {
        *counts.entry(cell).or_insert(0) += 1;
    }
    let dupes: Vec<_> = counts.iter().filter(|&(_, &n)| n > 1).collect();
    assert!(dupes.is_empty(), "reported twice: {dupes:?}");
}

#[test]
fn hex_fov_sees_everything_on_open_ground() {
    let layout = HexLayout::pointy();
    let center = Tile::new(0, 0);
    let seen = hex_fov(layout, center, 3, |_| false);
    assert_eq!(seen.len(), 37);
    assert!(seen.contains(&center));
}

#[test]
fn hex_fov_at_zero_radius_sees_only_itself() {
    let seen = hex_fov(HexLayout::pointy(), Tile::new(2, 2), 0, |_| false);
    assert_eq!(seen, vec![Tile::new(2, 2)]);
}

#[test]
fn hex_fov_never_looks_past_the_radius() {
    let layout = HexLayout::flat();
    let center = Tile::new(1, 1);
    for tile in hex_fov(layout, center, 4, |_| false) {
        assert!(layout.distance(center, tile) <= 4, "{tile:?} is too far");
    }
}

#[test]
fn a_hex_blocker_hides_what_is_behind_it() {
    let layout = HexLayout::pointy();
    let center = Tile::new(0, 0);
    let neighbors = layout.neighbors(center);
    let wall = neighbors[0];

    let open = hex_fov(layout, center, 3, |_| false);
    let blocked = hex_fov(layout, center, 3, |t| t == wall);

    assert!(blocked.contains(&wall), "the blocker itself stays visible");
    assert!(blocked.len() < open.len(), "the blocker hid nothing");
    for tile in &blocked {
        assert!(layout.distance(center, *tile) <= 3);
    }
}

#[test]
fn a_ring_of_blockers_confines_the_view() {
    let layout = HexLayout::pointy();
    let center = Tile::new(0, 0);
    let wall: Vec<Tile> = hex_ring(layout, center, 1);
    let seen = hex_fov(layout, center, 4, |t| wall.contains(&t));
    assert_eq!(seen.len(), 7, "saw beyond the ring: {seen:?}");
}

#[test]
fn shadowcast_reports_the_origin_first() {
    let seen = shadowcast(10, -4, 3, |_, _| false);
    assert_eq!(seen[0], (10, -4));
    assert!(seen.len() > 1);
}

#[test]
fn no_tile_is_reported_twice_behind_walls() {
    let walls: HashSet<(i32, i32)> = [(-1, -1), (2, 0), (0, 3), (-3, 2), (1, -4), (4, 4), (-2, -5)]
        .into_iter()
        .collect();
    for radius in 1..9 {
        let seen = shadowcast(0, 0, radius, |x, y| walls.contains(&(x, y)));
        let unique: HashSet<(i32, i32)> = seen.iter().copied().collect();
        assert_eq!(unique.len(), seen.len(), "radius {radius}");
        assert_eq!(seen[0], (0, 0));
    }
}

#[test]
fn shadowcast_asks_nothing_at_zero_radius_and_stays_in_its_square() {
    let seen = shadowcast(5, 5, 0, |_, _| panic!("asked at radius 0"));
    assert_eq!(seen, vec![(5, 5)]);
    let seen = shadowcast(5, 5, 3, |x, y| {
        assert!((x - 5).abs() <= 3 && (y - 5).abs() <= 3, "asked about ({x}, {y})");
        x == 6
    });
    assert!(seen.contains(&(6, 5)));
}

#[test]
fn hex_fov_never_asks_about_the_center() {
    let layout = HexLayout::pointy();
    let center = Tile::new(2, 3);
    let seen = hex_fov(layout, center, 3, |t| {
        assert!(t != center, "asked about the center");
        false
    });
    assert_eq!(seen.len(), 37);
}

#[test]
fn mirroring_the_walls_mirrors_what_is_seen() {
    let (ox, oy) = (2, -3);
    let walls: Vec<(i32, i32)> = vec![(3, -3), (1, -1), (4, 0), (0, -6), (5, -5), (2, 1), (-1, -2)];
    let mirrors: [fn(i32, i32) -> (i32, i32); 4] = [
        |x, y| (4 - x, y),
        |x, y| (x, -6 - y),
        |x, y| (2 + (y + 3), -3 + (x - 2)),
        |x, y| (2 - (y + 3), -3 - (x - 2)),
    ];
    for mirror in mirrors {
        let mirrored: Vec<(i32, i32)> = walls.iter().map(|&(x, y)| mirror(x, y)).collect();
        for radius in 1..7 {
            let seen: HashSet<(i32, i32)> =
                shadowcast(ox, oy, radius, |x, y| walls.contains(&(x, y))).into_iter().collect();
            let seen_mirrored: HashSet<(i32, i32)> =
                shadowcast(ox, oy, radius, |x, y| mirrored.contains(&(x, y))).into_iter().collect();
            let expected: HashSet<(i32, i32)> = seen.iter().map(|&(x, y)| mirror(x, y)).collect();
            assert_eq!(seen_mirrored, expected, "radius {radius}");
        }
    }
    // A wall next to the origin on one side shades what the mirrored wall shades on the other.
    let east = shadowcast(0, 0, 4, |x, y| (x, y) == (1, 0));
    let west = shadowcast(0, 0, 4, |x, y| (x, y) == (-1, 0));
    assert!(east.contains(&(1, 0)) && !east.contains(&(3, 0)));
    assert!(west.contains(&(-1, 0)) && !west.contains(&(-3, 0)));
}
