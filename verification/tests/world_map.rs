use tilekit::noise::Rng;
use tilekit::world::map::{nearest_water_ring, pick_spaced, WorldMap};
use tilekit::world::{Biome, Landmark, Site};

/// A `w` x `h` map of grassland with a one-cell ocean border.
fn island(w: i32, h: i32) -> WorldMap {
    let mut m = WorldMap::new(w, h, 7);
    for y in 1..h - 1 {
        for x in 1..w - 1 {
            m.biome[(y * w + x) as usize] = Biome::Grassland;
        }
    }
    m
}

fn town(x: i32, y: i32, site: Site) -> Landmark {
    Landmark { x, y, site, name: String::from("Test"), province: 0 }
}

fn manhattan(a: (i32, i32), b: (i32, i32)) -> i32 {
    (a.0 - b.0).abs() + (a.1 - b.1).abs()
}

#[test]
fn a_new_map_is_all_ocean_in_one_province() {
    let m = WorldMap::new(8, 10, 3);
    assert_eq!((m.width(), m.height(), m.seed()), (8, 10, 3));
    assert_eq!(m.biome.len(), 80);
    assert!(m.biome.iter().all(|&b| b == Biome::Ocean));
    assert!(m.river.iter().all(|&r| !r));
    assert!(m.road.iter().all(|&r| !r));
    assert!(m.province.iter().all(|&p| p == 0));
    assert_eq!(m.land_count(), 0);
    assert_eq!(m.province_count(), 1);
    assert_eq!(m.start_position(), (4, 5));
}

#[test]
fn off_map_lookups_are_ocean_and_empty() {
    let m = island(12, 12);
    for (x, y) in [(-1, 0), (0, -1), (9999, 0), (0, 9999)] {
        assert!(!m.in_bounds(x, y));
        assert_eq!(m.idx(x, y), None);
        assert_eq!(m.biome_at(x, y), Biome::Ocean);
        assert!(!m.river_at(x, y));
        assert!(!m.road_at(x, y));
        assert_eq!(m.province_at(x, y), 0);
    }
    assert_eq!(m.idx(3, 2), Some(27));
    assert_eq!(m.biome_at(3, 2), Biome::Grassland);
    assert_eq!(m.land_count(), 100);
}

#[test]
fn map_neighbours_stay_on_the_map() {
    let m = island(12, 9);
    assert_eq!(m.neighbors4(0, 0), vec![(1, 0), (0, 1)]);
    assert_eq!(m.neighbors4(5, 5), vec![(5, 4), (6, 5), (5, 6), (4, 5)]);
    assert_eq!(m.neighbors4(11, 8), vec![(11, 7), (10, 8)]);
    for (x, y) in [(0, 0), (11, 0), (0, 8), (5, 5)] {
        for (nx, ny) in m.neighbors4(x, y) {
            assert!(m.in_bounds(nx, ny));
        }
    }
}

#[test]
fn the_first_capital_is_where_play_starts() {
    let mut m = island(12, 12);
    m.landmarks.push(town(3, 3, Site::Town));
    m.landmarks.push(town(7, 8, Site::Capital));
    m.landmarks.push(town(9, 9, Site::Capital));
    assert_eq!(m.start_position(), (7, 8));
    assert_eq!(m.landmark_at(7, 8).map(|l| l.site), Some(Site::Capital));
    assert!(m.landmark_at(1, 1).is_none());
}

#[test]
fn cells_go_to_the_first_nearest_seed() {
    let mut m = island(10, 8);
    m.assign_provinces(&vec![(1, 1), (8, 6), (1, 1)]);
    assert_eq!(m.province_at(0, 0), 0);
    assert_eq!(m.province_at(9, 7), 1);
    for y in 0..m.height() {
        for x in 0..m.width() {
            let d = |s: (i32, i32)| (x - s.0).pow(2) + (y - s.1).pow(2);
            let expected = if d((8, 6)) < d((1, 1)) { 1 } else { 0 };
            assert_eq!(m.province_at(x, y), expected, "({x}, {y}); ties and the duplicate go to the first");
        }
    }
}

#[test]
fn relaxation_moves_seeds_to_their_land_centroids() {
    let mut m = island(10, 8);
    let seeds = vec![(1, 1), (8, 6)];
    m.assign_provinces(&seeds);
    let moved = m.relax_seeds(&seeds);
    // Recompute the centroids by hand.
    let mut sums = [(0i64, 0i64, 0i64); 2];
    for y in 0..8 {
        for x in 0..10 {
            if !m.biome_at(x, y).is_water() {
                let p = m.province_at(x, y);
                sums[p].0 += i64::from(x);
                sums[p].1 += i64::from(y);
                sums[p].2 += 1;
            }
        }
    }
    for p in 0..2 {
        let (sx, sy, n) = sums[p];
        assert_eq!(moved[p], ((sx / n) as i32, (sy / n) as i32));
    }
}

#[test]
fn a_seed_without_land_stays_put() {
    let mut m = WorldMap::new(8, 8, 1);
    let seeds = vec![(2, 2), (6, 6)];
    m.assign_provinces(&seeds);
    assert_eq!(m.relax_seeds(&seeds), seeds);
}

#[test]
fn provinces_grow_from_settlements_and_landmarks_learn_theirs() {
    let mut m = island(16, 12);
    m.landmarks.push(town(3, 3, Site::Capital));
    m.landmarks.push(town(12, 8, Site::Town));
    m.landmarks.push(town(7, 6, Site::Ruin));
    m.build_provinces();
    assert_eq!(m.province_seeds.len(), 2);
    assert_eq!(m.province_count(), 2);
    for l in &m.landmarks {
        assert_eq!(l.province, m.province_at(l.x, l.y));
    }
    assert_ne!(m.province_at(3, 3), m.province_at(12, 8));
    for p in &m.province {
        assert!(*p < 2);
    }
}

#[test]
fn without_settlements_the_whole_map_is_one_province() {
    let mut m = island(10, 10);
    m.build_provinces();
    assert_eq!(m.province_seeds.len(), 1);
    assert!(m.province.iter().all(|&p| p == 0));
}

#[test]
fn river_and_harbour_raise_the_settlement_score() {
    let mut m = island(10, 10);
    assert_eq!(m.settlement_score(5, 5), Some(100));
    assert_eq!(m.settlement_score(1, 5), Some(160), "next to the ocean border");
    m.river[(5 * 10 + 5) as usize] = true;
    assert_eq!(m.settlement_score(5, 5), Some(190));
    m.biome[(5 * 10 + 6) as usize] = Biome::Desert;
    assert_eq!(m.settlement_score(6, 5), Some(20));
    m.biome[(5 * 10 + 7) as usize] = Biome::Peak;
    assert_eq!(m.settlement_score(7, 5), None, "peaks are impassable");
    assert_eq!(m.settlement_score(0, 0), None, "water");
    assert_eq!(m.settlement_score(-1, 0), None, "off the map");
}

#[test]
fn greedy_picks_keep_their_distance_and_count() {
    let ranked = vec![(9, 0, 0), (8, 1, 0), (7, 5, 0), (6, 0, 5), (5, 9, 9), (4, 20, 20)];
    let chosen = pick_spaced(&ranked, 3, 5);
    assert_eq!(chosen, vec![(0, 0), (5, 0), (0, 5)]);
    let all = pick_spaced(&ranked, 10, 5);
    assert_eq!(all, vec![(0, 0), (5, 0), (0, 5), (9, 9), (20, 20)]);
    for (i, a) in all.iter().enumerate() {
        for b in &all[i + 1..] {
            assert!(manhattan(*a, *b) >= 5);
        }
    }
}

#[test]
fn settlements_are_ranked_capital_cities_towns() {
    let mut m = island(20, 20);
    let chosen: Vec<(i32, i32)> = (0..6).map(|k| (2 + 3 * k, 2 + 2 * k)).collect();
    let mut rng = Rng::new(11);
    m.place_settlements(&chosen, &mut rng);
    let sites: Vec<Site> = m.landmarks.iter().map(|l| l.site).collect();
    assert_eq!(sites, vec![Site::Capital, Site::City, Site::City, Site::City, Site::Town, Site::Town]);
    for (l, c) in m.landmarks.iter().zip(&chosen) {
        assert_eq!((l.x, l.y), *c);
        assert!(!l.name.is_empty());
        assert!(l.name.chars().next().unwrap().is_uppercase());
    }
}

#[test]
fn minor_sites_land_on_dry_ground_away_from_everything() {
    let mut m = island(40, 30);
    m.landmarks.push(town(20, 15, Site::Capital));
    let mut rng = Rng::new(99);
    m.scatter_minor_sites(&mut rng);
    let minors = &m.landmarks[1..];
    assert!(!minors.is_empty());
    assert!(minors.len() <= 3, "a 40x30 map asks for three");
    for (i, l) in m.landmarks.iter().enumerate() {
        if i > 0 {
            let b = m.biome_at(l.x, l.y);
            assert!(b.is_passable() && !b.is_water());
            assert!(!l.site.is_settlement());
            for other in &m.landmarks[..i] {
                assert!(manhattan((l.x, l.y), (other.x, other.y)) >= 4);
            }
        }
    }
}

#[test]
fn landmark_placement_respects_spacing_and_makes_one_capital() {
    let mut m = island(40, 40);
    let jitter = vec![0; 1600];
    m.place_landmarks(&jitter);
    let settlements: Vec<&Landmark> = m.landmarks.iter().filter(|l| l.site.is_settlement()).collect();
    assert_eq!(settlements.len(), 4, "1600 cells ask for the minimum of four");
    assert_eq!(m.landmarks.iter().filter(|l| l.site == Site::Capital).count(), 1);
    for (i, a) in settlements.iter().enumerate() {
        for b in &settlements[i + 1..] {
            assert!(manhattan((a.x, a.y), (b.x, b.y)) >= 6, "spacing is 40 / 6");
        }
    }
    for l in &m.landmarks {
        let b = m.biome_at(l.x, l.y);
        assert!(b.is_passable() && !b.is_water());
    }
    // The coast (next to the ocean border) scores best.
    let capital = settlements[0];
    assert!(capital.x == 1 || capital.y == 1 || capital.x == 38 || capital.y == 38);
}

#[test]
fn a_route_is_a_contiguous_cheapest_walk() {
    let mut m = island(12, 12);
    let r = m.route((2, 2), (6, 2)).expect("open ground");
    assert_eq!(r.first(), Some(&(2, 2)));
    assert_eq!(r.last(), Some(&(6, 2)));
    assert_eq!(r.len(), 5, "a straight line over uniform ground");
    for pair in r.windows(2) {
        assert_eq!(manhattan(pair[0], pair[1]), 1);
    }
    assert_eq!(m.route((3, 3), (3, 3)), Some(vec![(3, 3)]));
    assert_eq!(m.route((3, 3), (30, 3)), None);
    // Wall the goal off with peaks.
    for (x, y) in [(5, 6), (7, 6), (6, 5), (6, 7)] {
        m.biome[(y * 12 + x) as usize] = Biome::Peak;
    }
    assert_eq!(m.route((2, 2), (6, 6)), None);
}

#[test]
fn routes_prefer_existing_roads() {
    let mut m = island(12, 12);
    // A detour along a road is cheaper than the direct line over forest.
    for x in 2..=8 {
        m.biome[(5 * 12 + x) as usize] = Biome::Forest;
    }
    for (x, y) in [(2, 5), (2, 6), (3, 6), (4, 6), (5, 6), (6, 6), (7, 6), (8, 6), (8, 5)] {
        m.road[(y * 12 + x) as usize] = true;
    }
    let r = m.route((2, 5), (8, 5)).unwrap();
    assert!(r.contains(&(5, 6)), "{r:?}");
}

#[test]
fn roads_join_settlements_over_passable_ground() {
    let mut m = island(20, 12);
    m.landmarks.push(town(2, 2, Site::Capital));
    m.landmarks.push(town(16, 9, Site::Town));
    m.landmarks.push(town(10, 3, Site::Ruin));
    m.build_roads();
    assert!(m.road_at(2, 2) && m.road_at(16, 9));
    assert!(!m.road_at(10, 3) || m.biome_at(10, 3).is_passable());
    for y in 0..12 {
        for x in 0..20 {
            if m.road_at(x, y) {
                assert!(m.biome_at(x, y).is_passable());
                let touching = m.neighbors4(x, y).iter().filter(|&&(nx, ny)| m.road_at(nx, ny)).count();
                assert!(touching >= 1, "road cell ({x}, {y}) is isolated");
            }
        }
    }
}

#[test]
fn a_lone_settlement_gets_no_roads() {
    let mut m = island(12, 12);
    m.landmarks.push(town(5, 5, Site::Capital));
    m.build_roads();
    assert!(m.road.iter().all(|&r| !r));
}

#[test]
fn the_nearest_water_ring_is_found() {
    let (w, h) = (10, 10);
    let mut water = vec![false; 100];
    water[(5 * w + 8) as usize] = true;
    assert_eq!(nearest_water_ring(&water, w, h, 5, 5, 6), Some(3));
    assert_eq!(nearest_water_ring(&water, w, h, 5, 5, 2), None);
    assert_eq!(nearest_water_ring(&water, w, h, 8, 6, 6), Some(1));
    assert_eq!(nearest_water_ring(&vec![false; 100], w, h, 0, 0, 6), None);
}

#[test]
fn rivers_run_downhill_to_the_sea() {
    let mut m = island(12, 12);
    let n = 144;
    let interior: Vec<bool> = (0..n).map(|i| m.biome[i] != Biome::Ocean).collect();
    // Ground rises to the east, so water runs straight west into the sea.
    let level: Vec<i64> = (0..n).map(|i| (i % 12) as i64).collect();
    m.carve_rivers(&interior, &interior, &level, &level);
    assert!(m.river.iter().any(|&r| r), "no river was carved");
    for y in 0..12 {
        for x in 0..12 {
            if m.river_at(x, y) {
                assert!(x >= 1 && !m.biome_at(x, y).is_water());
                if x > 1 {
                    assert!(m.river_at(x - 1, y), "river at ({x}, {y}) does not reach the sea");
                }
            }
        }
    }
    assert!(m.biome.iter().all(|&b| b != Biome::Lake), "nothing pooled");
}

#[test]
fn rivers_on_flat_ground_pool_into_lakes() {
    let mut m = island(12, 12);
    let interior: Vec<bool> = (0..144).map(|i| m.biome[i] != Biome::Ocean).collect();
    let flat = vec![5i64; 144];
    m.carve_rivers(&interior, &interior, &flat, &flat);
    assert!(m.river.iter().all(|&r| !r), "a one-cell stub is not a river");
    assert!(m.biome.iter().any(|&b| b == Biome::Lake));
}

#[test]
fn dry_or_low_ground_feeds_no_river() {
    let mut m = island(12, 12);
    let none = vec![false; 144];
    let all = vec![true; 144];
    let level: Vec<i64> = (0..144).map(|i| (i % 12) as i64).collect();
    m.carve_rivers(&all, &none, &level, &level);
    assert!(m.river.iter().all(|&r| !r));
    m.carve_rivers(&none, &all, &level, &level);
    assert!(m.river.iter().all(|&r| !r));
}

#[test]
fn settlement_sites_lists_only_settlements() {
    let mut m = island(12, 12);
    m.landmarks.push(town(2, 3, Site::Town));
    m.landmarks.push(town(4, 5, Site::Mine));
    m.landmarks.push(town(6, 7, Site::Capital));
    assert_eq!(m.settlement_sites(), vec![(2, 3), (6, 7)]);
}

#[test]
fn laying_a_road_marks_the_route() {
    let mut m = island(12, 12);
    m.lay_road((2, 2), (2, 6));
    let marked: Vec<(i32, i32)> = (0..12).flat_map(|y| (0..12).map(move |x| (x, y))).filter(|&(x, y)| m.road_at(x, y)).collect();
    assert_eq!(marked.len(), 5);
    assert!(m.road_at(2, 2) && m.road_at(2, 6));
    let mut off = island(12, 12);
    off.lay_road((2, 2), (40, 6));
    assert!(off.road.iter().all(|&r| !r));
}
