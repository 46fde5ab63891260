//! The integer layers of a generated world (terrain classes, rivers, roads,
//! provinces, points of interest) and the generation stages that work on
//! them: site selection, scattering, road building and province assignment.

use vstd::prelude::*;

use crate::noise::Rng;
use crate::geom::Cell;
use crate::noise::{seeded, xorshift};
use crate::path::{
    find_by, is_cardinal_step, legal_walk, route_exists, search_route, walk_between, walk_cost, Diagonals, IMPASSABLE,
};
use crate::world::{after, biome_cost, draw, generate_name, name_from, passable, settlement, water, Biome, Landmark, Site};

verus! {

/// The per-cell layers of a generated world, row-major `width * height`.
#[derive(Debug, Clone)]
pub struct WorldMap {
    /// Map width in cells.
    pub width: i32,
    /// Map height in cells.
    pub height: i32,
    /// The seed the map was generated from.
    pub seed: u32,
    /// Classified terrain.
    pub biome: Vec<Biome>,
    /// Whether a river runs through each cell.
    pub river: Vec<bool>,
    /// Whether a road runs through each cell.
    pub road: Vec<bool>,
    /// Which province owns each cell.
    pub province: Vec<usize>,
    /// Placed points of interest.
    pub landmarks: Vec<Landmark>,
    /// Province seed positions, one per province.
    pub province_seeds: Vec<(i32, i32)>,
}

/// The largest map, in cells, that the generation stages accept: the cell
/// count must fit in an `i32`.
pub const MAX_CELLS: i32 = 0x7FFF_FFFF;

/// Squared Euclidean distance between two cells.
pub open spec fn dist_sq(x: int, y: int, sx: int, sy: int) -> int {
    (x - sx) * (x - sx) + (y - sy) * (y - sy)
}

/// `p` is the first of `seeds` nearest to `(x, y)`.
pub open spec fn nearest_seed(seeds: Seq<(i32, i32)>, x: int, y: int, p: int) -> bool {
    &&& 0 <= p < seeds.len()
    &&& forall|q: int| 0 <= q < p ==> dist_sq(x, y, seeds[q].0 as int, seeds[q].1 as int)
        > dist_sq(x, y, seeds[p].0 as int, seeds[p].1 as int)
    &&& forall|q: int| 0 <= q < seeds.len() ==> dist_sq(x, y, seeds[q].0 as int, seeds[q].1 as int)
        >= dist_sq(x, y, seeds[p].0 as int, seeds[p].1 as int)
}

/// Whether every seed lies on a `width` x `height` map.
pub open spec fn seeds_on_map(seeds: Seq<(i32, i32)>, width: int, height: int) -> bool {
    forall|q: int| 0 <= q < seeds.len() ==> 0 <= #[trigger] seeds[q].0 < width && 0 <= seeds[q].1 < height
}

/// Squared distance from `(x, y)` to seed `q`.
pub open spec fn seed_dist(seeds: Seq<(i32, i32)>, x: int, y: int, q: int) -> int {
    dist_sq(x, y, seeds[q].0 as int, seeds[q].1 as int)
}

/// Index of the first of `seeds[0..k]` nearest to `(x, y)`; 0 when `k` is 0.
pub open spec fn first_nearest(seeds: Seq<(i32, i32)>, x: int, y: int, k: nat) -> nat
    decreases k,
{
    if k == 0 {
        0
    } else {
        let b = first_nearest(seeds, x, y, (k - 1) as nat);
        let q = k - 1;
        if seed_dist(seeds, x, y, q) < seed_dist(seeds, x, y, b as int) {
            q as nat
        } else {
            b
        }
    }
}

/// The province layer of a `w`-wide map of `n` cells: each cell goes to the
/// first seed nearest to it (Voronoi assignment), or 0 if there are none.
pub open spec fn voronoi(seeds: Seq<(i32, i32)>, w: int, n: int) -> Seq<usize> {
    Seq::new(n as nat, |i: int| first_nearest(seeds, i % w, i / w, seeds.len()) as usize)
}

/// Sums of the x and y coordinates, and the count, of the land cells among
/// the first `k` cells of a `w`-wide map that `owner` gives to province `p`.
pub open spec fn land_sums(biome: Seq<Biome>, owner: Seq<usize>, w: int, k: nat, p: int) -> (int, int, int)
    decreases k,
{
    if k == 0 {
        (0, 0, 0)
    } else {
        let s = land_sums(biome, owner, w, (k - 1) as nat, p);
        let i = k - 1;
        if !water(biome[i]) && owner[i] as int == p {
            (s.0 + i % w, s.1 + i / w, s.2 + 1)
        } else {
            s
        }
    }
}

/// One round of Lloyd relaxation: each seed moves to the centroid (rounded
/// down) of the land cells of its province, or stays put if it has none.
pub open spec fn centroids(biome: Seq<Biome>, owner: Seq<usize>, w: int, seeds: Seq<(i32, i32)>) -> Seq<(i32, i32)> {
    Seq::new(
        seeds.len(),
        |p: int|
            {
                let s = land_sums(biome, owner, w, biome.len(), p);
                if s.2 > 0 {
                    ((s.0 / s.2) as i32, (s.1 / s.2) as i32)
                } else {
                    seeds[p]
                }
            },
    )
}

/// Positions of the settlements among `landmarks`, in order.
pub open spec fn settlement_positions(landmarks: Seq<Landmark>) -> Seq<(i32, i32)>
    decreases landmarks.len(),
{
    if landmarks.len() == 0 {
        Seq::empty()
    } else {
        let prev = settlement_positions(landmarks.drop_last());
        let l = landmarks.last();
        if settlement(l.site) {
            prev.push((l.x, l.y))
        } else {
            prev
        }
    }
}

/// The seeds provinces grow from: the settlements, or the map center of a
/// `w` x `h` map when there are none.
pub open spec fn initial_seeds(landmarks: Seq<Landmark>, w: int, h: int) -> Seq<(i32, i32)> {
    let s = settlement_positions(landmarks);
    if s.len() == 0 {
        seq![((w / 2) as i32, (h / 2) as i32)]
    } else {
        s
    }
}

/// Seeds after `rounds` rounds of Voronoi assignment and Lloyd relaxation on
/// a `w`-wide map of `n` cells.
pub open spec fn relaxed_seeds(biome: Seq<Biome>, w: int, n: int, seeds: Seq<(i32, i32)>, rounds: nat) -> Seq<(i32, i32)>
    decreases rounds,
{
    if rounds == 0 {
        seeds
    } else {
        relaxed_seeds(biome, w, n, centroids(biome, voronoi(seeds, w, n), w, seeds), (rounds - 1) as nat)
    }
}

/// The province a landmark at `(x, y)` reads from a province layer: the
/// entry at its row-major index on a `w`-wide map, or 0 if there is none.
pub open spec fn province_of(province: Seq<usize>, w: int, x: int, y: int) -> usize {
    let i = y * w + x;
    if 0 <= i < province.len() {
        province[i]
    } else {
        0
    }
}

/// How much a settlement site on this terrain is worth before rivers and
/// coasts are counted.
pub open spec fn base_score(b: Biome) -> int {
    match b {
        Biome::Grassland => 100,
        Biome::Forest | Biome::Savanna => 80,
        Biome::Coast => 70,
        Biome::Taiga | Biome::Scrubland => 45,
        Biome::Desert | Biome::Tundra => 20,
        _ => 30,
    }
}

/// Whether a site may stand on this terrain: passable dry land.
pub open spec fn site_ground(b: Biome) -> bool {
    passable(b) && !water(b)
}

/// Manhattan distance between two cells.
pub open spec fn manhattan(ax: int, ay: int, bx: int, by: int) -> int {
    (if ax >= bx { ax - bx } else { bx - ax }) + (if ay >= by { ay - by } else { by - ay })
}

/// Whether `(x, y)` is at least `spacing` (Manhattan) from every chosen site.
pub open spec fn spaced(chosen: Seq<(i32, i32)>, x: int, y: int, spacing: int) -> bool {
    forall|k: int| 0 <= k < chosen.len() ==> manhattan(#[trigger] chosen[k].0 as int, chosen[k].1 as int, x, y) >= spacing
}

/// Walking `ranked` (score, x, y) entries in order, the sites taken while
/// fewer than `wanted` are chosen and each is `spacing` from the ones before.
pub open spec fn greedy_sites(ranked: Seq<(i32, i32, i32)>, wanted: int, spacing: int) -> Seq<(i32, i32)>
    decreases ranked.len(),
{
    if ranked.len() == 0 {
        Seq::empty()
    } else {
        let prev = greedy_sites(ranked.drop_last(), wanted, spacing);
        let t = ranked.last();
        if prev.len() < wanted && spaced(prev, t.1 as int, t.2 as int, spacing) {
            prev.push((t.1, t.2))
        } else {
            prev
        }
    }
}

/// Scores in order from best to worst.
pub open spec fn best_first(s: Seq<(i32, i32, i32)>) -> bool {
    forall|i: int, j: int| 0 <= i < j < s.len() ==> s[i].0 >= s[j].0
}

/// `scored` ranked best first, ties in their original order: the one order
/// that [`ranks`] it (see [`lemma_ranks_unique`]).
pub open spec fn ranking(scored: Seq<(i32, i32, i32)>) -> Seq<(i32, i32, i32)> {
    choose|s: Seq<(i32, i32, i32)>| ranks(scored, s)
}

/// The entries of `s` with score `v`, in order.
pub open spec fn with_score(s: Seq<(i32, i32, i32)>, v: i32) -> Seq<(i32, i32, i32)> {
    s.filter(|t: (i32, i32, i32)| t.0 == v)
}

/// `s` orders `scored` best first, keeping entries of equal score in their
/// original order.
pub open spec fn ranks(scored: Seq<(i32, i32, i32)>, s: Seq<(i32, i32, i32)>) -> bool {
    &&& s.len() == scored.len()
    &&& best_first(s)
    &&& forall|v: i32| #[trigger] with_score(s, v) == with_score(scored, v)
}

/// The generator state after one place name is drawn from state `s`.
pub open spec fn name_state(s: u32) -> u32 {
    after(s, (draw(s, 2) + 4) as nat)
}

/// The generator state after `k` place names are drawn from state `s`.
pub open spec fn names_state(s: u32, k: nat) -> u32
    decreases k,
{
    if k == 0 {
        s
    } else {
        name_state(names_state(s, (k - 1) as nat))
    }
}

/// What the settlement of rank `r` becomes: the best site is the capital,
/// the next three are cities, the rest towns.
pub open spec fn rank_site(r: int) -> Site {
    if r == 0 {
        Site::Capital
    } else if r <= 3 {
        Site::City
    } else {
        Site::Town
    }
}

/// Settlements placed in rank order name exactly one capital, the first;
/// the other ranks are never capitals.
pub proof fn lemma_one_capital(r: int)
    requires
        r >= 0,
    ensures
        rank_site(r) == Site::Capital <==> r == 0,
{
}

/// The positions of `landmarks`, in order.
pub open spec fn positions(landmarks: Seq<Landmark>) -> Seq<(i32, i32)> {
    Seq::new(landmarks.len(), |k: int| (landmarks[k].x, landmarks[k].y))
}

/// The minor site that suits terrain `b`, when the terrain decides it.
pub open spec fn minor_site(b: Biome) -> Option<Site> {
    match b {
        Biome::Mountain | Biome::Scrubland => Some(Site::Mine),
        Biome::Jungle | Biome::Desert => Some(Site::Ruin),
        Biome::Forest | Biome::Taiga => Some(Site::Shrine),
        _ => None,
    }
}

/// One attempt to scatter a minor site, from generator state `s` with
/// the positions already `taken`: a cell is drawn (x, then y); it gets a
/// site if it is passable dry land at least 4 (Manhattan) from every
/// taken position on a `w` x `h` map with terrain `biome`. Terrain picks the site, or a further draw picks a fort
/// or a ruin. Gives the site placed, if any, and the state after.
pub open spec fn scatter_attempt(biome: Seq<Biome>, w: int, h: int, taken: Seq<(i32, i32)>, s: u32) -> (Option<(i32, i32, Site)>, u32) {
    let x = draw(s, w);
    let s1 = xorshift(s);
    let y = draw(s1, h);
    let s2 = xorshift(s1);
    let b = biome[y * w + x];
    if !site_ground(b) || !spaced(taken, x, y, 4) {
        (None, s2)
    } else {
        match minor_site(b) {
            Some(site) => (Some((x as i32, y as i32, site)), s2),
            None => (Some((x as i32, y as i32, if draw(s2, 2) == 0 { Site::Fort } else { Site::Ruin })), xorshift(s2)),
        }
    }
}

/// The minor sites scattered in at most `tries` attempts until `wanted`
/// are placed, each with the name drawn right after it, and the
/// generator state at the end.
pub open spec fn scatter_run(biome: Seq<Biome>, w: int, h: int, taken: Seq<(i32, i32)>, s: u32, tries: nat, wanted: int) -> (
    Seq<(i32, i32, Site, Seq<char>)>,
    u32,
)
    decreases tries,
{
    if tries == 0 || wanted <= 0 {
        (Seq::empty(), s)
    } else {
        let (hit, s2) = scatter_attempt(biome, w, h, taken, s);
        match hit {
            None => scatter_run(biome, w, h, taken, s2, (tries - 1) as nat, wanted),
            Some(site) => {
                let rest = scatter_run(biome, w, h, taken.push((site.0, site.1)), name_state(s2), (tries - 1) as nat, wanted - 1);
                (seq![(site.0, site.1, site.2, name_from(s2))] + rest.0, rest.1)
            },
        }
    }
}

/// What it costs a road to enter cell `c` of a `w` x `h` map with terrain
/// `biome` and existing roads `road`: impassable off the map and on
/// impassable terrain, a third (rounded up) of the terrain's move cost along
/// an existing road, so that routes merge into trunk roads, and the full
/// move cost elsewhere.
pub open spec fn road_cost(biome: Seq<Biome>, road: Seq<bool>, w: int, h: int, c: Cell) -> u32 {
    if !(0 <= c.x < w && 0 <= c.y < h) {
        IMPASSABLE
    } else {
        let i = c.y * w + c.x;
        let b = biome[i];
        if !passable(b) {
            IMPASSABLE
        } else if road[i] {
            ((biome_cost(b) + 2) / 3) as u32
        } else {
            biome_cost(b)
        }
    }
}

/// [`road_cost`] for every cell.
pub open spec fn road_costs(biome: Seq<Biome>, road: Seq<bool>, w: int, h: int) -> spec_fn(Cell) -> u32 {
    |c: Cell| road_cost(biome, road, w, h, c)
}

/// `walk` is the cheapest road from `a` to `b` that the search settles on:
/// a walk of cardinal steps over passable cells that no other such walk
/// undercuts in [`road_cost`], and, among equally cheap ones, the one the
/// search's predecessor links give ([`search_route`]).
pub open spec fn cheapest_walk(biome: Seq<Biome>, road: Seq<bool>, w: int, h: int, a: Cell, b: Cell, walk: Seq<Cell>) -> bool {
    let sc = road_costs(biome, road, w, h);
    &&& walk_between(sc, Diagonals::Never, w, h, walk, a, b)
    &&& walk_cost(sc, Diagonals::Never, walk) < IMPASSABLE
    &&& forall|other: Seq<Cell>|
        #[trigger] walk_between(sc, Diagonals::Never, w, h, other, a, b) ==> walk_cost(sc, Diagonals::Never, walk)
            <= walk_cost(sc, Diagonals::Never, other)
    &&& search_route(sc, Diagonals::Never, w, h, a, b, walk.drop_first())
}

/// The cells of a walk as `(x, y)` pairs.
pub open spec fn xy(walk: Seq<Cell>) -> Seq<(i32, i32)> {
    walk.map_values(|c: Cell| (c.x, c.y))
}

/// The cell at `(x, y)`.
pub open spec fn cell_at(p: (i32, i32)) -> Cell {
    Cell { x: p.0, y: p.1 }
}

/// Manhattan distance between towns `i` and `j`.
pub open spec fn town_dist(towns: Seq<(i32, i32)>, i: int, j: int) -> int {
    manhattan(towns[i].0 as int, towns[i].1 as int, towns[j].0 as int, towns[j].1 as int)
}

/// Among `towns[0..k]` other than `i` and `skip`, the first of those nearest
/// to town `i`, if there is any.
pub open spec fn nearest_other(towns: Seq<(i32, i32)>, i: int, skip: int, k: nat) -> Option<int>
    decreases k,
{
    if k == 0 {
        None
    } else {
        let prev = nearest_other(towns, i, skip, (k - 1) as nat);
        let j = k - 1;
        if j == i || j == skip {
            prev
        } else {
            match prev {
                None => Some(j),
                Some(b) => if town_dist(towns, i, j) < town_dist(towns, i, b) {
                    Some(j)
                } else {
                    prev
                },
            }
        }
    }
}

/// The roads town `i` asks for: to its nearest other town and to the next
/// nearest (ties going to the earlier town), where they exist.
pub open spec fn road_targets(towns: Seq<(i32, i32)>, i: int) -> Seq<((i32, i32), (i32, i32))> {
    let n = towns.len();
    match nearest_other(towns, i, n as int, n) {
        None => Seq::empty(),
        Some(a) => seq![(towns[i], towns[a])] + match nearest_other(towns, i, a, n) {
            None => Seq::empty(),
            Some(b) => seq![(towns[i], towns[b])],
        },
    }
}

/// The roads the first `m` towns ask for, in order.
pub open spec fn road_pairs(towns: Seq<(i32, i32)>, m: nat) -> Seq<((i32, i32), (i32, i32))>
    decreases m,
{
    if m == 0 {
        Seq::empty()
    } else {
        road_pairs(towns, (m - 1) as nat) + road_targets(towns, m - 1)
    }
}

/// `road` with every on-map cell of `cells` turned into road.
pub open spec fn mark_cells(road: Seq<bool>, w: int, h: int, cells: Seq<(i32, i32)>) -> Seq<bool>
    decreases cells.len(),
{
    if cells.len() == 0 {
        road
    } else {
        let prev = mark_cells(road, w, h, cells.drop_last());
        let c = cells.last();
        if 0 <= c.0 < w && 0 <= c.1 < h {
            prev.update(c.1 * w + c.0, true)
        } else {
            prev
        }
    }
}

/// `next` is `road` with a cheapest road from `a` to `b` laid on it (just
/// `a` when they are the same cell), or `road` unchanged when either is off
/// the map or no road can join them.
pub open spec fn lays_road(biome: Seq<Biome>, road: Seq<bool>, w: int, h: int, a: (i32, i32), b: (i32, i32), next: Seq<bool>) -> bool {
    if !(0 <= a.0 < w && 0 <= a.1 < h) || !(0 <= b.0 < w && 0 <= b.1 < h) || (a != b && !route_exists(
        road_costs(biome, road, w, h),
        Diagonals::Never,
        w,
        h,
        cell_at(a),
        cell_at(b),
    )) {
        next == road
    } else if a == b {
        next == mark_cells(road, w, h, seq![a])
    } else {
        exists|walk: Seq<Cell>| #[trigger] cheapest_walk(biome, road, w, h, cell_at(a), cell_at(b), walk)
            && next == mark_cells(road, w, h, xy(walk))
    }
}

/// `layers` are the road layers as `pairs` are joined one after another,
/// from before the first to after the last.
pub open spec fn roads_laid(biome: Seq<Biome>, w: int, h: int, pairs: Seq<((i32, i32), (i32, i32))>, layers: Seq<Seq<bool>>) -> bool {
    &&& layers.len() == pairs.len() + 1
    &&& forall|k: int| 0 <= k < pairs.len() ==> lays_road(biome, #[trigger] layers[k], w, h, pairs[k].0, pairs[k].1, layers[k + 1])
}

/// The cell of a `w` x `h` map one step from cell `i` in cardinal
/// direction `d` (north, east, south, west), if it is on the map.
pub open spec fn step_from(w: int, h: int, i: int, d: int) -> Option<int> {
    let x = i % w;
    let y = i / w;
    let (nx, ny) = if d == 0 {
        (x, y - 1)
    } else if d == 1 {
        (x + 1, y)
    } else if d == 2 {
        (x, y + 1)
    } else {
        (x - 1, y)
    };
    if 0 <= nx < w && 0 <= ny < h {
        Some(ny * w + nx)
    } else {
        None
    }
}

/// Where water flows from cell `i`, looking at the first `k` cardinal
/// neighbours in order: the first whose `descent` key is lowest among those
/// below the `level` key of `i`, if any.
pub open spec fn flow_upto(w: int, h: int, level: Seq<i64>, descent: Seq<i64>, i: int, k: nat) -> Option<int>
    decreases k,
{
    if k == 0 {
        None
    } else {
        let prev = flow_upto(w, h, level, descent, i, (k - 1) as nat);
        match step_from(w, h, i, k - 1) {
            None => prev,
            Some(j) => if descent[j] < level[i] && (prev is None || descent[j] < descent[prev->0]) {
                Some(j)
            } else {
                prev
            },
        }
    }
}

/// A river traced downhill from cell `i` for at most `steps` steps: the
/// cells it runs through, whether it reached water, and the cell where it
/// pooled into a lake because no neighbour was lower, if it did.
pub open spec fn trace(biome: Seq<Biome>, w: int, h: int, level: Seq<i64>, descent: Seq<i64>, i: int, steps: nat) -> (
    Seq<int>,
    bool,
    Option<int>,
)
    decreases steps,
{
    if steps == 0 {
        (Seq::empty(), false, None)
    } else if water(biome[i]) {
        (Seq::empty(), true, None)
    } else {
        match flow_upto(w, h, level, descent, i, 4) {
            None => (seq![i], false, Some(i)),
            Some(j) => {
                let rest = trace(biome, w, h, level, descent, j, (steps - 1) as nat);
                (seq![i] + rest.0, rest.1, rest.2)
            },
        }
    }
}

/// A sequence of cell indices as integers.
pub open spec fn indices(v: Seq<usize>) -> Seq<int> {
    v.map_values(|k: usize| k as int)
}

/// `river` with every cell of `path` turned into river.
pub open spec fn mark_path(river: Seq<bool>, path: Seq<int>) -> Seq<bool> {
    Seq::new(river.len(), |i: int| river[i] || path.contains(i))
}

/// What carving rivers makes of the terrain and river layers, and the
/// generator state after: in at most `tries` attempts, until `left` more
/// rivers are kept, a cell is drawn (x, then y); a source (`high` ground that
/// is `wet` or already on a river) is traced downhill for at most `steps`
/// steps, pooling into a lake where it gets stuck, and the river is kept if
/// it runs through at least 6 cells, or at least 4 that reach water.
pub open spec fn river_run(
    biome: Seq<Biome>,
    river: Seq<bool>,
    w: int,
    h: int,
    high: Seq<bool>,
    wet: Seq<bool>,
    level: Seq<i64>,
    descent: Seq<i64>,
    s: u32,
    tries: nat,
    left: int,
    steps: nat,
) -> (Seq<Biome>, Seq<bool>, u32)
    decreases tries,
{
    if tries == 0 || left <= 0 {
        (biome, river, s)
    } else {
        let x = draw(s, w);
        let s1 = xorshift(s);
        let y = draw(s1, h);
        let s2 = xorshift(s1);
        let i = y * w + x;
        if !(high[i] && (wet[i] || river[i])) {
            river_run(biome, river, w, h, high, wet, level, descent, s2, (tries - 1) as nat, left, steps)
        } else {
            let t = trace(biome, w, h, level, descent, i, steps);
            let b2 = match t.2 {
                Some(l) => biome.update(l, Biome::Lake),
                None => biome,
            };
            if t.0.len() >= 6 || (t.1 && t.0.len() >= 4) {
                river_run(b2, mark_path(river, t.0), w, h, high, wet, level, descent, s2, (tries - 1) as nat, left - 1, steps)
            } else {
                river_run(b2, river, w, h, high, wet, level, descent, s2, (tries - 1) as nat, left, steps)
            }
        }
    }
}

impl WorldMap {
    /// Map width in cells.
    pub open spec fn spec_width(&self) -> int {
        self.width as int
    }

    /// Map height in cells.
    pub open spec fn spec_height(&self) -> int {
        self.height as int
    }

    /// The seed the map was generated from.
    pub open spec fn spec_seed(&self) -> u32 {
        self.seed
    }

    /// Every layer holds one entry per cell, and the map is at least 8x8 and
    /// at most [`MAX_CELLS`] cells.
    pub open spec fn wf(&self) -> bool {
        let n = self.spec_width() * self.spec_height();
        &&& 8 <= self.spec_width() && 8 <= self.spec_height()
        &&& n <= MAX_CELLS
        &&& self.biome@.len() == n
        &&& self.river@.len() == n
        &&& self.road@.len() == n
        &&& self.province@.len() == n
    }

    /// Whether `(x, y)` is on the map.
    pub open spec fn inside(&self, x: int, y: int) -> bool {
        0 <= x < self.spec_width() && 0 <= y < self.spec_height()
    }

    /// Row-major index of `(x, y)`.
    pub open spec fn index(&self, x: int, y: int) -> int {
        y * self.spec_width() + x
    }

    /// An empty `width` x `height` map: all ocean, no rivers, roads or
    /// landmarks, every cell in province 0.
    pub fn new(width: i32, height: i32, seed: u32) -> (m: Self)
        requires
            width >= 8 && height >= 8,
            width * height <= MAX_CELLS,
        ensures
            m.wf(),
            m.spec_width() == width && m.spec_height() == height && m.spec_seed() == seed,
            forall|i: int| 0 <= i < width * height ==> m.biome@[i] == Biome::Ocean && !m.river@[i]
                && !m.road@[i] && m.province@[i] == 0,
            m.landmarks@.len() == 0,
            m.province_seeds@.len() == 0,
    {
        let cells = (width * height) as usize;
        let mut biome: Vec<Biome> = Vec::new();
        let mut river: Vec<bool> = Vec::new();
        let mut road: Vec<bool> = Vec::new();
        let mut province: Vec<usize> = Vec::new();
        let mut k: usize = 0;
        while k < cells
            invariant
                k <= cells,
                biome@.len() == k && river@.len() == k && road@.len() == k && province@.len() == k,
                forall|i: int| 0 <= i < k ==> biome@[i] == Biome::Ocean && !river@[i] && !road@[i] && province@[i] == 0,
            decreases cells - k,
        {
            biome.push(Biome::Ocean);
            river.push(false);
            road.push(false);
            province.push(0);
            k += 1;
        }
        WorldMap {
            width,
            height,
            seed,
            biome,
            river,
            road,
            province,
            landmarks: Vec::new(),
            province_seeds: Vec::new(),
        }
    }

    /// Map width in cells.
    pub fn width(&self) -> (w: i32)
        ensures
            w == self.spec_width(),
    {
        self.width
    }

    /// Map height in cells.
    pub fn height(&self) -> (h: i32)
        ensures
            h == self.spec_height(),
    {
        self.height
    }

    /// The seed this map was generated from.
    pub fn seed(&self) -> (s: u32)
        ensures
            s == self.spec_seed(),
    {
        self.seed
    }

    /// Whether `(x, y)` is on the map.
    pub fn in_bounds(&self, x: i32, y: i32) -> (b: bool)
        ensures
            b == self.inside(x as int, y as int),
    {
        x >= 0 && y >= 0 && x < self.width && y < self.height
    }

    /// Row-major index of `(x, y)`, or `None` off the map.
    pub fn idx(&self, x: i32, y: i32) -> (i: Option<usize>)
        requires
            self.wf(),
        ensures
            i is Some <==> self.inside(x as int, y as int),
            i matches Some(v) ==> v == self.index(x as int, y as int) && v < self.spec_width() * self.spec_height(),
    {
        if self.in_bounds(x, y) {
            proof {
                lemma_index_in_range(x as int, y as int, self.width as int, self.height as int);
            }
            Some((y * self.width + x) as usize)
        } else {
            None
        }
    }

    /// Biome at `(x, y)`, or [`Biome::Ocean`] off the map, so renderers can
    /// sample past the edge of an island world.
    pub fn biome_at(&self, x: i32, y: i32) -> (b: Biome)
        requires
            self.wf(),
        ensures
            b == (if self.inside(x as int, y as int) { self.biome@[self.index(x as int, y as int)] } else { Biome::Ocean }),
    {
        match self.idx(x, y) {
            Some(i) => self.biome[i],
            None => Biome::Ocean,
        }
    }

    /// Whether a river runs through `(x, y)`; never off the map.
    pub fn river_at(&self, x: i32, y: i32) -> (b: bool)
        requires
            self.wf(),
        ensures
            b == (self.inside(x as int, y as int) && self.river@[self.index(x as int, y as int)]),
    {
        match self.idx(x, y) {
            Some(i) => self.river[i],
            None => false,
        }
    }

    /// Whether a road runs through `(x, y)`; never off the map.
    pub fn road_at(&self, x: i32, y: i32) -> (b: bool)
        requires
            self.wf(),
        ensures
            b == (self.inside(x as int, y as int) && self.road@[self.index(x as int, y as int)]),
    {
        match self.idx(x, y) {
            Some(i) => self.road[i],
            None => false,
        }
    }

    /// Province owning `(x, y)`, or 0 off the map.
    pub fn province_at(&self, x: i32, y: i32) -> (p: usize)
        requires
            self.wf(),
        ensures
            p == (if self.inside(x as int, y as int) { self.province@[self.index(x as int, y as int)] } else { 0 }),
    {
        match self.idx(x, y) {
            Some(i) => self.province[i],
            None => 0,
        }
    }

    /// The first landmark at `(x, y)`, if any.
    pub fn landmark_at(&self, x: i32, y: i32) -> (l: Option<&Landmark>)
        ensures
            l matches Some(v) ==> exists|k: int| 0 <= k < self.landmarks@.len() && *v == self.landmarks@[k]
                && v.x == x && v.y == y
                && forall|j: int| 0 <= j < k ==> !(self.landmarks@[j].x == x && self.landmarks@[j].y == y),
            l is None ==> forall|k: int| 0 <= k < self.landmarks@.len()
                ==> !(#[trigger] self.landmarks@[k].x == x && self.landmarks@[k].y == y),
    {
        let mut k: usize = 0;
        while k < self.landmarks.len()
            invariant
                k <= self.landmarks@.len(),
                forall|j: int| 0 <= j < k ==> !(#[trigger] self.landmarks@[j].x == x && self.landmarks@[j].y == y),
            decreases self.landmarks@.len() - k,
        {
            if self.landmarks[k].x == x && self.landmarks[k].y == y {
                return Some(&self.landmarks[k]);
            }
            k += 1;
        }
        None
    }

    /// The four cardinal neighbours of `(x, y)` that are on the map, in the
    /// order north, east, south, west.
    pub fn neighbors4(&self, x: i32, y: i32) -> (n: Vec<(i32, i32)>)
        requires
            i32::MIN < x < i32::MAX,
            i32::MIN < y < i32::MAX,
        ensures
            n@ == seq![(x, (y - 1) as i32), ((x + 1) as i32, y), (x, (y + 1) as i32), ((x - 1) as i32, y)].filter(
                |c: (i32, i32)| self.inside(c.0 as int, c.1 as int)),
    {
        let candidates = [(x, y - 1), (x + 1, y), (x, y + 1), (x - 1, y)];
        let ghost all = seq![(x, (y - 1) as i32), ((x + 1) as i32, y), (x, (y + 1) as i32), ((x - 1) as i32, y)];
        let ghost keep = |c: (i32, i32)| self.inside(c.0 as int, c.1 as int);
        let mut n: Vec<(i32, i32)> = Vec::new();
        let mut k: usize = 0;
        while k < 4
            invariant
                k <= 4,
                candidates@ == all,
                keep == (|c: (i32, i32)| self.inside(c.0 as int, c.1 as int)),
                n@ == all.take(k as int).filter(keep),
            decreases 4 - k,
        {
            let c = candidates[k];
            proof {
                assert(all.take(k as int + 1).drop_last() =~= all.take(k as int));
                reveal(Seq::filter);
            }
            if self.in_bounds(c.0, c.1) {
                n.push(c);
            }
            k += 1;
        }
        proof {
            assert(all.take(4) =~= all);
        }
        n
    }

    /// Assigns every cell to the first seed nearest to it (squared
    /// Euclidean distance), or to province 0 if there are no seeds.
    pub fn assign_provinces(&mut self, seeds: &Vec<(i32, i32)>)
        requires
            old(self).wf(),
        ensures
            final(self).wf(),
            final(self).province@ == voronoi(seeds@, old(self).spec_width(), old(self).spec_width() * old(self).spec_height()),
            final(self).width == old(self).width && final(self).height == old(self).height && final(self).seed == old(self).seed,
            final(self).biome == old(self).biome && final(self).river == old(self).river && final(self).road == old(self).road,
            final(self).landmarks == old(self).landmarks && final(self).province_seeds == old(self).province_seeds,
    {
        let ghost w = self.width as int;
        let ghost n = w * self.height as int;
        let ghost target = voronoi(seeds@, w, n);
        let mut y: i32 = 0;
        while y < self.height
            invariant
                self.wf(),
                w == self.width as int,
                n == w * self.height as int,
                target == voronoi(seeds@, w, n),
                0 <= y <= self.height,
                forall|i: int| 0 <= i < y * w ==> self.province@[i] == #[trigger] target[i],
                self.width == old(self).width && self.height == old(self).height && self.seed == old(self).seed,
                self.biome == old(self).biome && self.river == old(self).river && self.road == old(self).road,
                self.landmarks == old(self).landmarks && self.province_seeds == old(self).province_seeds,
            decreases self.height - y,
        {
            let mut x: i32 = 0;
            while x < self.width
                invariant
                    self.wf(),
                    w == self.width as int,
                    n == w * self.height as int,
                    target == voronoi(seeds@, w, n),
                    0 <= y < self.height,
                    0 <= x <= self.width,
                    forall|i: int| 0 <= i < y * w + x ==> self.province@[i] == #[trigger] target[i],
                    self.width == old(self).width && self.height == old(self).height && self.seed == old(self).seed,
                    self.biome == old(self).biome && self.river == old(self).river && self.road == old(self).road,
                    self.landmarks == old(self).landmarks && self.province_seeds == old(self).province_seeds,
                decreases self.width - x,
            {
                proof {
                    lemma_index_in_range(x as int, y as int, w, self.height as int);
                }
                let i = (y * self.width + x) as usize;
                let p = nearest_index(seeds, x, y);
                proof {
                    vstd::arithmetic::div_mod::lemma_fundamental_div_mod_converse(i as int, w, y as int, x as int);
                    assert(target[i as int] == first_nearest(seeds@, x as int, y as int, seeds@.len()) as usize);
                }
                self.province.set(i, p);
                x += 1;
            }
            proof {
                assert((y + 1) * w == y * w + w) by (nonlinear_arith);
            }
            y += 1;
        }
        proof {
            assert(y * w == n) by (nonlinear_arith)
                requires y == self.height, n == w * self.height;
            assert(self.province@ =~= target);
        }
    }

    /// One round of Lloyd relaxation of `seeds` over the current province
    /// layer: each seed moves to the centroid of its province's land cells.
    pub fn relax_seeds(&self, seeds: &Vec<(i32, i32)>) -> (r: Vec<(i32, i32)>)
        requires
            self.wf(),
            forall|i: int| 0 <= i < self.province@.len() ==> #[trigger] self.province@[i] < seeds@.len(),
        ensures
            r@ == centroids(self.biome@, self.province@, self.spec_width(), seeds@),
            forall|p: int| 0 <= p < r@.len() ==> #[trigger] land_sums(self.biome@, self.province@, self.spec_width(),
                self.biome@.len(), p).2 > 0 ==> self.inside(r@[p].0 as int, r@[p].1 as int),
    {
        let ghost w = self.width as int;
        let ghost h = self.height as int;
        let ghost b = self.biome@;
        let ghost o = self.province@;
        let mut sums: Vec<(i64, i64, i64)> = Vec::new();
        let mut q: usize = 0;
        while q < seeds.len()
            invariant
                q <= seeds@.len(),
                sums@.len() == q,
                forall|j: int| 0 <= j < q ==> #[trigger] sums@[j] == (0i64, 0i64, 0i64),
            decreases seeds@.len() - q,
        {
            sums.push((0, 0, 0));
            q += 1;
        }
        let n = (self.width * self.height) as usize;
        let mut i: usize = 0;
        let mut x: i32 = 0;
        let mut y: i32 = 0;
        while i < n
            invariant
                self.wf(),
                w == self.width as int,
                h == self.height as int,
                b == self.biome@,
                o == self.province@,
                n == w * h,
                i <= n,
                forall|j: int| 0 <= j < n ==> #[trigger] o[j] < seeds@.len(),
                i < n ==> 0 <= x < w && 0 <= y < h && i == y * w + x,
                sums@.len() == seeds@.len(),
                forall|p: int| 0 <= p < sums@.len() ==> {
                    let s = #[trigger] land_sums(b, o, w, i as nat, p);
                    &&& sums@[p].0 as int == s.0
                    &&& sums@[p].1 as int == s.1
                    &&& sums@[p].2 as int == s.2
                },
            decreases n - i,
        {
            proof {
                vstd::arithmetic::div_mod::lemma_fundamental_div_mod_converse(i as int, w, y as int, x as int);
                assert forall|p: int| 0 <= p < sums@.len() implies #[trigger] land_sums(b, o, w, (i + 1) as nat, p)
                    == (if !water(b[i as int]) && o[i as int] as int == p {
                        let s = land_sums(b, o, w, i as nat, p);
                        (s.0 + x, s.1 + y, s.2 + 1)
                    } else {
                        land_sums(b, o, w, i as nat, p)
                    }) by {
                }
            }
            if !self.biome[i].is_water() {
                let p = self.province[i];
                let (a, c, k) = sums[p];
                proof {
                    lemma_land_sums_bounds(b, o, w, h, i as nat, p as int);
                    assert(k <= i);
                    assert(a <= k * (w - 1) <= i * w) by (nonlinear_arith)
                        requires a <= k * (w - 1), 0 <= k <= i, 1 <= w;
                    assert(c <= k * (h - 1) <= i * h) by (nonlinear_arith)
                        requires c <= k * (h - 1), 0 <= k <= i, 1 <= h;
                    assert(w <= 0x1000_0000 && h <= 0x1000_0000) by (nonlinear_arith)
                        requires w * h <= 0x7FFF_FFFF, w >= 8, h >= 8;
                    assert(i * w <= 0x8000_0000 * 0x1000_0000 && i * h <= 0x8000_0000 * 0x1000_0000) by (nonlinear_arith)
                        requires i <= 0x8000_0000, 0 <= w <= 0x1000_0000, 0 <= h <= 0x1000_0000;
                }
                sums.set(p, (a + x as i64, c + y as i64, k + 1));
            }
            i += 1;
            x += 1;
            if x == self.width {
                x = 0;
                y += 1;
                proof {
                    assert(i == y * w) by (nonlinear_arith)
                        requires i == (y - 1) * w + (w - 1) + 1;
                    if i < n {
                        assert(y < h) by (nonlinear_arith)
                            requires i == y * w, i < n, n == w * h, w > 0;
                    }
                }
            }
        }
        let mut r: Vec<(i32, i32)> = Vec::new();
        let mut p: usize = 0;
        while p < seeds.len()
            invariant
                self.wf(),
                w == self.width as int,
                h == self.height as int,
                b == self.biome@,
                o == self.province@,
                n == w * h,
                i == n,
                p <= seeds@.len(),
                sums@.len() == seeds@.len(),
                r@.len() == p,
                forall|q2: int| 0 <= q2 < sums@.len() ==> {
                    let s = #[trigger] land_sums(b, o, w, i as nat, q2);
                    &&& sums@[q2].0 as int == s.0
                    &&& sums@[q2].1 as int == s.1
                    &&& sums@[q2].2 as int == s.2
                },
                forall|q2: int| 0 <= q2 < p ==> #[trigger] r@[q2] == centroids(b, o, w, seeds@)[q2],
                forall|q2: int| 0 <= q2 < p ==> #[trigger] land_sums(b, o, w, b.len(), q2).2 > 0
                    ==> self.inside(r@[q2].0 as int, r@[q2].1 as int),
            decreases seeds@.len() - p,
        {
            let (a, c, k) = sums[p];
            if k > 0 {
                proof {
                    lemma_land_sums_bounds(b, o, w, h, i as nat, p as int);
                    vstd::arithmetic::div_mod::lemma_div_is_ordered(a as int, k * (w - 1), k as int);
                    vstd::arithmetic::div_mod::lemma_div_by_multiple(w - 1, k as int);
                    vstd::arithmetic::div_mod::lemma_div_is_ordered(c as int, k * (h - 1), k as int);
                    vstd::arithmetic::div_mod::lemma_div_by_multiple(h - 1, k as int);
                    assert(k * (w - 1) == (w - 1) * k) by (nonlinear_arith);
                    assert(k * (h - 1) == (h - 1) * k) by (nonlinear_arith);
                    vstd::arithmetic::div_mod::lemma_div_pos_is_pos(a as int, k as int);
                    vstd::arithmetic::div_mod::lemma_div_pos_is_pos(c as int, k as int);
                }
                let cx = ((a as u64) / (k as u64)) as i32;
                let cy = ((c as u64) / (k as u64)) as i32;
                r.push((cx, cy));
            } else {
                r.push(seeds[p]);
            }
            p += 1;
        }
        proof {
            assert(r@ =~= centroids(b, o, w, seeds@));
        }
        r
    }

    /// Partitions the map into provinces: Voronoi assignment around the
    /// settlements (or the map center if there are none), two rounds of
    /// Lloyd relaxation toward each province's land centroid, and a final
    /// assignment. Records the seeds and tells each landmark its province.
    pub fn build_provinces(&mut self)
        requires
            old(self).wf(),
        ensures
            ({
                let w = old(self).spec_width();
                let n = w * old(self).spec_height();
                let seeds = relaxed_seeds(old(self).biome@, w, n,
                    initial_seeds(old(self).landmarks@, w, old(self).spec_height()), 2);
                &&& final(self).province_seeds@ == seeds
                &&& final(self).province@ == voronoi(seeds, w, n)
            }),
            final(self).wf(),
            final(self).width == old(self).width && final(self).height == old(self).height && final(self).seed == old(self).seed,
            final(self).biome == old(self).biome && final(self).river == old(self).river && final(self).road == old(self).road,
            final(self).landmarks@.len() == old(self).landmarks@.len(),
            forall|k: int| 0 <= k < final(self).landmarks@.len() ==> {
                let l = #[trigger] final(self).landmarks@[k];
                let o = old(self).landmarks@[k];
                &&& l.x == o.x && l.y == o.y && l.site == o.site && l.name == o.name
                &&& l.province == province_of(final(self).province@, old(self).spec_width(), o.x as int, o.y as int)
            },
    {
        let ghost w = self.width as int;
        let ghost h = self.height as int;
        let ghost n = w * h;
        let ghost b = self.biome@;
        let mut seeds: Vec<(i32, i32)> = Vec::new();
        let mut k: usize = 0;
        while k < self.landmarks.len()
            invariant
                k <= self.landmarks@.len(),
                seeds@ == settlement_positions(self.landmarks@.take(k as int)),
            decreases self.landmarks@.len() - k,
        {
            proof {
                assert(self.landmarks@.take(k as int + 1).drop_last() =~= self.landmarks@.take(k as int));
            }
            if self.landmarks[k].site.is_settlement() {
                seeds.push((self.landmarks[k].x, self.landmarks[k].y));
            }
            k += 1;
        }
        proof {
            assert(self.landmarks@.take(k as int) =~= self.landmarks@);
        }
        if seeds.len() == 0 {
            seeds.push((half(self.width), half(self.height)));
        }
        let ghost start = seeds@;
        assert(start == initial_seeds(self.landmarks@, w, h));
        let mut round: usize = 0;
        while round < 2
            invariant
                self.wf(),
                w == self.width as int,
                h == self.height as int,
                n == w * h,
                b == self.biome@,
                round <= 2,
                seeds@.len() > 0,
                relaxed_seeds(b, w, n, seeds@, (2 - round) as nat) == relaxed_seeds(b, w, n, start, 2),
                self.width == old(self).width && self.height == old(self).height && self.seed == old(self).seed,
                self.biome == old(self).biome && self.river == old(self).river && self.road == old(self).road,
                self.landmarks == old(self).landmarks,
            decreases 2 - round,
        {
            self.assign_provinces(&seeds);
            proof {
                assert(seeds@.len() <= usize::MAX) by {
                    assert(seeds.len() == seeds@.len());
                }
                assert forall|i: int| 0 <= i < self.province@.len() implies #[trigger] self.province@[i] < seeds@.len() by {
                    lemma_voronoi_is_nearest(seeds@, w, n, i);
                }
            }
            seeds = self.relax_seeds(&seeds);
            round += 1;
        }
        self.assign_provinces(&seeds);
        let ghost final_seeds = seeds@;
        self.province_seeds = seeds;
        let mut j: usize = 0;
        while j < self.landmarks.len()
            invariant
                self.wf(),
                w == self.width as int,
                h == self.height as int,
                n == w * h,
                j <= self.landmarks@.len(),
                self.landmarks@.len() == old(self).landmarks@.len(),
                self.province@ == voronoi(final_seeds, w, n),
                self.province_seeds@ == final_seeds,
                self.width == old(self).width && self.height == old(self).height && self.seed == old(self).seed,
                self.biome == old(self).biome && self.river == old(self).river && self.road == old(self).road,
                forall|k2: int| 0 <= k2 < self.landmarks@.len() ==> {
                    let l = #[trigger] self.landmarks@[k2];
                    let o = old(self).landmarks@[k2];
                    &&& l.x == o.x && l.y == o.y && l.site == o.site && l.name == o.name
                    &&& k2 < j ==> l.province == province_of(self.province@, w, o.x as int, o.y as int)
                },
            decreases self.landmarks@.len() - j,
        {
            let lx = self.landmarks[j].x;
            let ly = self.landmarks[j].y;
            proof {
                assert(w <= 0x1000_0000) by (nonlinear_arith)
                    requires w * h <= 0x7FFF_FFFF, w >= 8, h >= 8;
                assert(-0x8000_0000 * 0x1000_0000 <= ly * w <= 0x8000_0000 * 0x1000_0000) by (nonlinear_arith)
                    requires -0x8000_0000 <= ly < 0x8000_0000, 0 < w <= 0x1000_0000;
            }
            let at = (ly as i64) * (self.width as i64) + (lx as i64);
            let v = if 0 <= at && at < self.province.len() as i64 {
                self.province[at as usize]
            } else {
                0
            };
            self.landmarks[j].province = v;
            j += 1;
        }
    }

    /// Whether `(x, y)` is on the map and water; never off the map.
    pub open spec fn water_cell(&self, x: int, y: int) -> bool {
        self.inside(x, y) && water(self.biome@[self.index(x, y)])
    }

    /// Whether any of the four cardinal neighbours of `(x, y)` is water.
    pub open spec fn touches_water(&self, x: int, y: int) -> bool {
        ||| self.water_cell(x, y - 1)
        ||| self.water_cell(x + 1, y)
        ||| self.water_cell(x, y + 1)
        ||| self.water_cell(x - 1, y)
    }

    /// The settlement score of an on-map cell: its terrain's base score,
    /// plus 90 on a river and 60 next to water.
    pub open spec fn site_value(&self, x: int, y: int) -> int {
        let i = self.index(x, y);
        base_score(self.biome@[i]) + (if self.river@[i] { 90int } else { 0int }) + (if self.touches_water(x, y) {
            60int
        } else {
            0int
        })
    }

    /// Whether `(x, y)` is on the map and water.
    fn water_at(&self, x: i32, y: i32) -> (b: bool)
        requires
            self.wf(),
        ensures
            b == self.water_cell(x as int, y as int),
    {
        match self.idx(x, y) {
            Some(i) => self.biome[i].is_water(),
            None => false,
        }
    }

    /// How good `(x, y)` is for a settlement (before any jitter), or `None`
    /// where no site may stand: off the map, on water or on impassable
    /// ground. Rivers (fresh water) add 90 and a cardinal neighbour of water
    /// (a harbour) adds 60 to the terrain's base score.
    pub fn settlement_score(&self, x: i32, y: i32) -> (r: Option<i32>)
        requires
            self.wf(),
        ensures
            r is Some <==> self.inside(x as int, y as int) && site_ground(self.biome@[self.index(x as int, y as int)]),
            r matches Some(v) ==> v == self.site_value(x as int, y as int),
    {
        let i = match self.idx(x, y) {
            Some(i) => i,
            None => return None,
        };
        let biome = self.biome[i];
        if !biome.is_passable() || biome.is_water() {
            return None;
        }
        let mut score: i32 = match biome {
            Biome::Grassland => 100,
            Biome::Forest | Biome::Savanna => 80,
            Biome::Coast => 70,
            Biome::Taiga | Biome::Scrubland => 45,
            Biome::Desert | Biome::Tundra => 20,
            _ => 30,
        };
        if self.river[i] {
            score += 90;
        }
        if self.water_at(x, y - 1) || self.water_at(x + 1, y) || self.water_at(x, y + 1) || self.water_at(x - 1, y) {
            score += 60;
        }
        Some(score)
    }

    /// Places a settlement at each `chosen` site in rank order: the first is
    /// the capital, the next three cities, the rest towns, each with a name
    /// drawn from `rng` in turn.
    pub fn place_settlements(&mut self, chosen: &Vec<(i32, i32)>, rng: &mut Rng)
        ensures
            final(self).landmarks@.len() == old(self).landmarks@.len() + chosen@.len(),
            forall|k: int| 0 <= k < old(self).landmarks@.len() ==> #[trigger] final(self).landmarks@[k] == old(self).landmarks@[k],
            forall|r: int| 0 <= r < chosen@.len() ==> {
                let l = #[trigger] final(self).landmarks@[old(self).landmarks@.len() + r];
                &&& l.x == chosen@[r].0 && l.y == chosen@[r].1
                &&& l.site == rank_site(r)
                &&& l.name@ == name_from(names_state(old(rng).state(), r as nat))
                &&& l.province == 0
            },
            final(rng).state() == names_state(old(rng).state(), chosen@.len()),
            final(self).width == old(self).width && final(self).height == old(self).height && final(self).seed == old(self).seed,
            final(self).biome == old(self).biome && final(self).river == old(self).river && final(self).road == old(self).road,
            final(self).province == old(self).province && final(self).province_seeds == old(self).province_seeds,
    {
        let ghost s0 = rng.state();
        let ghost n0 = self.landmarks@.len();
        let mut r: usize = 0;
        while r < chosen.len()
            invariant
                r <= chosen@.len(),
                n0 == old(self).landmarks@.len(),
                s0 == old(rng).state(),
                self.landmarks@.len() == n0 + r,
                forall|k: int| 0 <= k < n0 ==> #[trigger] self.landmarks@[k] == old(self).landmarks@[k],
                forall|q: int| 0 <= q < r ==> {
                    let l = #[trigger] self.landmarks@[n0 + q];
                    &&& l.x == chosen@[q].0 && l.y == chosen@[q].1
                    &&& l.site == rank_site(q)
                    &&& l.name@ == name_from(names_state(s0, q as nat))
                    &&& l.province == 0
                },
                rng.state() == names_state(s0, r as nat),
                self.width == old(self).width && self.height == old(self).height && self.seed == old(self).seed,
                self.biome == old(self).biome && self.river == old(self).river && self.road == old(self).road,
                self.province == old(self).province && self.province_seeds == old(self).province_seeds,
            decreases chosen@.len() - r,
        {
            let (x, y) = chosen[r];
            let site = if r == 0 {
                Site::Capital
            } else if r <= 3 {
                Site::City
            } else {
                Site::Town
            };
            let name = generate_name(rng);
            self.landmarks.push(Landmark { x, y, site, name, province: 0 });
            r += 1;
        }
    }

    /// Scatters ruins, mines, shrines and forts over passable dry land, away
    /// from every landmark, drawing positions and names from `rng`: one per
    /// 2200 cells (at least 3, at most 14), in at most 40 tries each.
    pub fn scatter_minor_sites(&mut self, rng: &mut Rng)
        requires
            old(self).wf(),
        ensures
            ({
                let wanted = clamp((old(self).spec_width() * old(self).spec_height()) / 2200, 3, 14);
                let plan = scatter_run(old(self).biome@, old(self).spec_width(), old(self).spec_height(), positions(old(self).landmarks@), old(rng).state(), (wanted * 40) as nat, wanted);
                &&& final(self).landmarks@.len() == old(self).landmarks@.len() + plan.0.len()
                &&& forall|k: int| 0 <= k < old(self).landmarks@.len() ==> #[trigger] final(self).landmarks@[k] == old(self).landmarks@[k]
                &&& forall|q: int| 0 <= q < plan.0.len() ==> {
                    let l = #[trigger] final(self).landmarks@[old(self).landmarks@.len() + q];
                    &&& l.x == plan.0[q].0 && l.y == plan.0[q].1 && l.site == plan.0[q].2
                    &&& l.name@ == plan.0[q].3
                    &&& l.province == 0
                }
                &&& final(rng).state() == plan.1
            }),
            final(self).wf(),
            final(self).width == old(self).width && final(self).height == old(self).height && final(self).seed == old(self).seed,
            final(self).biome == old(self).biome && final(self).river == old(self).river && final(self).road == old(self).road,
            final(self).province == old(self).province && final(self).province_seeds == old(self).province_seeds,
    {
        let ghost w = self.width as int;
        let ghost h = self.height as int;
        let area = self.width * self.height;
        let wanted: i32 = clamp_i32(area / 2200, 3, 14);
        let tries: i32 = wanted * 40;
        let ghost s0 = rng.state();
        let ghost n0 = self.landmarks@.len();
        let ghost total = scatter_run(self.biome@, w, h, positions(self.landmarks@), s0, tries as nat, wanted as int);
        let ghost mut done: Seq<(i32, i32, Site, Seq<char>)> = Seq::empty();
        let mut placed: i32 = 0;
        let mut t: i32 = 0;
        while t < tries
            invariant
                self.wf(),
                w == self.width as int,
                h == self.height as int,
                0 <= t <= tries,
                0 <= placed <= wanted,
                wanted <= 14,
                n0 == old(self).landmarks@.len(),
                self.landmarks@.len() == n0 + done.len(),
                forall|k: int| 0 <= k < n0 ==> #[trigger] self.landmarks@[k] == old(self).landmarks@[k],
                forall|q: int| 0 <= q < done.len() ==> {
                    let l = #[trigger] self.landmarks@[n0 + q];
                    &&& l.x == done[q].0 && l.y == done[q].1 && l.site == done[q].2
                    &&& l.name@ == done[q].3
                    &&& l.province == 0
                },
                ({
                    let cur = scatter_run(self.biome@, w, h, positions(self.landmarks@), rng.state(), (tries - t) as nat, (wanted - placed) as int);
                    total.0 == done + cur.0 && total.1 == cur.1
                }),
                self.width == old(self).width && self.height == old(self).height && self.seed == old(self).seed,
                self.biome == old(self).biome && self.river == old(self).river && self.road == old(self).road,
                self.province == old(self).province && self.province_seeds == old(self).province_seeds,
            ensures
                t == tries || placed >= wanted,
            decreases tries - t,
        {
            if placed >= wanted {
                proof {
                    assert(done + Seq::<(i32, i32, Site, Seq<char>)>::empty() =~= done);
                }
                break;
            }
            let ghost taken = positions(self.landmarks@);
            let ghost st = rng.state();
            let ghost step = scatter_attempt(self.biome@, w, h, taken, st);
            let ghost cur0 = scatter_run(self.biome@, w, h, taken, st, (tries - t) as nat, (wanted - placed) as int);
            let x = rng.next_below(self.width as u32) as i32;
            let y = rng.next_below(self.height as u32) as i32;
            proof {
                lemma_draw_below(st, w);
                lemma_draw_below(xorshift(st), h);
                assert(x == draw(st, w) && y == draw(xorshift(st), h));
                assert(rng.state() == xorshift(xorshift(st)));
                assert(cur0 == (match step.0 {
                    None => scatter_run(self.biome@, w, h, taken, step.1, (tries - t - 1) as nat, (wanted - placed) as int),
                    Some(site) => {
                        let rest = scatter_run(self.biome@, w, h, taken.push((site.0, site.1)), name_state(step.1), (tries - t - 1) as nat, (wanted - placed - 1) as int);
                        (seq![(site.0, site.1, site.2, name_from(step.1))] + rest.0, rest.1)
                    },
                }));
            }
            t += 1;
            let i = match self.idx(x, y) {
                Some(i) => i,
                None => {
                    proof {
                        assert(false);
                    }
                    continue;
                },
            };
            let biome = self.biome[i];
            proof {
                assert(i as int == self.index(x as int, y as int));
            }
            if !biome.is_passable() || biome.is_water() {
                proof {
                    assert(step.0 is None && step.1 == rng.state());
                }
                continue;
            }
            let mut near = false;
            let mut j: usize = 0;
            while j < self.landmarks.len()
                invariant
                    j <= self.landmarks@.len(),
                    taken == positions(self.landmarks@),
                    near == !spaced(taken.take(j as int), x as int, y as int, 4),
                decreases self.landmarks@.len() - j,
            {
                let lx = self.landmarks[j].x as i64;
                let ly = self.landmarks[j].y as i64;
                let dx = if lx >= x as i64 { lx - x as i64 } else { x as i64 - lx };
                let dy = if ly >= y as i64 { ly - y as i64 } else { y as i64 - ly };
                proof {
                    let c2 = taken.take(j as int + 1);
                    let c1 = taken.take(j as int);
                    assert(c2[j as int] == taken[j as int]);
                    assert(taken[j as int] == (self.landmarks@[j as int].x, self.landmarks@[j as int].y));
                    assert(manhattan(c2[j as int].0 as int, c2[j as int].1 as int, x as int, y as int) == dx + dy);
                    assert forall|q: int| 0 <= q < j implies #[trigger] c2[q] == c1[q] by {}
                    if !near && dx + dy >= 4 {
                        assert forall|q: int| 0 <= q < c2.len() implies manhattan(#[trigger] c2[q].0 as int, c2[q].1 as int,
                            x as int, y as int) >= 4 by {
                            if q < j {
                                assert(c2[q] == c1[q]);
                            }
                        }
                    }
                    if near {
                        let q = choose|q: int| 0 <= q < c1.len() && !(manhattan(#[trigger] c1[q].0 as int,
                            c1[q].1 as int, x as int, y as int) >= 4);
                        assert(c2[q] == c1[q]);
                        assert(!(manhattan(c2[q].0 as int, c2[q].1 as int, x as int, y as int) >= 4));
                    }
                }
                if dx + dy < 4 {
                    near = true;
                }
                j += 1;
            }
            proof {
                assert(taken.take(j as int) =~= taken);
            }
            if near {
                proof {
                    assert(step.0 is None && step.1 == rng.state());
                }
                continue;
            }
            let site = match biome {
                Biome::Mountain | Biome::Scrubland => Site::Mine,
                Biome::Jungle | Biome::Desert => Site::Ruin,
                Biome::Forest | Biome::Taiga => Site::Shrine,
                _ => {
                    if rng.next_below(2) == 0 {
                        Site::Fort
                    } else {
                        Site::Ruin
                    }
                },
            };
            let ghost s2 = rng.state();
            proof {
                assert(step.0 == Some((x, y, site)) && step.1 == s2);
            }
            let name = generate_name(rng);
            let ghost done0 = done;
            proof {
                done = done.push((x, y, site, name@));
                assert(rng.state() == name_state(s2));
                assert(name@ == name_from(s2));
            }
            self.landmarks.push(Landmark { x, y, site, name, province: 0 });
            proof {
                assert(positions(self.landmarks@) =~= taken.push((x, y)));
                let rest = scatter_run(self.biome@, w, h, positions(self.landmarks@), rng.state(), (tries - t) as nat, (wanted - placed - 1) as int);
                assert(cur0.0 == seq![(x, y, site, name_from(s2))] + rest.0);
                assert(cur0.1 == rest.1);
                assert(total.0 == done0 + cur0.0);
                assert(done0 + (seq![(x, y, site, name_from(s2))] + rest.0) =~= done + rest.0);
            }
            placed += 1;
        }
        proof {
            assert(done + Seq::<(i32, i32, Site, Seq<char>)>::empty() =~= done);
        }
    }

    /// The `(score, x, y)` entries of the first `k` cells, in row-major
    /// order, for the cells where a site may stand: each cell's
    /// [`site_value`](Self::site_value) plus its `jitter`.
    pub open spec fn scored_cells(&self, jitter: Seq<i32>, k: nat) -> Seq<(i32, i32, i32)>
        decreases k,
    {
        if k == 0 {
            Seq::empty()
        } else {
            let prev = self.scored_cells(jitter, (k - 1) as nat);
            let i = k - 1;
            let x = i % self.spec_width();
            let y = i / self.spec_width();
            if site_ground(self.biome@[i]) {
                prev.push(((self.site_value(x, y) + jitter[i]) as i32, x as i32, y as i32))
            } else {
                prev
            }
        }
    }

    /// Whether `landmarks` is what [`place_landmarks`](Self::place_landmarks)
    /// makes of this map's landmarks when the candidate sites come in the
    /// order `ranked`: the settlements picked from `ranked`, then the minor
    /// sites scattered around everything placed, all named from one
    /// generator seeded from the map seed.
    pub open spec fn placed_by(&self, ranked: Seq<(i32, i32, i32)>, landmarks: Seq<Landmark>) -> bool {
        let w = self.spec_width();
        let h = self.spec_height();
        let chosen = greedy_sites(ranked, settle_wanted(w, h), settle_spacing(w, h));
        let s0 = seeded(self.seed ^ 0x1D8E_3B41u32);
        let n0 = self.landmarks@.len();
        let n1 = n0 + chosen.len();
        let minor = clamp((w * h) / 2200, 3, 14);
        let plan = scatter_run(self.biome@, w, h, positions(self.landmarks@) + chosen, names_state(s0, chosen.len()),
            (minor * 40) as nat, minor);
        &&& landmarks.len() == n1 + plan.0.len()
        &&& forall|k: int| 0 <= k < n0 ==> #[trigger] landmarks[k] == self.landmarks@[k]
        &&& forall|r: int| 0 <= r < chosen.len() ==> {
            let l = #[trigger] landmarks[n0 + r];
            &&& l.x == chosen[r].0 && l.y == chosen[r].1
            &&& l.site == rank_site(r)
            &&& l.name@ == name_from(names_state(s0, r as nat))
            &&& l.province == 0
        }
        &&& forall|q: int| 0 <= q < plan.0.len() ==> {
            let l = #[trigger] landmarks[n1 + q];
            &&& l.x == plan.0[q].0 && l.y == plan.0[q].1 && l.site == plan.0[q].2
            &&& l.name@ == plan.0[q].3
            &&& l.province == 0
        }
    }

    /// Places the settlements and then the minor sites.
    ///
    /// Every cell where a site may stand is scored
    /// ([`settlement_score`](Self::settlement_score) plus that cell's
    /// `jitter`, which breaks up ties between similar cells), the candidates
    /// are ranked best first, and the best are taken greedily, each at least
    /// `min(width, height) / 6` (and at least 5) from the ones before, up to
    /// one per 1400 cells (at least 4, at most 20). Then minor sites are
    /// scattered. Names come from one generator seeded from the map seed.
    pub fn place_landmarks(&mut self, jitter: &Vec<i32>)
        requires
            old(self).wf(),
            jitter@.len() == old(self).spec_width() * old(self).spec_height(),
            forall|i: int| 0 <= i < jitter@.len() ==> 0 <= #[trigger] jitter@[i] < 40,
        ensures
            old(self).placed_by(ranking(old(self).scored_cells(jitter@, jitter@.len())), final(self).landmarks@),
            final(self).wf(),
            final(self).width == old(self).width && final(self).height == old(self).height && final(self).seed == old(self).seed,
            final(self).biome == old(self).biome && final(self).river == old(self).river && final(self).road == old(self).road,
            final(self).province == old(self).province && final(self).province_seeds == old(self).province_seeds,
    {
        let ghost w = self.width as int;
        let ghost h = self.height as int;
        let ghost n = w * h;
        let mut rng = Rng::new(self.seed ^ 0x1D8E_3B41u32);
        let spacing = settle_spacing_of(self.width, self.height);
        let wanted = settle_wanted_of(self.width, self.height);
        let mut scored: Vec<(i32, i32, i32)> = Vec::new();
        let mut y: i32 = 0;
        while y < self.height
            invariant
                self.wf(),
                w == self.width as int,
                h == self.height as int,
                n == w * h,
                jitter@.len() == n,
                forall|i: int| 0 <= i < jitter@.len() ==> 0 <= #[trigger] jitter@[i] < 40,
                0 <= y <= self.height,
                scored@ == self.scored_cells(jitter@, (y * w) as nat),
            decreases self.height - y,
        {
            let mut x: i32 = 0;
            while x < self.width
                invariant
                    self.wf(),
                    w == self.width as int,
                    h == self.height as int,
                    n == w * h,
                    jitter@.len() == n,
                    forall|i: int| 0 <= i < jitter@.len() ==> 0 <= #[trigger] jitter@[i] < 40,
                    0 <= y < self.height,
                    0 <= x <= self.width,
                    scored@ == self.scored_cells(jitter@, (y * w + x) as nat),
                decreases self.width - x,
            {
                proof {
                    lemma_index_in_range(x as int, y as int, w, h);
                    vstd::arithmetic::div_mod::lemma_fundamental_div_mod_converse(y * w + x, w, y as int, x as int);
                }
                let i = (y * self.width + x) as usize;
                match self.settlement_score(x, y) {
                    Some(v) => {
                        scored.push((v + jitter[i], x, y));
                    },
                    None => {},
                }
                x += 1;
            }
            proof {
                assert((y + 1) * w == y * w + w) by (nonlinear_arith);
            }
            y += 1;
        }
        proof {
            assert(y * w == n) by (nonlinear_arith)
                requires y == self.height, n == w * self.height;
        }
        let ghost all = scored@;
        sort_best_first(&mut scored);
        let ghost ranked = scored@;
        let chosen = pick_spaced(&scored, wanted as usize, spacing);
        let ghost mid = self.landmarks@;
        self.place_settlements(&chosen, &mut rng);
        proof {
            let n0 = mid.len();
            assert forall|k: int| 0 <= k < self.landmarks@.len() implies #[trigger] positions(self.landmarks@)[k]
                == (positions(mid) + chosen@)[k] by {
                if k < n0 {
                    assert(self.landmarks@[k] == mid[k]);
                } else {
                    assert(self.landmarks@[n0 + (k - n0)].x == chosen@[k - n0].0);
                }
            }
            assert(positions(self.landmarks@) =~= positions(mid) + chosen@);
        }
        self.scatter_minor_sites(&mut rng);
        proof {
            let sc = old(self).scored_cells(jitter@, jitter@.len());
            assert(ranks(sc, ranked));
            lemma_ranks_unique(sc, ranked, ranking(sc));
            assert(old(self).placed_by(ranked, self.landmarks@));
        }
    }

    /// What a road pays to enter `c`; see [`road_cost`].
    fn step_cost(&self, c: Cell) -> (v: u32)
        ensures
            self.wf() ==> v == road_cost(self.biome@, self.road@, self.spec_width(), self.spec_height(), c),
    {
        if c.x < 0 || c.y < 0 || c.x >= self.width || c.y >= self.height {
            return IMPASSABLE;
        }
        proof {
            assert(0 <= c.y * self.width <= 0x8000_0000 * 0x8000_0000) by (nonlinear_arith)
                requires 0 <= c.y < 0x8000_0000, 0 <= self.width < 0x8000_0000;
        }
        let at = (c.y as i64) * (self.width as i64) + (c.x as i64);
        if (at as u64) >= (self.biome.len() as u64) || (at as u64) >= (self.road.len() as u64) {
            proof {
                if self.wf() {
                    lemma_index_in_range(c.x as int, c.y as int, self.width as int, self.height as int);
                }
            }
            return IMPASSABLE;
        }
        let i = at as usize;
        let b = self.biome[i];
        if !b.is_passable() {
            IMPASSABLE
        } else if self.road[i] {
            (b.move_cost() + 2) / 3
        } else {
            b.move_cost()
        }
    }

    /// A least-cost road between two cells over [`road_cost`], as the cells
    /// from `from` to `to` inclusive: `[from]` when they are the same cell,
    /// `None` if either is off the map or no road can join them.
    pub fn route(&self, from: (i32, i32), to: (i32, i32)) -> (r: Option<Vec<(i32, i32)>>)
        requires
            self.wf(),
        ensures
            r is None <==> !self.inside(from.0 as int, from.1 as int) || !self.inside(to.0 as int, to.1 as int)
                || (from != to && !route_exists(road_costs(self.biome@, self.road@, self.spec_width(), self.spec_height()),
                    Diagonals::Never, self.spec_width(), self.spec_height(), cell_at(from), cell_at(to))),
            r matches Some(p) ==> (from == to && p@ == seq![from]) || (from != to && exists|walk: Seq<Cell>|
                #[trigger] cheapest_walk(self.biome@, self.road@, self.spec_width(), self.spec_height(), cell_at(from),
                    cell_at(to), walk) && p@ == xy(walk)),
    {
        if !self.in_bounds(from.0, from.1) || !self.in_bounds(to.0, to.1) {
            return None;
        }
        if from.0 == to.0 && from.1 == to.1 {
            let mut one: Vec<(i32, i32)> = Vec::new();
            one.push(from);
            return Some(one);
        }
        let ghost w = self.width as int;
        let ghost h = self.height as int;
        let ghost sc = road_costs(self.biome@, self.road@, w, h);
        let a = Cell { x: from.0, y: from.1 };
        let b = Cell { x: to.0, y: to.1 };
        let cost = |c: Cell| -> (v: u32)
            ensures
                self.wf() ==> v == road_cost(self.biome@, self.road@, self.width as int, self.height as int, c),
            { self.step_cost(c) };
        proof {
            assert forall|c: Cell, v: u32| call_ensures(cost, (c,), v) implies v == sc(c) by {}
            assert forall|c: Cell, v1: u32, v2: u32| call_ensures(cost, (c,), v1) && call_ensures(cost, (c,), v2)
                implies v1 == v2 by {}
            lemma_index_in_range(0, 0, w, h);
            assert(w * h <= i32::MAX);
        }
        match find_by(a, b, self.width, self.height, Diagonals::Never, IMPASSABLE, cost, Ghost(sc)) {
            None => None,
            Some(p) => {
                let ghost walk = seq![a] + p.steps@;
                let mut out: Vec<(i32, i32)> = Vec::new();
                out.push(from);
                let mut k: usize = 0;
                while k < p.steps.len()
                    invariant
                        k <= p.steps@.len(),
                        walk == seq![a] + p.steps@,
                        a == cell_at(from),
                        out@ == xy(walk.take(k as int + 1)),
                    decreases p.steps@.len() - k,
                {
                    let c = p.steps[k];
                    proof {
                        assert(walk.take(k as int + 2) =~= walk.take(k as int + 1).push(c));
                    }
                    out.push((c.x, c.y));
                    proof {
                        assert(xy(walk.take(k as int + 2)) =~= xy(walk.take(k as int + 1)).push((c.x, c.y)));
                    }
                    k += 1;
                }
                proof {
                    assert(walk.take(k as int + 1) =~= walk);
                    assert(walk.drop_first() =~= p.steps@);
                    assert(cheapest_walk(self.biome@, self.road@, w, h, cell_at(from), cell_at(to), walk));
                }
                Some(out)
            },
        }
    }

    /// Positions of the settlements among the landmarks, in order.
    pub fn settlement_sites(&self) -> (towns: Vec<(i32, i32)>)
        ensures
            towns@ == settlement_positions(self.landmarks@),
    {
        let mut towns: Vec<(i32, i32)> = Vec::new();
        let mut k: usize = 0;
        while k < self.landmarks.len()
            invariant
                k <= self.landmarks@.len(),
                towns@ == settlement_positions(self.landmarks@.take(k as int)),
            decreases self.landmarks@.len() - k,
        {
            proof {
                assert(self.landmarks@.take(k as int + 1).drop_last() =~= self.landmarks@.take(k as int));
            }
            if self.landmarks[k].site.is_settlement() {
                towns.push((self.landmarks[k].x, self.landmarks[k].y));
            }
            k += 1;
        }
        proof {
            assert(self.landmarks@.take(k as int) =~= self.landmarks@);
        }
        towns
    }

    /// Lays a cheapest road from `a` to `b` onto the road layer, if one
    /// exists; see [`route`](Self::route).
    pub fn lay_road(&mut self, a: (i32, i32), b: (i32, i32))
        requires
            old(self).wf(),
        ensures
            final(self).wf(),
            lays_road(old(self).biome@, old(self).road@, old(self).spec_width(), old(self).spec_height(), a, b, final(self).road@),
            final(self).width == old(self).width && final(self).height == old(self).height && final(self).seed == old(self).seed,
            final(self).biome == old(self).biome && final(self).river == old(self).river,
            final(self).province == old(self).province && final(self).province_seeds == old(self).province_seeds,
            final(self).landmarks == old(self).landmarks,
    {
        let ghost w = self.width as int;
        let ghost h = self.height as int;
        let ghost road0 = self.road@;
        let ghost b0 = self.biome@;
        match self.route(a, b) {
            None => {},
            Some(path) => {
                let mut k: usize = 0;
                while k < path.len()
                    invariant
                        self.wf(),
                        w == self.width as int,
                        h == self.height as int,
                        k <= path@.len(),
                        self.road@ == mark_cells(road0, w, h, path@.take(k as int)),
                        self.width == old(self).width && self.height == old(self).height && self.seed == old(self).seed,
                        self.biome == old(self).biome && self.river == old(self).river,
                        self.province == old(self).province && self.province_seeds == old(self).province_seeds,
                        self.landmarks == old(self).landmarks,
                    decreases path@.len() - k,
                {
                    proof {
                        assert(path@.take(k as int + 1).drop_last() =~= path@.take(k as int));
                    }
                    let (x, y) = path[k];
                    match self.idx(x, y) {
                        Some(i) => {
                            self.road.set(i, true);
                        },
                        None => {},
                    }
                    k += 1;
                }
                proof {
                    assert(path@.take(k as int) =~= path@);
                }
            },
        }
    }

    /// Joins each settlement to its nearest and next nearest settlement
    /// (Manhattan, ties to the earlier one) by cheapest roads, in settlement
    /// order, so that later routes can follow earlier roads.
    pub fn build_roads(&mut self)
        requires
            old(self).wf(),
        ensures
            ({
                let towns = settlement_positions(old(self).landmarks@);
                exists|layers: Seq<Seq<bool>>| #[trigger] roads_laid(old(self).biome@, old(self).spec_width(), old(self).spec_height(),
                    road_pairs(towns, towns.len()), layers) && layers[0] == old(self).road@ && layers.last() == final(self).road@
            }),
            final(self).wf(),
            final(self).width == old(self).width && final(self).height == old(self).height && final(self).seed == old(self).seed,
            final(self).biome == old(self).biome && final(self).river == old(self).river,
            final(self).province == old(self).province && final(self).province_seeds == old(self).province_seeds,
            final(self).landmarks == old(self).landmarks,
    {
        let ghost w = self.width as int;
        let ghost h = self.height as int;
        let ghost b0 = self.biome@;
        let towns = self.settlement_sites();
        let ghost t = towns@;
        let n = towns.len();
        let ghost mut layers: Seq<Seq<bool>> = seq![self.road@];
        let mut i: usize = 0;
        while i < n
            invariant
                self.wf(),
                w == self.width as int,
                h == self.height as int,
                b0 == self.biome@,
                t == towns@,
                n == t.len(),
                i <= n,
                layers.len() >= 1,
                layers[0] == old(self).road@,
                layers.last() == self.road@,
                roads_laid(b0, w, h, road_pairs(t, i as nat), layers),
                self.width == old(self).width && self.height == old(self).height && self.seed == old(self).seed,
                self.biome == old(self).biome && self.river == old(self).river,
                self.province == old(self).province && self.province_seeds == old(self).province_seeds,
                self.landmarks == old(self).landmarks,
            decreases n - i,
        {
            let ghost before = road_pairs(t, i as nat);
            let ghost targets = road_targets(t, i as int);
            let first = nearest_other_index(&towns, i, n);
            match first {
                None => {
                    proof {
                        assert(road_pairs(t, (i + 1) as nat) =~= before);
                    }
                },
                Some(a) => {
                    let ghost r0 = self.road@;
                    self.lay_road(towns[i], towns[a]);
                    proof {
                        layers = layers.push(self.road@);
                        assert(targets[0] == (t[i as int], t[a as int]));
                    }
                    let second = nearest_other_index(&towns, i, a);
                    match second {
                        None => {
                            proof {
                                assert(targets =~= seq![(t[i as int], t[a as int])]);
                            }
                        },
                        Some(c) => {
                            self.lay_road(towns[i], towns[c]);
                            proof {
                                layers = layers.push(self.road@);
                                assert(targets =~= seq![(t[i as int], t[a as int]), (t[i as int], t[c as int])]);
                            }
                        },
                    }
                    proof {
                        let pairs = road_pairs(t, (i + 1) as nat);
                        assert(pairs =~= before + targets);
                        assert forall|k: int| 0 <= k < pairs.len() implies lays_road(b0, #[trigger] layers[k], w, h, pairs[k].0,
                            pairs[k].1, layers[k + 1]) by {
                            if k < before.len() {
                                assert(pairs[k] == before[k]);
                            }
                        }
                    }
                },
            }
            i += 1;
        }
    }

    /// Where water flows from on-map `(x, y)`: to the first cardinal
    /// neighbour (north, east, south, west) whose `descent` key is lowest
    /// among those below the `level` key of `(x, y)`, if any.
    fn flow(&self, level: &Vec<i64>, descent: &Vec<i64>, x: i32, y: i32) -> (r: Option<(i32, i32)>)
        requires
            self.wf(),
            self.inside(x as int, y as int),
            level@.len() == self.spec_width() * self.spec_height(),
            descent@.len() == self.spec_width() * self.spec_height(),
        ensures
            r is None <==> flow_upto(self.spec_width(), self.spec_height(), level@, descent@, self.index(x as int, y as int), 4) is None,
            r matches Some(c) ==> self.inside(c.0 as int, c.1 as int) && flow_upto(self.spec_width(), self.spec_height(), level@,
                descent@, self.index(x as int, y as int), 4) == Some(self.index(c.0 as int, c.1 as int)),
    {
        let ghost w = self.width as int;
        let ghost h = self.height as int;
        let ghost i = self.index(x as int, y as int);
        proof {
            lemma_index_in_range(x as int, y as int, w, h);
            vstd::arithmetic::div_mod::lemma_fundamental_div_mod_converse(i, w, y as int, x as int);
        }
        let here = level[(y * self.width + x) as usize];
        let mut best: Option<(i32, i32)> = None;
        let mut best_key: i64 = 0;
        let mut d: usize = 0;
        while d < 4
            invariant
                self.wf(),
                w == self.width as int,
                h == self.height as int,
                self.inside(x as int, y as int),
                i == self.index(x as int, y as int),
                i % w == x && i / w == y,
                level@.len() == w * h,
                descent@.len() == w * h,
                here == level@[i],
                d <= 4,
                best is None <==> flow_upto(w, h, level@, descent@, i, d as nat) is None,
                best matches Some(c) ==> self.inside(c.0 as int, c.1 as int) && flow_upto(w, h, level@, descent@, i, d as nat)
                    == Some(self.index(c.0 as int, c.1 as int)) && best_key == descent@[self.index(c.0 as int, c.1 as int)],
            decreases 4 - d,
        {
            let (nx, ny) = if d == 0 {
                (x, y - 1)
            } else if d == 1 {
                (x + 1, y)
            } else if d == 2 {
                (x, y + 1)
            } else {
                (x - 1, y)
            };
            if self.in_bounds(nx, ny) {
                proof {
                    lemma_index_in_range(nx as int, ny as int, w, h);
                    assert(step_from(w, h, i, d as int) == Some(self.index(nx as int, ny as int)));
                }
                let j = (ny * self.width + nx) as usize;
                let key = descent[j];
                let better = match best {
                    None => true,
                    Some(_) => key < best_key,
                };
                if key < here && better {
                    best = Some((nx, ny));
                    best_key = key;
                }
            } else {
                proof {
                    assert(step_from(w, h, i, d as int) is None);
                }
            }
            d += 1;
        }
        best
    }

    /// Traces a river downhill from on-map `(x, y)` for at most `steps`
    /// steps; see [`trace`].
    fn trace_river(&self, level: &Vec<i64>, descent: &Vec<i64>, x: i32, y: i32, steps: i32) -> (r: (Vec<usize>, bool, Option<usize>))
        requires
            self.wf(),
            self.inside(x as int, y as int),
            level@.len() == self.spec_width() * self.spec_height(),
            descent@.len() == self.spec_width() * self.spec_height(),
            steps >= 0,
        ensures
            ({
                let t = trace(self.biome@, self.spec_width(), self.spec_height(), level@, descent@, self.index(x as int, y as int),
                    steps as nat);
                &&& indices(r.0@) == t.0
                &&& r.1 == t.1
                &&& (r.2 is None <==> t.2 is None)
                &&& r.2 matches Some(l) ==> t.2 == Some(l as int)
            }),
            forall|k: int| 0 <= k < r.0@.len() ==> #[trigger] r.0@[k] < self.spec_width() * self.spec_height(),
            r.2 matches Some(l) ==> l < self.spec_width() * self.spec_height(),
    {
        let ghost w = self.width as int;
        let ghost h = self.height as int;
        let ghost total = trace(self.biome@, w, h, level@, descent@, self.index(x as int, y as int), steps as nat);
        let mut path: Vec<usize> = Vec::new();
        let mut sea = false;
        let mut lake: Option<usize> = None;
        let mut cx = x;
        let mut cy = y;
        let mut step: i32 = 0;
        while step < steps
            invariant_except_break
                ({
                    let cur = trace(self.biome@, w, h, level@, descent@, self.index(cx as int, cy as int), (steps - step) as nat);
                    &&& total.0 == indices(path@) + cur.0
                    &&& total.1 == cur.1
                    &&& total.2 == cur.2
                }),
                !sea && lake is None,
            invariant
                self.wf(),
                w == self.width as int,
                h == self.height as int,
                level@.len() == w * h,
                descent@.len() == w * h,
                self.inside(cx as int, cy as int),
                0 <= step <= steps,
                forall|k: int| 0 <= k < path@.len() ==> #[trigger] path@[k] < w * h,
                lake matches Some(l) ==> l < w * h,
            ensures
                total.0 == indices(path@),
                total.1 == sea,
                (lake is None <==> total.2 is None),
                lake matches Some(l) ==> total.2 == Some(l as int),
            decreases steps - step,
        {
            proof {
                lemma_index_in_range(cx as int, cy as int, w, h);
            }
            let i = (cy * self.width + cx) as usize;
            if self.biome[i].is_water() {
                sea = true;
                proof {
                    assert(indices(path@) + Seq::<int>::empty() =~= indices(path@));
                }
                break;
            }
            path.push(i);
            proof {
                assert(indices(path@) =~= indices(path@.drop_last()).push(i as int));
            }
            match self.flow(level, descent, cx, cy) {
                Some((nx, ny)) => {
                    proof {
                        let rest = trace(self.biome@, w, h, level@, descent@, self.index(nx as int, ny as int), (steps - step - 1) as nat);
                        assert(indices(path@.drop_last()) + (seq![i as int] + rest.0) =~= indices(path@) + rest.0);
                    }
                    cx = nx;
                    cy = ny;
                },
                None => {
                    lake = Some(i);
                    proof {
                        assert(indices(path@.drop_last()) + seq![i as int] =~= indices(path@));
                    }
                    break;
                },
            }
            step += 1;
        }
        (path, sea, lake)
    }

    /// Carves rivers downhill from high, wet sources; see [`river_run`].
    ///
    /// `high` marks the cells high enough to feed a river and `wet` those
    /// wet enough; `level` and `descent` are integer keys that order the
    /// cells as their elevation, and their elevation plus a small jitter,
    /// order them: water flows to the neighbour of lowest `descent` below the
    /// `level` of the cell it leaves. One river per 900 cells is wanted (at
    /// least 3, at most 24), in at most 12 tries each, traced for at most
    /// twice the map's width plus height steps, with positions drawn from a
    /// generator seeded from the map seed.
    pub fn carve_rivers(&mut self, high: &Vec<bool>, wet: &Vec<bool>, level: &Vec<i64>, descent: &Vec<i64>)
        requires
            old(self).wf(),
            high@.len() == old(self).spec_width() * old(self).spec_height(),
            wet@.len() == old(self).spec_width() * old(self).spec_height(),
            level@.len() == old(self).spec_width() * old(self).spec_height(),
            descent@.len() == old(self).spec_width() * old(self).spec_height(),
        ensures
            ({
                let w = old(self).spec_width();
                let h = old(self).spec_height();
                let target = clamp((w * h) / 900, 3, 24);
                let r = river_run(old(self).biome@, old(self).river@, w, h, high@, wet@, level@, descent@,
                    seeded(old(self).seed ^ 0x7F4A_7C15u32), (target * 12) as nat, target, ((w + h) * 2) as nat);
                &&& final(self).biome@ == r.0
                &&& final(self).river@ == r.1
            }),
            final(self).wf(),
            final(self).width == old(self).width && final(self).height == old(self).height && final(self).seed == old(self).seed,
            final(self).road == old(self).road && final(self).province == old(self).province,
            final(self).landmarks == old(self).landmarks && final(self).province_seeds == old(self).province_seeds,
    {
        let ghost w = self.width as int;
        let ghost h = self.height as int;
        let ghost n = w * h;
        let mut rng = Rng::new(self.seed ^ 0x7F4A_7C15u32);
        let target = clamp_i32((self.width * self.height) / 900, 3, 24);
        proof {
            assert(w <= 0x1000_0000 && h <= 0x1000_0000) by (nonlinear_arith)
                requires w * h <= MAX_CELLS, w >= 8, h >= 8;
        }
        let max_steps = (self.width + self.height) * 2;
        let tries = target * 12;
        let ghost total = river_run(self.biome@, self.river@, w, h, high@, wet@, level@, descent@, rng.state(), tries as nat,
            target as int, max_steps as nat);
        let mut placed: i32 = 0;
        let mut t: i32 = 0;
        while t < tries
            invariant
                self.wf(),
                w == self.width as int,
                h == self.height as int,
                n == w * h,
                high@.len() == n && wet@.len() == n && level@.len() == n && descent@.len() == n,
                0 <= t <= tries,
                0 <= placed <= target,
                target <= 24,
                max_steps >= 0,
                total == river_run(self.biome@, self.river@, w, h, high@, wet@, level@, descent@, rng.state(), (tries - t) as nat,
                    (target - placed) as int, max_steps as nat),
                self.width == old(self).width && self.height == old(self).height && self.seed == old(self).seed,
                self.road == old(self).road && self.province == old(self).province,
                self.landmarks == old(self).landmarks && self.province_seeds == old(self).province_seeds,
            ensures
                t == tries || placed >= target,
            decreases tries - t,
        {
            if placed >= target {
                break;
            }
            let ghost st = rng.state();
            let x = rng.next_below(self.width as u32) as i32;
            let y = rng.next_below(self.height as u32) as i32;
            proof {
                lemma_draw_below(st, w);
                lemma_draw_below(xorshift(st), h);
                lemma_index_in_range(x as int, y as int, w, h);
            }
            proof {
                assert(x == draw(st, w) && y == draw(xorshift(st), h));
                assert(rng.state() == xorshift(xorshift(st)));
            }
            t += 1;
            let i = (y * self.width + x) as usize;
            if !(high[i] && (wet[i] || self.river[i])) {
                continue;
            }
            let ghost b0 = self.biome@;
            let ghost r0 = self.river@;
            let (path, sea, lake) = self.trace_river(level, descent, x, y, max_steps);
            let ghost tr = trace(b0, w, h, level@, descent@, i as int, max_steps as nat);
            match lake {
                Some(l) => {
                    self.biome.set(l, Biome::Lake);
                },
                None => {},
            }
            let ghost b1 = self.biome@;
            if path.len() >= 6 || (sea && path.len() >= 4) {
                let ghost river0 = self.river@;
                let mut k: usize = 0;
                while k < path.len()
                    invariant
                        self.wf(),
                        w == self.width as int,
                        h == self.height as int,
                        k <= path@.len(),
                        forall|q: int| 0 <= q < path@.len() ==> #[trigger] path@[q] < w * h,
                        river0.len() == w * h,
                        self.biome@ == b1,
                        self.river@ == mark_path(river0, indices(path@.take(k as int))),
                        self.width == old(self).width && self.height == old(self).height && self.seed == old(self).seed,
                        self.road == old(self).road && self.province == old(self).province,
                        self.landmarks == old(self).landmarks && self.province_seeds == old(self).province_seeds,
                    decreases path@.len() - k,
                {
                    let c = path[k];
                    proof {
                        assert(indices(path@.take(k as int + 1)) =~= indices(path@.take(k as int)).push(c as int));
                    }
                    let ghost before = self.river@;
                    self.river.set(c, true);
                    proof {
                        let p0 = indices(path@.take(k as int));
                        let p1 = p0.push(c as int);
                        assert forall|j: int| 0 <= j < river0.len() implies #[trigger] self.river@[j] == (river0[j] || p1.contains(j)) by {
                            if j == c {
                                assert(p1[p0.len() as int] == c as int);
                            } else {
                                if p1.contains(j) {
                                    let q = choose|q: int| 0 <= q < p1.len() && p1[q] == j;
                                    assert(p0[q] == j);
                                }
                                if p0.contains(j) {
                                    let q = choose|q: int| 0 <= q < p0.len() && p0[q] == j;
                                    assert(p1[q] == j);
                                }
                            }
                        }
                        assert(self.river@ =~= mark_path(river0, indices(path@.take(k as int + 1))));
                    }
                    k += 1;
                }
                proof {
                    assert(path@.take(k as int) =~= path@);
                }
                placed += 1;
            }
            proof {
                let b2 = match tr.2 {
                    Some(l) => b0.update(l, Biome::Lake),
                    None => b0,
                };
                assert(self.biome@ == b2);
            }
        }
    }

    /// Number of provinces: one per seed, and at least one.
    pub fn province_count(&self) -> (n: usize)
        ensures
            n == (if self.province_seeds@.len() > 1 { self.province_seeds@.len() as int } else { 1 }),
    {
        let n = self.province_seeds.len();
        if n > 1 { n } else { 1 }
    }

    /// A good starting camera position: the first capital, or the map center
    /// if there isn't one.
    pub fn start_position(&self) -> (p: (i32, i32))
        requires
            self.wf(),
        ensures
            (exists|k: int| 0 <= k < self.landmarks@.len() && #[trigger] self.landmarks@[k].site == Site::Capital
                && p.0 == self.landmarks@[k].x && p.1 == self.landmarks@[k].y
                && forall|j: int| 0 <= j < k ==> self.landmarks@[j].site != Site::Capital)
            || ((forall|k: int| 0 <= k < self.landmarks@.len() ==> #[trigger] self.landmarks@[k].site != Site::Capital)
                && p.0 == self.spec_width() / 2 && p.1 == self.spec_height() / 2),
    {
        let mut k: usize = 0;
        while k < self.landmarks.len()
            invariant
                k <= self.landmarks@.len(),
                forall|j: int| 0 <= j < k ==> #[trigger] self.landmarks@[j].site != Site::Capital,
            decreases self.landmarks@.len() - k,
        {
            if self.landmarks[k].site == Site::Capital {
                return (self.landmarks[k].x, self.landmarks[k].y);
            }
            k += 1;
        }
        (half(self.width), half(self.height))
    }

    /// How many cells are land (not water).
    pub fn land_count(&self) -> (n: usize)
        requires
            self.wf(),
        ensures
            n == self.biome@.filter(|b: Biome| !water(b)).len(),
    {
        let mut n: usize = 0;
        let mut k: usize = 0;
        while k < self.biome.len()
            invariant
                k <= self.biome@.len(),
                n == self.biome@.take(k as int).filter(|b: Biome| !water(b)).len(),
                n <= k,
            decreases self.biome@.len() - k,
        {
            proof {
                assert(self.biome@.take(k as int + 1).drop_last() =~= self.biome@.take(k as int));
                reveal(Seq::filter);
            }
            if !self.biome[k].is_water() {
                n += 1;
            }
            k += 1;
        }
        proof {
            assert(self.biome@.take(k as int) =~= self.biome@);
        }
        n
    }
}

/// The index of the first of `seeds` nearest to `(x, y)`, or 0 if there are
/// none. Distances are exact: they are taken in 128 bits.
fn nearest_index(seeds: &Vec<(i32, i32)>, x: i32, y: i32) -> (p: usize)
    ensures
        p == first_nearest(seeds@, x as int, y as int, seeds@.len()),
{
    let mut best: i128 = 0;
    let mut bi: usize = 0;
    let mut k: usize = 0;
    while k < seeds.len()
        invariant
            k <= seeds@.len(),
            bi == first_nearest(seeds@, x as int, y as int, k as nat),
            k > 0 ==> bi < k && best == dist_sq(x as int, y as int, seeds@[bi as int].0 as int, seeds@[bi as int].1 as int),
            k == 0 ==> bi == 0,
        decreases seeds@.len() - k,
    {
        let (sx, sy) = seeds[k];
        let dx = x as i128 - sx as i128;
        let dy = y as i128 - sy as i128;
        proof {
            assert(dx * dx <= 0x1_0000_0000 * 0x1_0000_0000) by (nonlinear_arith)
                requires -0x1_0000_0000 <= dx <= 0x1_0000_0000;
            assert(dy * dy <= 0x1_0000_0000 * 0x1_0000_0000) by (nonlinear_arith)
                requires -0x1_0000_0000 <= dy <= 0x1_0000_0000;
            assert(0 <= dx * dx && 0 <= dy * dy) by (nonlinear_arith);
        }
        let d = dx * dx + dy * dy;
        if k == 0 || d < best {
            best = d;
            bi = k;
        }
        k += 1;
    }
    bi
}

/// The sort key that puts higher scores first.
fn score_key(t: &(i32, i32, i32)) -> (k: i64)
    ensures
        k == -(t.0 as int),
{
    -(t.0 as i64)
}

/// Sorts `(score, x, y)` entries best first with std's `sort_by_key` on the
/// negated score, which sorts ascending by key and is stable: the result is
/// ordered by descending score and keeps entries of equal score in their
/// original order.
#[verifier::external_body]
fn sort_best_first(v: &mut Vec<(i32, i32, i32)>)
    ensures
        ranks(old(v)@, final(v)@),
{
    v.sort_by_key(score_key);
}

/// Walks `ranked` in order and keeps each site that is at least `spacing`
/// (Manhattan) from every site kept before it, until `wanted` are kept.
pub fn pick_spaced(ranked: &Vec<(i32, i32, i32)>, wanted: usize, spacing: i32) -> (chosen: Vec<(i32, i32)>)
    ensures
        chosen@ == greedy_sites(ranked@, wanted as int, spacing as int),
{
    let mut chosen: Vec<(i32, i32)> = Vec::new();
    let mut k: usize = 0;
    while k < ranked.len()
        invariant
            k <= ranked@.len(),
            chosen@ == greedy_sites(ranked@.take(k as int), wanted as int, spacing as int),
        decreases ranked@.len() - k,
    {
        proof {
            assert(ranked@.take(k as int + 1).drop_last() =~= ranked@.take(k as int));
        }
        let (_, x, y) = ranked[k];
        if chosen.len() < wanted {
            let mut ok = true;
            let mut j: usize = 0;
            while j < chosen.len()
                invariant
                    j <= chosen@.len(),
                    ok == spaced(chosen@.take(j as int), x as int, y as int, spacing as int),
                decreases chosen@.len() - j,
            {
                let (cx, cy) = chosen[j];
                let dx = if cx as i64 >= x as i64 { cx as i64 - x as i64 } else { x as i64 - cx as i64 };
                let dy = if cy as i64 >= y as i64 { cy as i64 - y as i64 } else { y as i64 - cy as i64 };
                proof {
                    let c2 = chosen@.take(j as int + 1);
                    assert(c2[j as int] == chosen@[j as int]);
                    if spaced(chosen@.take(j as int), x as int, y as int, spacing as int) && dx + dy >= spacing {
                        assert forall|q: int| 0 <= q < c2.len() implies manhattan(#[trigger] c2[q].0 as int, c2[q].1 as int,
                            x as int, y as int) >= spacing by {
                            if q < j {
                                assert(c2[q] == chosen@.take(j as int)[q]);
                            }
                        }
                    }
                    if !spaced(chosen@.take(j as int), x as int, y as int, spacing as int) {
                        let q = choose|q: int| 0 <= q < j && !(manhattan(#[trigger] chosen@.take(j as int)[q].0 as int,
                            chosen@.take(j as int)[q].1 as int, x as int, y as int) >= spacing);
                        assert(c2[q] == chosen@.take(j as int)[q]);
                    }
                }
                if dx + dy < spacing as i64 {
                    ok = false;
                }
                j += 1;
            }
            proof {
                assert(chosen@.take(j as int) =~= chosen@);
            }
            if ok {
                chosen.push((x, y));
            }
        }
        k += 1;
    }
    proof {
        assert(ranked@.take(k as int) =~= ranked@);
    }
    chosen
}

/// `v` limited to `lo..=hi`.
pub open spec fn clamp(v: int, lo: int, hi: int) -> int {
    if v < lo {
        lo
    } else if v > hi {
        hi
    } else {
        v
    }
}

/// `v` limited to `lo..=hi`.
fn clamp_i32(v: i32, lo: i32, hi: i32) -> (r: i32)
    requires
        lo <= hi,
    ensures
        r == clamp(v as int, lo as int, hi as int),
{
    if v < lo {
        lo
    } else if v > hi {
        hi
    } else {
        v
    }
}

/// A draw below a positive bound stays below it.
proof fn lemma_draw_below(s: u32, n: int)
    requires
        0 < n <= u32::MAX,
    ensures
        0 <= draw(s, n) < n,
{
    let x = xorshift(s) as int;
    assert(x * n < 0x1_0000_0000 * n) by (nonlinear_arith)
        requires 0 <= x < 0x1_0000_0000, n > 0;
    assert(0 <= x * n) by (nonlinear_arith)
        requires 0 <= x, n > 0;
    vstd::arithmetic::div_mod::lemma_div_is_ordered(x * n, 0x1_0000_0000 * n - 1, 0x1_0000_0000);
    vstd::arithmetic::div_mod::lemma_div_pos_is_pos(x * n, 0x1_0000_0000);
    assert((0x1_0000_0000 * n - 1) / 0x1_0000_0000 == n - 1) by {
        vstd::arithmetic::div_mod::lemma_fundamental_div_mod_converse(0x1_0000_0000 * n - 1, 0x1_0000_0000, n - 1, 0xFFFF_FFFF);
    }
}

/// How far apart settlements must be on a `w` x `h` map: a sixth of the
/// shorter side, and at least 5.
pub open spec fn settle_spacing(w: int, h: int) -> int {
    let m = if w < h { w } else { h };
    if m / 6 > 5 { m / 6 } else { 5 }
}

/// How many settlements a `w` x `h` map gets: one per 1400 cells, at least
/// 4 and at most 20.
pub open spec fn settle_wanted(w: int, h: int) -> int {
    clamp((w * h) / 1400, 4, 20)
}

fn settle_spacing_of(w: i32, h: i32) -> (r: i32)
    requires
        w >= 0 && h >= 0,
    ensures
        r == settle_spacing(w as int, h as int),
{
    let m = if w < h { w } else { h };
    if m / 6 > 5 { m / 6 } else { 5 }
}

fn settle_wanted_of(w: i32, h: i32) -> (r: i32)
    requires
        w >= 0 && h >= 0,
        w * h <= i32::MAX,
    ensures
        r == settle_wanted(w as int, h as int),
        4 <= r <= 20,
{
    clamp_i32((w * h) / 1400, 4, 20)
}

/// Among `towns` other than `i` and `skip`, the first of those nearest to
/// town `i` (Manhattan), if there is any.
fn nearest_other_index(towns: &Vec<(i32, i32)>, i: usize, skip: usize) -> (r: Option<usize>)
    requires
        i < towns@.len(),
    ensures
        r is None <==> nearest_other(towns@, i as int, skip as int, towns@.len()) is None,
        r matches Some(j) ==> nearest_other(towns@, i as int, skip as int, towns@.len()) == Some(j as int)
            && j < towns@.len(),
{
    let (x, y) = towns[i];
    let mut best: Option<usize> = None;
    let mut bd: i64 = 0;
    let mut j: usize = 0;
    while j < towns.len()
        invariant
            j <= towns@.len(),
            i < towns@.len(),
            (x, y) == towns@[i as int],
            best is None <==> nearest_other(towns@, i as int, skip as int, j as nat) is None,
            best matches Some(q) ==> nearest_other(towns@, i as int, skip as int, j as nat) == Some(q as int)
                && q < j && bd == town_dist(towns@, i as int, q as int),
        decreases towns@.len() - j,
    {
        if j != i && j != skip {
            let (tx, ty) = towns[j];
            let dx = if tx as i64 >= x as i64 { tx as i64 - x as i64 } else { x as i64 - tx as i64 };
            let dy = if ty as i64 >= y as i64 { ty as i64 - y as i64 } else { y as i64 - ty as i64 };
            let d = dx + dy;
            match best {
                None => {
                    best = Some(j);
                    bd = d;
                },
                Some(_) => {
                    if d < bd {
                        best = Some(j);
                        bd = d;
                    }
                },
            }
        }
        j += 1;
    }
    best
}

/// Whether some on-map cell of a `w` x `h` grid at Chebyshev distance exactly
/// `r` from `(x, y)` is water in `is_water` (row-major).
pub open spec fn ring_has_water(is_water: Seq<bool>, w: int, h: int, x: int, y: int, r: int) -> bool {
    exists|dx: int, dy: int|
        -r <= dx <= r && -r <= dy <= r && (dx == r || dx == -r || dy == r || dy == -r) && 0 <= x + dx < w && 0 <= y
            + dy < h && #[trigger] is_water[(y + dy) * w + (x + dx)]
}

/// The radius of the nearest square ring around `(x, y)`, out to `reach`,
/// that holds on-map water; `None` if none does.
pub fn nearest_water_ring(is_water: &Vec<bool>, width: i32, height: i32, x: i32, y: i32, reach: i32) -> (r: Option<i32>)
    requires
        8 <= width && 8 <= height,
        width * height <= MAX_CELLS,
        is_water@.len() == width * height,
        0 <= x < width && 0 <= y < height,
        0 <= reach <= 0x1000,
    ensures
        r matches Some(v) ==> 1 <= v <= reach && ring_has_water(is_water@, width as int, height as int, x as int, y as int, v as int)
            && forall|u: int| 1 <= u < v ==> !ring_has_water(is_water@, width as int, height as int, x as int, y as int, u),
        r is None ==> forall|u: int| 1 <= u <= reach ==> !ring_has_water(is_water@, width as int, height as int, x as int, y as int, u),
{
    let ghost w = width as int;
    let ghost h = height as int;
    proof {
        assert(width <= 0x1000_0000 && height <= 0x1000_0000) by (nonlinear_arith)
            requires width * height <= MAX_CELLS, width >= 8, height >= 8;
    }
    let mut r: i32 = 1;
    while r <= reach
        invariant
            1 <= r <= reach + 1,
            reach <= 0x1000,
            0 <= x < width && 0 <= y < height,
            is_water@.len() == w * h,
            w == width as int && h == height as int,
            width * height <= MAX_CELLS,
            width <= 0x1000_0000 && height <= 0x1000_0000,
            forall|u: int| 1 <= u < r ==> !ring_has_water(is_water@, w, h, x as int, y as int, u),
        decreases reach + 1 - r,
    {
        let mut found = false;
        let mut dy: i32 = -r;
        while dy <= r
            invariant
                1 <= r <= reach,
                reach <= 0x1000,
                -r <= dy <= r + 1,
                0 <= x < width && 0 <= y < height,
                is_water@.len() == w * h,
                w == width as int && h == height as int,
                width * height <= MAX_CELLS,
            width <= 0x1000_0000 && height <= 0x1000_0000,
            forall|u: int| 1 <= u < r ==> !ring_has_water(is_water@, w, h, x as int, y as int, u),
                !found,
                forall|ex: int, ey: int|
                    -r <= ex <= r && -r <= ey < dy && (ex == r || ex == -r || ey == r || ey == -r) && 0 <= x + ex < w && 0
                        <= y + ey < h ==> !#[trigger] is_water@[(y + ey) * w + (x + ex)],
            decreases r + 1 - dy,
        {
            let mut dx: i32 = -r;
            while dx <= r
                invariant
                    1 <= r <= reach,
                    reach <= 0x1000,
                    -r <= dy <= r,
                    -r <= dx <= r + 1,
                    0 <= x < width && 0 <= y < height,
                    is_water@.len() == w * h,
                    w == width as int && h == height as int,
                    width * height <= MAX_CELLS,
            width <= 0x1000_0000 && height <= 0x1000_0000,
            forall|u: int| 1 <= u < r ==> !ring_has_water(is_water@, w, h, x as int, y as int, u),
                    forall|ex: int, ey: int|
                        -r <= ex <= r && -r <= ey < dy && (ex == r || ex == -r || ey == r || ey == -r) && 0 <= x + ex < w
                            && 0 <= y + ey < h ==> !#[trigger] is_water@[(y + ey) * w + (x + ex)],
                    forall|ex: int|
                        -r <= ex < dx && (ex == r || ex == -r || dy == r || dy == -r) && 0 <= x + ex < w && 0 <= y + dy < h
                            ==> !#[trigger] is_water@[(y + dy) * w + (x + ex)],
                decreases r + 1 - dx,
            {
                let on_ring = dx == r || dx == -r || dy == r || dy == -r;
                let cx = x + dx;
                let cy = y + dy;
                if on_ring && cx >= 0 && cy >= 0 && cx < width && cy < height {
                    proof {
                        lemma_index_in_range(cx as int, cy as int, w, h);
                    }
                    if is_water[(cy * width + cx) as usize] {
                        proof {
                            assert(ring_has_water(is_water@, w, h, x as int, y as int, r as int));
                        }
                        return Some(r);
                    }
                }
                dx += 1;
            }
            dy += 1;
        }
        proof {
            assert(!ring_has_water(is_water@, w, h, x as int, y as int, r as int));
        }
        r += 1;
    }
    None
}

/// Half of a non-negative value, rounded down.
fn half(v: i32) -> (h: i32)
    requires
        v >= 0,
    ensures
        h == v / 2,
{
    v / 2
}

/// Among the first `k` seeds, [`first_nearest`] picks the first of the
/// nearest ones.
proof fn lemma_first_nearest(seeds: Seq<(i32, i32)>, x: int, y: int, k: nat)
    requires
        0 < k <= seeds.len(),
    ensures
        ({
            let r = first_nearest(seeds, x, y, k) as int;
            &&& 0 <= r < k
            &&& forall|q: int| 0 <= q < r ==> #[trigger] seed_dist(seeds, x, y, q) > seed_dist(seeds, x, y, r)
            &&& forall|q: int| 0 <= q < k ==> #[trigger] seed_dist(seeds, x, y, q) >= seed_dist(seeds, x, y, r)
        }),
    decreases k,
{
    let r = first_nearest(seeds, x, y, k) as int;
    if k > 1 {
        lemma_first_nearest(seeds, x, y, (k - 1) as nat);
        let b = first_nearest(seeds, x, y, (k - 1) as nat) as int;
        assert(seed_dist(seeds, x, y, k - 1) == seed_dist(seeds, x, y, k - 1));
        assert(seed_dist(seeds, x, y, b) == seed_dist(seeds, x, y, b));
    } else {
        reveal_with_fuel(first_nearest, 2);
        assert(seed_dist(seeds, x, y, 0) == seed_dist(seeds, x, y, 0));
    }
}

/// The coordinate sums of a province's land cells stay within what its cell
/// count allows on a `w` x `h` map.
proof fn lemma_land_sums_bounds(biome: Seq<Biome>, owner: Seq<usize>, w: int, h: int, k: nat, p: int)
    requires
        0 < w,
        0 < h,
        k <= w * h,
    ensures
        ({
            let s = land_sums(biome, owner, w, k, p);
            &&& 0 <= s.2 <= k
            &&& 0 <= s.0 <= s.2 * (w - 1)
            &&& 0 <= s.1 <= s.2 * (h - 1)
        }),
    decreases k,
{
    if k > 0 {
        let i = k - 1;
        lemma_land_sums_bounds(biome, owner, w, h, (k - 1) as nat, p);
        let s = land_sums(biome, owner, w, (k - 1) as nat, p);
        assert(0 <= i % w < w) by (nonlinear_arith)
            requires w > 0;
        assert(0 <= i / w < h) by {
            vstd::arithmetic::div_mod::lemma_div_pos_is_pos(i, w);
            vstd::arithmetic::div_mod::lemma_div_is_ordered(i, w * h - 1, w);
            assert(w * h - 1 == (h - 1) * w + (w - 1)) by (nonlinear_arith);
            vstd::arithmetic::div_mod::lemma_fundamental_div_mod_converse(w * h - 1, w, h - 1, w - 1);
        }
        assert(s.0 + i % w <= (s.2 + 1) * (w - 1)) by (nonlinear_arith)
            requires s.0 <= s.2 * (w - 1), i % w <= w - 1;
        assert(s.1 + i / w <= (s.2 + 1) * (h - 1)) by (nonlinear_arith)
            requires s.1 <= s.2 * (h - 1), i / w <= h - 1;
    }
}

/// Every cell of a Voronoi province layer belongs to the first seed nearest
/// to it, and so to a real province.
pub proof fn lemma_voronoi_is_nearest(seeds: Seq<(i32, i32)>, w: int, n: int, i: int)
    requires
        0 < seeds.len() <= usize::MAX,
        0 < w,
        0 <= i < n,
    ensures
        nearest_seed(seeds, i % w, i / w, voronoi(seeds, w, n)[i] as int),
        voronoi(seeds, w, n)[i] < seeds.len(),
{
    lemma_first_nearest(seeds, i % w, i / w, seeds.len());
    let r = voronoi(seeds, w, n)[i] as int;
    assert(r == first_nearest(seeds, i % w, i / w, seeds.len()) as int);
    assert forall|q: int| 0 <= q < r implies dist_sq(i % w, i / w, seeds[q].0 as int, seeds[q].1 as int)
        > dist_sq(i % w, i / w, seeds[r].0 as int, seeds[r].1 as int) by {
        assert(seed_dist(seeds, i % w, i / w, q) > seed_dist(seeds, i % w, i / w, r));
    }
    assert forall|q: int| 0 <= q < seeds.len() implies dist_sq(i % w, i / w, seeds[q].0 as int, seeds[q].1 as int)
        >= dist_sq(i % w, i / w, seeds[r].0 as int, seeds[r].1 as int) by {
        assert(seed_dist(seeds, i % w, i / w, q) >= seed_dist(seeds, i % w, i / w, r));
    }
}

/// Every cell of a legal road walk is on the map, every cell after the
/// first is passable, and each step is a cardinal one.
proof fn lemma_walk_cells(biome: Seq<Biome>, road: Seq<bool>, w: int, h: int, walk: Seq<Cell>)
    requires
        legal_walk(road_costs(biome, road, w, h), Diagonals::Never, w, h, walk),
    ensures
        forall|k: int| 0 <= k < walk.len() ==> 0 <= #[trigger] walk[k].x < w && 0 <= walk[k].y < h,
        forall|k: int| 1 <= k < walk.len() ==> #[trigger] passable(biome[walk[k].y * w + walk[k].x]),
        forall|k: int| 1 <= k < walk.len() ==> is_cardinal_step(walk[k - 1], #[trigger] walk[k]),
    decreases walk.len(),
{
    if walk.len() > 1 {
        lemma_walk_cells(biome, road, w, h, walk.drop_last());
        let k = walk.len() - 1;
        assert(road_costs(biome, road, w, h)(walk[k]) != IMPASSABLE);
        assert forall|q: int| 0 <= q < k implies #[trigger] walk[q] == walk.drop_last()[q] by {}
    }
}

/// Marking cells as road keeps every existing road, and every cell it turns
/// into road is one of the marked cells, on the map.
proof fn lemma_mark_cells(road: Seq<bool>, w: int, h: int, cells: Seq<(i32, i32)>)
    requires
        0 < w && 0 < h,
        road.len() == w * h,
    ensures
        mark_cells(road, w, h, cells).len() == road.len(),
        forall|i: int| 0 <= i < road.len() && road[i] ==> #[trigger] mark_cells(road, w, h, cells)[i],
        forall|i: int| 0 <= i < road.len() && #[trigger] mark_cells(road, w, h, cells)[i] && !road[i] ==> exists|k: int|
            0 <= k < cells.len() && 0 <= #[trigger] cells[k].0 < w && 0 <= cells[k].1 < h && cells[k].1 * w + cells[k].0 == i,
    decreases cells.len(),
{
    if cells.len() > 0 {
        let prev = cells.drop_last();
        lemma_mark_cells(road, w, h, prev);
        let c = cells.last();
        if 0 <= c.0 < w && 0 <= c.1 < h {
            lemma_index_in_range(c.0 as int, c.1 as int, w, h);
        }
        assert forall|i: int| 0 <= i < road.len() && #[trigger] mark_cells(road, w, h, cells)[i] && !road[i] implies exists|k: int|
            0 <= k < cells.len() && 0 <= #[trigger] cells[k].0 < w && 0 <= cells[k].1 < h && cells[k].1 * w + cells[k].0 == i by {
            if mark_cells(road, w, h, prev)[i] {
                let k = choose|k: int| 0 <= k < prev.len() && 0 <= #[trigger] prev[k].0 < w && 0 <= prev[k].1 < h && prev[k].1 * w
                    + prev[k].0 == i;
                assert(cells[k] == prev[k]);
            } else {
                assert(cells[cells.len() - 1] == c);
            }
        }
    }
}

/// Laying a road keeps every existing road, and every cell it turns into
/// road is passable, except perhaps the cell the road starts from.
pub proof fn lemma_laid_road(biome: Seq<Biome>, road: Seq<bool>, w: int, h: int, a: (i32, i32), b: (i32, i32), next: Seq<bool>)
    requires
        0 < w && 0 < h,
        biome.len() == w * h,
        road.len() == w * h,
        lays_road(biome, road, w, h, a, b, next),
    ensures
        next.len() == road.len(),
        forall|i: int| 0 <= i < road.len() && road[i] ==> #[trigger] next[i],
        forall|i: int| 0 <= i < road.len() && #[trigger] next[i] && !road[i] ==> passable(biome[i]) || i == a.1 * w + a.0,
{
    let inside_a = 0 <= a.0 < w && 0 <= a.1 < h;
    let inside_b = 0 <= b.0 < w && 0 <= b.1 < h;
    let sc = road_costs(biome, road, w, h);
    if !inside_a || !inside_b || (a != b && !route_exists(sc, Diagonals::Never, w, h, cell_at(a), cell_at(b))) {
    } else if a == b {
        lemma_mark_cells(road, w, h, seq![a]);
        assert forall|i: int| 0 <= i < road.len() && #[trigger] next[i] && !road[i] implies passable(biome[i]) || i == a.1 * w
            + a.0 by {
            let k = choose|k: int| 0 <= k < 1 && 0 <= #[trigger] seq![a][k].0 < w && 0 <= seq![a][k].1 < h && seq![a][k].1 * w
                + seq![a][k].0 == i;
            assert(seq![a][k] == a);
        }
    } else {
        let walk = choose|walk: Seq<Cell>| #[trigger] cheapest_walk(biome, road, w, h, cell_at(a), cell_at(b), walk)
            && next == mark_cells(road, w, h, xy(walk));
        lemma_walk_cells(biome, road, w, h, walk);
        lemma_mark_cells(road, w, h, xy(walk));
        assert forall|i: int| 0 <= i < road.len() && #[trigger] next[i] && !road[i] implies passable(biome[i]) || i == a.1 * w
            + a.0 by {
            let cells = xy(walk);
            let k = choose|k: int| 0 <= k < cells.len() && 0 <= #[trigger] cells[k].0 < w && 0 <= cells[k].1 < h && cells[k].1
                * w + cells[k].0 == i;
            assert(cells[k] == (walk[k].x, walk[k].y));
            if k == 0 {
                assert(walk[0] == cell_at(a));
            } else {
                assert(passable(biome[walk[k].y * w + walk[k].x]));
            }
        }
    }
}

/// Joining roads one pair after another keeps every road there was, and
/// every cell that becomes road is passable or the start of one of the
/// pairs: roads run over passable ground between the places they join.
pub proof fn lemma_roads_laid(biome: Seq<Biome>, w: int, h: int, pairs: Seq<((i32, i32), (i32, i32))>, layers: Seq<Seq<bool>>, m: int)
    requires
        0 < w && 0 < h,
        biome.len() == w * h,
        roads_laid(biome, w, h, pairs, layers),
        layers[0].len() == w * h,
        0 <= m <= pairs.len(),
    ensures
        layers[m].len() == w * h,
        forall|i: int| 0 <= i < w * h && layers[0][i] ==> #[trigger] layers[m][i],
        forall|i: int| 0 <= i < w * h && #[trigger] layers[m][i] && !layers[0][i] ==> passable(biome[i]) || exists|k: int|
            0 <= k < m && #[trigger] pairs[k].0.1 * w + pairs[k].0.0 == i,
    decreases m,
{
    if m > 0 {
        lemma_roads_laid(biome, w, h, pairs, layers, m - 1);
        assert(lays_road(biome, layers[m - 1], w, h, pairs[m - 1].0, pairs[m - 1].1, layers[m]));
        lemma_laid_road(biome, layers[m - 1], w, h, pairs[m - 1].0, pairs[m - 1].1, layers[m]);
        assert forall|i: int| 0 <= i < w * h && #[trigger] layers[m][i] && !layers[0][i] implies passable(biome[i]) || exists|k: int|
            0 <= k < m && #[trigger] pairs[k].0.1 * w + pairs[k].0.0 == i by {
            if layers[m - 1][i] {
                if !passable(biome[i]) {
                    let k = choose|k: int| 0 <= k < m - 1 && #[trigger] pairs[k].0.1 * w + pairs[k].0.0 == i;
                    assert(0 <= k < m);
                }
            } else if !passable(biome[i]) {
                assert(pairs[m - 1].0.1 * w + pairs[m - 1].0.0 == i);
            }
        }
    }
}

/// The sites picked greedily are at most `wanted`, each comes from the
/// ranked candidates, and every two of them are at least `spacing` apart.
pub proof fn lemma_greedy_sites(ranked: Seq<(i32, i32, i32)>, wanted: int, spacing: int)
    ensures
        ({
            let c = greedy_sites(ranked, wanted, spacing);
            &&& c.len() <= (if wanted > 0 { wanted } else { 0 })
            &&& forall|q: int| 0 <= q < c.len() ==> exists|k: int| 0 <= k < ranked.len() && #[trigger] c[q] == (
                ranked[k].1,
                ranked[k].2,
            )
            &&& forall|p: int, q: int| 0 <= p < q < c.len() ==> manhattan(
                #[trigger] c[p].0 as int,
                c[p].1 as int,
                #[trigger] c[q].0 as int,
                c[q].1 as int,
            ) >= spacing
        }),
    decreases ranked.len(),
{
    if ranked.len() > 0 {
        let prev_r = ranked.drop_last();
        lemma_greedy_sites(prev_r, wanted, spacing);
        let prev = greedy_sites(prev_r, wanted, spacing);
        let c = greedy_sites(ranked, wanted, spacing);
        let t = ranked.last();
        assert forall|q: int| 0 <= q < c.len() implies exists|k: int| 0 <= k < ranked.len() && #[trigger] c[q] == (
            ranked[k].1,
            ranked[k].2,
        ) by {
            if q < prev.len() {
                let k = choose|k: int| 0 <= k < prev_r.len() && #[trigger] prev[q] == (prev_r[k].1, prev_r[k].2);
                assert(ranked[k] == prev_r[k]);
                assert(c[q] == prev[q]);
            } else {
                assert(c[q] == (ranked[ranked.len() - 1].1, ranked[ranked.len() - 1].2));
            }
        }
        assert forall|p: int, q: int| 0 <= p < q < c.len() implies manhattan(
            #[trigger] c[p].0 as int,
            c[p].1 as int,
            #[trigger] c[q].0 as int,
            c[q].1 as int,
        ) >= spacing by {
            if q < prev.len() {
                assert(c[p] == prev[p] && c[q] == prev[q]);
            } else {
                assert(c[p] == prev[p]);
                assert(manhattan(prev[p].0 as int, prev[p].1 as int, t.1 as int, t.2 as int) >= spacing);
            }
        }
    }
}

/// The positions of the sites of a scatter plan, in order.
pub open spec fn plan_positions(plan: Seq<(i32, i32, Site, Seq<char>)>) -> Seq<(i32, i32)> {
    Seq::new(plan.len(), |k: int| (plan[k].0, plan[k].1))
}

/// Every minor site scattered stands on passable dry land of the map, at
/// least 4 from every position taken before it (those already placed and
/// the sites scattered earlier), and is never a settlement.
pub proof fn lemma_scatter_sites(biome: Seq<Biome>, w: int, h: int, taken: Seq<(i32, i32)>, s: u32, tries: nat, wanted: int)
    requires
        0 < w <= i32::MAX,
        0 < h <= i32::MAX,
    ensures
        ({
            let plan = scatter_run(biome, w, h, taken, s, tries, wanted).0;
            forall|q: int| 0 <= q < plan.len() ==> {
                let e = #[trigger] plan[q];
                &&& 0 <= e.0 < w && 0 <= e.1 < h
                &&& site_ground(biome[e.1 * w + e.0])
                &&& spaced(taken + plan_positions(plan.take(q)), e.0 as int, e.1 as int, 4)
                &&& !settlement(e.2)
            }
        }),
    decreases tries,
{
    if tries > 0 && wanted > 0 {
        let (hit, s2) = scatter_attempt(biome, w, h, taken, s);
        lemma_draw_below(s, w);
        lemma_draw_below(xorshift(s), h);
        match hit {
            None => {
                lemma_scatter_sites(biome, w, h, taken, s2, (tries - 1) as nat, wanted);
                assert(scatter_run(biome, w, h, taken, s, tries, wanted) == scatter_run(biome, w, h, taken, s2, (tries - 1) as nat,
                    wanted));
            },
            Some(site) => {
                let t2 = taken.push((site.0, site.1));
                lemma_scatter_sites(biome, w, h, t2, name_state(s2), (tries - 1) as nat, wanted - 1);
                let rest = scatter_run(biome, w, h, t2, name_state(s2), (tries - 1) as nat, wanted - 1).0;
                let plan = scatter_run(biome, w, h, taken, s, tries, wanted).0;
                let head = (site.0, site.1, site.2, name_from(s2));
                assert(plan == seq![head] + rest);
                assert forall|q: int| 0 <= q < plan.len() implies {
                    let e = #[trigger] plan[q];
                    &&& 0 <= e.0 < w && 0 <= e.1 < h
                    &&& site_ground(biome[e.1 * w + e.0])
                    &&& spaced(taken + plan_positions(plan.take(q)), e.0 as int, e.1 as int, 4)
                    &&& !settlement(e.2)
                } by {
                    if q > 0 {
                        assert(plan[q] == rest[q - 1]);
                        assert(taken + plan_positions(plan.take(q)) =~= t2 + plan_positions(rest.take(q - 1)));
                    } else {
                        assert(plan[0] == head);
                        assert(taken + plan_positions(plan.take(0)) =~= taken);
                    }
                }
            },
        }
    }
}

/// The ranking of scored candidates is unique: two orders that both rank
/// `scored` best first, with ties in their original order, are the same.
pub proof fn lemma_ranks_unique(scored: Seq<(i32, i32, i32)>, s1: Seq<(i32, i32, i32)>, s2: Seq<(i32, i32, i32)>)
    requires
        ranks(scored, s1),
        ranks(scored, s2),
    ensures
        s1 == s2,
    decreases s1.len(),
{
    lemma_same_classes_equal(s1, s2);
}

/// A score class that is not empty has a member.
proof fn lemma_with_score_member(s: Seq<(i32, i32, i32)>, v: i32)
    requires
        with_score(s, v).len() > 0,
    ensures
        exists|i: int| 0 <= i < s.len() && s[i].0 == v,
    decreases s.len(),
{
    reveal(Seq::filter);
    if s.len() > 0 && s.last().0 != v {
        assert(with_score(s, v) == with_score(s.drop_last(), v));
        lemma_with_score_member(s.drop_last(), v);
        let i = choose|i: int| 0 <= i < s.drop_last().len() && s.drop_last()[i].0 == v;
        assert(s[i] == s.drop_last()[i]);
    } else if s.len() > 0 {
        assert(s[s.len() - 1].0 == v);
    }
}

/// Two best-first orders with the same entries of every score are equal.
proof fn lemma_same_classes_equal(s1: Seq<(i32, i32, i32)>, s2: Seq<(i32, i32, i32)>)
    requires
        s1.len() == s2.len(),
        best_first(s1),
        best_first(s2),
        forall|v: i32| #[trigger] with_score(s1, v) == with_score(s2, v),
    ensures
        s1 == s2,
    decreases s1.len(),
{
    reveal(Seq::filter);
    if s1.len() == 0 {
        assert(s1 =~= s2);
    } else {
        let x = s1.last();
        let y = s2.last();
        let m = x.0;
        // The last score of each is the least, and both hold the other's.
        assert(with_score(s1, m).len() > 0);
        if y.0 != m {
            let k2 = s2.len() - 1;
            assert(with_score(s2, y.0).len() > 0);
            assert(with_score(s1, y.0).len() > 0);
            lemma_with_score_member(s1, y.0);
            let i = choose|i: int| 0 <= i < s1.len() && s1[i].0 == y.0;
            assert(with_score(s2, m).len() > 0);
            lemma_with_score_member(s2, m);
            let j = choose|j: int| 0 <= j < s2.len() && s2[j].0 == m;
            if i < s1.len() - 1 {
                assert(s1[i].0 >= x.0);
            }
            if j < s2.len() - 1 {
                assert(s2[j].0 >= y.0);
            }
            assert(false);
        }
        assert(with_score(s1, m) == with_score(s1.drop_last(), m).push(x));
        assert(with_score(s2, m) == with_score(s2.drop_last(), m).push(y));
        assert(x == with_score(s1, m).last());
        assert(y == with_score(s2, m).last());
        let d1 = s1.drop_last();
        let d2 = s2.drop_last();
        assert forall|v: i32| #[trigger] with_score(d1, v) == with_score(d2, v) by {
            if v == m {
                assert(with_score(d1, v) =~= with_score(s1, v).drop_last());
                assert(with_score(d2, v) =~= with_score(s2, v).drop_last());
            } else {
                assert(with_score(d1, v) == with_score(s1, v));
                assert(with_score(d2, v) == with_score(s2, v));
            }
        }
        lemma_same_classes_equal(d1, d2);
        assert(s1 =~= d1.push(x));
        assert(s2 =~= d2.push(y));
    }
}

/// Water flows only to cells of the map.
proof fn lemma_flow_on_map(w: int, h: int, level: Seq<i64>, descent: Seq<i64>, i: int, k: nat)
    requires
        0 < w && 0 < h,
        0 <= i < w * h,
    ensures
        flow_upto(w, h, level, descent, i, k) matches Some(j) ==> 0 <= j < w * h,
    decreases k,
{
    if k > 0 {
        lemma_flow_on_map(w, h, level, descent, i, (k - 1) as nat);
        match step_from(w, h, i, k - 1) {
            Some(j) => {
                let x = i % w;
                let y = i / w;
                let (nx, ny) = if k - 1 == 0 {
                    (x, y - 1)
                } else if k - 1 == 1 {
                    (x + 1, y)
                } else if k - 1 == 2 {
                    (x, y + 1)
                } else {
                    (x - 1, y)
                };
                lemma_index_in_range(nx, ny, w, h);
            },
            None => {},
        }
    }
}

/// A traced river runs through cells of the map that are not water, and
/// pools, if it does, into one of them.
proof fn lemma_trace_cells(biome: Seq<Biome>, w: int, h: int, level: Seq<i64>, descent: Seq<i64>, i: int, steps: nat)
    requires
        0 < w && 0 < h,
        biome.len() == w * h,
        0 <= i < w * h,
    ensures
        ({
            let t = trace(biome, w, h, level, descent, i, steps);
            &&& forall|k: int| 0 <= k < t.0.len() ==> 0 <= #[trigger] t.0[k] < w * h && !water(biome[t.0[k]])
            &&& t.2 matches Some(l) ==> 0 <= l < w * h && !water(biome[l])
        }),
    decreases steps,
{
    if steps > 0 && !water(biome[i]) {
        lemma_flow_on_map(w, h, level, descent, i, 4);
        match flow_upto(w, h, level, descent, i, 4) {
            None => {},
            Some(j) => {
                lemma_trace_cells(biome, w, h, level, descent, j, (steps - 1) as nat);
                let rest = trace(biome, w, h, level, descent, j, (steps - 1) as nat);
                let t = trace(biome, w, h, level, descent, i, steps);
                assert forall|k: int| 0 <= k < t.0.len() implies 0 <= #[trigger] t.0[k] < w * h && !water(biome[t.0[k]]) by {
                    if k > 0 {
                        assert(t.0[k] == rest.0[k - 1]);
                    }
                }
            },
        }
    }
}

/// Carving rivers keeps every river on land, or in a lake it pooled into:
/// if that holds of the layers before, it holds after.
pub proof fn lemma_rivers_stay_on_land(
    biome: Seq<Biome>,
    river: Seq<bool>,
    w: int,
    h: int,
    high: Seq<bool>,
    wet: Seq<bool>,
    level: Seq<i64>,
    descent: Seq<i64>,
    s: u32,
    tries: nat,
    left: int,
    steps: nat,
)
    requires
        0 < w <= u32::MAX && 0 < h <= u32::MAX,
        biome.len() == w * h,
        river.len() == w * h,
        high.len() == w * h,
        wet.len() == w * h,
        forall|i: int| 0 <= i < w * h && #[trigger] river[i] ==> !water(biome[i]) || biome[i] == Biome::Lake,
    ensures
        ({
            let r = river_run(biome, river, w, h, high, wet, level, descent, s, tries, left, steps);
            &&& r.0.len() == w * h && r.1.len() == w * h
            &&& forall|i: int| 0 <= i < w * h && #[trigger] r.1[i] ==> !water(r.0[i]) || r.0[i] == Biome::Lake
        }),
    decreases tries,
{
    if tries > 0 && left > 0 {
        let x = draw(s, w);
        let s1 = xorshift(s);
        let y = draw(s1, h);
        let s2 = xorshift(s1);
        lemma_draw_below(s, w);
        lemma_draw_below(s1, h);
        lemma_index_in_range(x, y, w, h);
        let i = y * w + x;
        if !(high[i] && (wet[i] || river[i])) {
            lemma_rivers_stay_on_land(biome, river, w, h, high, wet, level, descent, s2, (tries - 1) as nat, left, steps);
        } else {
            let t = trace(biome, w, h, level, descent, i, steps);
            lemma_trace_cells(biome, w, h, level, descent, i, steps);
            let b2 = match t.2 {
                Some(l) => biome.update(l, Biome::Lake),
                None => biome,
            };
            let r2 = mark_path(river, t.0);
            assert forall|j: int| 0 <= j < w * h && #[trigger] river[j] implies !water(b2[j]) || b2[j] == Biome::Lake by {}
            assert forall|j: int| 0 <= j < w * h && #[trigger] r2[j] implies !water(b2[j]) || b2[j] == Biome::Lake by {
                if !river[j] {
                    let k = choose|k: int| 0 <= k < t.0.len() && t.0[k] == j;
                    assert(!water(biome[t.0[k]]));
                }
            }
            if t.0.len() >= 6 || (t.1 && t.0.len() >= 4) {
                lemma_rivers_stay_on_land(b2, r2, w, h, high, wet, level, descent, s2, (tries - 1) as nat, left - 1, steps);
            } else {
                lemma_rivers_stay_on_land(b2, river, w, h, high, wet, level, descent, s2, (tries - 1) as nat, left, steps);
            }
        }
    }
}

/// On a Voronoi province layer each seed lies in its own province, as long
/// as the seeds are on the map and no two coincide.
pub proof fn lemma_seed_in_own_province(seeds: Seq<(i32, i32)>, w: int, h: int, p: int)
    requires
        0 < w && 0 < h,
        seeds.len() <= usize::MAX,
        0 <= p < seeds.len(),
        seeds_on_map(seeds, w, h),
        forall|a: int, b: int| 0 <= a < b < seeds.len() ==> #[trigger] seeds[a] != #[trigger] seeds[b],
    ensures
        voronoi(seeds, w, w * h)[seeds[p].1 * w + seeds[p].0] == p,
{
    let (sx, sy) = (seeds[p].0 as int, seeds[p].1 as int);
    let i = sy * w + sx;
    lemma_index_in_range(sx, sy, w, h);
    vstd::arithmetic::div_mod::lemma_fundamental_div_mod_converse(i, w, sy, sx);
    lemma_voronoi_is_nearest(seeds, w, w * h, i);
    let r = voronoi(seeds, w, w * h)[i] as int;
    assert(dist_sq(sx, sy, seeds[p].0 as int, seeds[p].1 as int) == 0);
    assert(dist_sq(sx, sy, seeds[r].0 as int, seeds[r].1 as int) <= 0);
    let dx = sx - seeds[r].0;
    let dy = sy - seeds[r].1;
    assert(dx * dx + dy * dy <= 0);
    assert(dx * dx >= 0 && dy * dy >= 0) by (nonlinear_arith);
    assert(dx == 0 && dy == 0) by (nonlinear_arith)
        requires dx * dx + dy * dy <= 0, dx * dx >= 0, dy * dy >= 0;
    if r != p {
        assert(seeds[r] == seeds[p]);
        if r < p {
            assert(seeds[r] != seeds[p]);
        } else {
            assert(seeds[p] != seeds[r]);
        }
    }
}

/// On-map coordinates have row-major indices inside the map.
proof fn lemma_index_in_range(x: int, y: int, w: int, h: int)
    requires
        0 <= x < w,
        0 <= y < h,
    ensures
        0 <= y * w + x < w * h,
        0 <= y * w,
{
    assert(y * w + x < w * h) by (nonlinear_arith)
        requires 0 <= x < w, 0 <= y < h;
    assert(0 <= y * w) by (nonlinear_arith)
        requires 0 <= y, 0 <= w;
}

impl WorldMap {
    /// The harbour bonus: an on-map cell's settlement score is its terrain's
    /// base score plus 90 on a river, plus 60 exactly when one of its four
    /// cardinal neighbours (north, east, south, west) is on the map and water.
    pub proof fn lemma_harbour_bonus(&self, x: int, y: int)
        requires
            self.wf(),
            self.inside(x, y),
        ensures
            ({
                let i = self.index(x, y);
                let inland = base_score(self.biome@[i]) + (if self.river@[i] { 90int } else { 0int });
                let north = y >= 1 && water(self.biome@[self.index(x, y - 1)]);
                let east = x + 1 < self.spec_width() && water(self.biome@[self.index(x + 1, y)]);
                let south = y + 1 < self.spec_height() && water(self.biome@[self.index(x, y + 1)]);
                let west = x >= 1 && water(self.biome@[self.index(x - 1, y)]);
                &&& north ==> self.site_value(x, y) == inland + 60
                &&& east ==> self.site_value(x, y) == inland + 60
                &&& south ==> self.site_value(x, y) == inland + 60
                &&& west ==> self.site_value(x, y) == inland + 60
                &&& !(north || east || south || west) ==> self.site_value(x, y) == inland
            }),
    {
    }
}

/// How terrain ranks as a settlement site: grassland first, then forest and
/// savanna, coast, taiga and scrubland, wetland, ice and the rest, and
/// desert and tundra last; every base score is positive.
pub proof fn lemma_site_preference(b: Biome)
    ensures
        base_score(Biome::Grassland) > base_score(Biome::Forest),
        base_score(Biome::Forest) == base_score(Biome::Savanna),
        base_score(Biome::Savanna) > base_score(Biome::Coast),
        base_score(Biome::Coast) > base_score(Biome::Taiga),
        base_score(Biome::Taiga) == base_score(Biome::Scrubland),
        base_score(Biome::Scrubland) > base_score(Biome::Marsh),
        base_score(Biome::Marsh) == base_score(Biome::Ice),
        base_score(Biome::Ice) > base_score(Biome::Desert),
        base_score(Biome::Desert) == base_score(Biome::Tundra),
        base_score(Biome::Tundra) <= base_score(b) <= base_score(Biome::Grassland),
        b != Biome::Grassland ==> base_score(b) < base_score(Biome::Grassland),
        0 < base_score(b),
{
}

/// Whether a landmark is a settlement.
pub open spec fn settling() -> spec_fn(Landmark) -> bool {
    |l: Landmark| settlement(l.site)
}

/// A landmark's map position.
pub open spec fn place_of() -> spec_fn(Landmark) -> (i32, i32) {
    |l: Landmark| (l.x, l.y)
}

/// The settlement positions are the positions of exactly the landmarks
/// that are settlements (capital, cities and towns), in landmark order:
/// every settlement's position is among them, and nothing else is.
pub proof fn lemma_settlement_positions(ls: Seq<Landmark>)
    ensures
        settlement_positions(ls) == ls.filter(settling()).map_values(place_of()),
        forall|k: int| 0 <= k < ls.len() && settlement(ls[k].site) ==> settlement_positions(ls).contains(
            (#[trigger] ls[k].x, ls[k].y)),
    decreases ls.len(),
{
    reveal(Seq::filter);
    if ls.len() > 0 {
        let prev = ls.drop_last();
        lemma_settlement_positions(prev);
        assert(ls.filter(settling()) == if settling()(ls.last()) {
            prev.filter(settling()).push(ls.last())
        } else {
            prev.filter(settling())
        });
        assert(settlement_positions(ls) =~= ls.filter(settling()).map_values(place_of()));
        assert forall|k: int| 0 <= k < ls.len() && settlement(ls[k].site) implies settlement_positions(ls).contains(
            (#[trigger] ls[k].x, ls[k].y)) by {
            let sp = settlement_positions(ls);
            if k == ls.len() - 1 {
                assert(sp[sp.len() - 1] == (ls[k].x, ls[k].y));
            } else {
                assert(prev[k] == ls[k]);
                assert(settlement_positions(prev).contains((prev[k].x, prev[k].y)));
                let j = choose|j: int| 0 <= j < settlement_positions(prev).len() && settlement_positions(prev)[j] == (
                    prev[k].x, prev[k].y);
                assert(sp[j] == (ls[k].x, ls[k].y));
            }
        }
    } else {
        assert(settlement_positions(ls) =~= ls.filter(settling()).map_values(place_of()));
    }
}

/// Among `towns[0..k]` other than `i` and `skip`: there is a candidate
/// exactly when some index is neither, and the one chosen is one of them at
/// Manhattan distance from town `i` no greater than any other's.
proof fn lemma_nearest_other(towns: Seq<(i32, i32)>, i: int, skip: int, k: nat)
    ensures
        nearest_other(towns, i, skip, k) is None <==> (k == 0 || (k == 1 && (i == 0 || skip == 0)) || (k == 2 && ((i
            == 0 && skip == 1) || (i == 1 && skip == 0)))),
        nearest_other(towns, i, skip, k) matches Some(a) ==> {
            &&& 0 <= a < k
            &&& a != i
            &&& a != skip
            &&& forall|j: int| 0 <= j < k && j != i && j != skip ==> town_dist(towns, i, a) <= #[trigger] town_dist(
                towns,
                i,
                j,
            )
            &&& forall|j: int| 0 <= j < a && j != i && j != skip ==> town_dist(towns, i, a) < #[trigger] town_dist(
                towns,
                i,
                j,
            )
        },
    decreases k,
{
    if k > 0 {
        lemma_nearest_other(towns, i, skip, (k - 1) as nat);
    }
}

/// The roads each town asks for go to its nearest peers: with two or more
/// towns, the first joins town `i` to a town at Manhattan distance no
/// greater than any other town's; with three or more, the second joins it
/// to a different town at distance no greater than any town but `i` and the
/// first. Among equally near towns the earlier one is taken. Town `i` asks
/// for one road per other town, at most two.
pub proof fn lemma_roads_to_nearest(towns: Seq<(i32, i32)>, i: int)
    requires
        0 <= i < towns.len(),
    ensures
        road_targets(towns, i).len() == if towns.len() >= 3 { 2 } else { towns.len() - 1 },
        forall|q: int| 0 <= q < road_targets(towns, i).len() ==> (#[trigger] road_targets(towns, i)[q]).0 == towns[i],
        towns.len() >= 2 ==> exists|a: int|
            #![trigger towns[a]]
            {
                &&& 0 <= a < towns.len()
                &&& a != i
                &&& road_targets(towns, i)[0].1 == towns[a]
                &&& forall|k: int| 0 <= k < towns.len() && k != i ==> town_dist(towns, i, a) <= #[trigger] town_dist(
                    towns,
                    i,
                    k,
                )
                &&& forall|k: int| 0 <= k < a && k != i ==> town_dist(towns, i, a) < #[trigger] town_dist(towns, i, k)
                &&& towns.len() >= 3 ==> exists|b: int|
                    #![trigger towns[b]]
                    {
                        &&& 0 <= b < towns.len()
                        &&& b != i
                        &&& b != a
                        &&& road_targets(towns, i)[1].1 == towns[b]
                        &&& forall|k: int| 0 <= k < towns.len() && k != i && k != a ==> town_dist(towns, i, b)
                            <= #[trigger] town_dist(towns, i, k)
                        &&& forall|k: int| 0 <= k < b && k != i && k != a ==> town_dist(towns, i, b)
                            < #[trigger] town_dist(towns, i, k)
                    }
            },
{
    let n = towns.len();
    lemma_nearest_other(towns, i, n as int, n);
    let r = road_targets(towns, i);
    if n >= 2 {
        let j0: int = if i == 0 { 1 } else { 0 };
        assert(!(j0 == i || j0 == n));
        let a = nearest_other(towns, i, n as int, n)->0;
        lemma_nearest_other(towns, i, a, n);
        assert(r[0].1 == towns[a]);
        if n >= 3 {
            let j1: int = if i != 0 && a != 0 { 0 } else if i != 1 && a != 1 { 1 } else { 2 };
            assert(!(j1 == i || j1 == a));
            let b = nearest_other(towns, i, a, n)->0;
            assert(r[1].1 == towns[b]);
            assert(towns[b] == towns[b]);
        }
        assert(towns[a] == towns[a]);
    }
}

/// Steepest descent: water leaves cell `i` for a cardinal neighbour whose
/// `descent` key is below the `level` key of `i` and no greater than that
/// of any other such neighbour, the first such in the order north, east,
/// south, west; it stays put exactly when there is none.
pub proof fn lemma_flow_steepest(w: int, h: int, level: Seq<i64>, descent: Seq<i64>, i: int)
    ensures
        flow_upto(w, h, level, descent, i, 4) is None <==> forall|d: int|
            0 <= d < 4 ==> (#[trigger] step_from(w, h, i, d) matches Some(k) ==> descent[k] >= level[i]),
        flow_upto(w, h, level, descent, i, 4) matches Some(j) ==> {
            &&& exists|d: int|
                0 <= d < 4 && #[trigger] step_from(w, h, i, d) == Some(j) && forall|e: int|
                    0 <= e < d ==> (#[trigger] step_from(w, h, i, e) matches Some(q) ==> (descent[q] < level[i]
                        ==> descent[j] < descent[q]))
            &&& descent[j] < level[i]
            &&& forall|d: int|
                0 <= d < 4 ==> (#[trigger] step_from(w, h, i, d) matches Some(k) ==> (descent[k] < level[i]
                    ==> descent[j] <= descent[k]))
        },
{
    lemma_flow_upto(w, h, level, descent, i, 4);
}

/// [`lemma_flow_steepest`] for the first `k` directions.
proof fn lemma_flow_upto(w: int, h: int, level: Seq<i64>, descent: Seq<i64>, i: int, k: nat)
    ensures
        flow_upto(w, h, level, descent, i, k) is None <==> forall|d: int|
            0 <= d < k ==> (#[trigger] step_from(w, h, i, d) matches Some(q) ==> descent[q] >= level[i]),
        flow_upto(w, h, level, descent, i, k) matches Some(j) ==> {
            &&& exists|d: int|
                0 <= d < k && #[trigger] step_from(w, h, i, d) == Some(j) && forall|e: int|
                    0 <= e < d ==> (#[trigger] step_from(w, h, i, e) matches Some(q) ==> (descent[q] < level[i]
                        ==> descent[j] < descent[q]))
            &&& descent[j] < level[i]
            &&& forall|d: int|
                0 <= d < k ==> (#[trigger] step_from(w, h, i, d) matches Some(q) ==> (descent[q] < level[i]
                    ==> descent[j] <= descent[q]))
        },
    decreases k,
{
    if k > 0 {
        lemma_flow_upto(w, h, level, descent, i, (k - 1) as nat);
        let s = step_from(w, h, i, k - 1);
        assert(s == step_from(w, h, i, k - 1));
    }
}

} // verus!
