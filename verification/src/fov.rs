//! Field of view and fog of war.
//!
//! - **Field of view** is a geometric query: from here, with these obstacles,
//!   what can be seen right now? [`shadowcast`] answers it on a square grid
//!   and [`hex_fov`] on a hex grid.
//! - **Fog of war** is accumulated memory: what has *ever* been seen, and is
//!   it visible at this instant? [`FogMap`] tracks it across turns.

use vstd::prelude::*;

use crate::geom::hex::{
    lemma_distance_is_metric, lemma_spiral_covers_once, line_converts, line_tiles, ring_converts,
    spiral_tiles, to_axial, HexLayout,
};
use crate::geom::{hex_line, hex_spiral, Tile};

verus! {

/// What the player knows about a tile, ordered by how much it reveals.
#[derive(Debug, Clone, Copy, PartialEq, Eq, Structural, PartialOrd, Ord, Hash, Default)]
pub enum Visibility {
    /// Never seen. Draw nothing but shroud.
    #[default]
    Unknown,
    /// Seen before, not visible now. Draw remembered terrain, dimmed, with no
    /// units.
    Explored,
    /// Visible right now. Draw everything.
    Visible,
}

impl Visibility {
    /// Whether terrain should be drawn at all: anything ever seen.
    pub fn shows_terrain(self) -> (b: bool)
        ensures
            b == (self == Visibility::Explored || self == Visibility::Visible),
    {
        match self {
            Visibility::Explored | Visibility::Visible => true,
            Visibility::Unknown => false,
        }
    }

    /// Whether transient contents (units, animation) should be drawn: only
    /// what is visible right now.
    pub fn shows_units(self) -> (b: bool)
        ensures
            b == (self == Visibility::Visible),
    {
        match self {
            Visibility::Visible => true,
            _ => false,
        }
    }
}

/// Per-tile visibility over a rectangular map.
#[derive(Debug, Clone)]
pub struct FogMap {
    width: usize,
    height: usize,
    tiles: Vec<Visibility>,
}

impl FogMap {
    /// The tiles are exactly `width * height`, row-major.
    pub closed spec fn wf(&self) -> bool {
        &&& self.tiles@.len() == self.width * self.height
        &&& self.width <= u16::MAX
        &&& self.height <= u16::MAX
    }

    /// Map width in tiles.
    pub closed spec fn spec_width(&self) -> int {
        self.width as int
    }

    /// Map height in tiles.
    pub closed spec fn spec_height(&self) -> int {
        self.height as int
    }

    /// Whether `(x, y)` is inside the map.
    pub open spec fn inside(&self, x: int, y: int) -> bool {
        0 <= x < self.spec_width() && 0 <= y < self.spec_height()
    }

    /// The visibility of every tile, row-major.
    pub closed spec fn cells(&self) -> Seq<Visibility> {
        self.tiles@
    }

    /// Visibility at `(x, y)`: [`Visibility::Unknown`] off the map.
    pub open spec fn at(&self, x: int, y: int) -> Visibility {
        if self.inside(x, y) {
            self.cells()[y * self.spec_width() + x]
        } else {
            Visibility::Unknown
        }
    }

    /// How many tiles have ever been seen.
    pub open spec fn seen(&self) -> int {
        self.cells().filter(|v: Visibility| v != Visibility::Unknown).len() as int
    }

    /// A fully unexplored map.
    pub fn new(width: u16, height: u16) -> (f: Self)
        ensures
            f.wf(),
            f.spec_width() == width,
            f.spec_height() == height,
            forall|x: int, y: int| #[trigger] f.at(x, y) == Visibility::Unknown,
    {
        let (w, h) = (width as usize, height as usize);
        proof {
            assert(w * h <= 0xFFFF * 0xFFFF) by (nonlinear_arith)
                requires w <= 0xFFFF, h <= 0xFFFF;
        }
        let n = w * h;
        let mut tiles: Vec<Visibility> = Vec::new();
        let mut k: usize = 0;
        while k < n
            invariant
                k <= n,
                tiles@.len() == k,
                forall|j: int| 0 <= j < k ==> tiles@[j] == Visibility::Unknown,
            decreases n - k,
        {
            tiles.push(Visibility::Unknown);
            k += 1;
        }
        let f = FogMap { width: w, height: h, tiles };
        proof {
            assert forall|x: int, y: int| #[trigger] f.at(x, y) == Visibility::Unknown by {
                if f.inside(x, y) {
                    assert(y * w + x < w * h) by (nonlinear_arith)
                        requires 0 <= x < w, 0 <= y < h;
                    assert(0 <= y * w) by (nonlinear_arith)
                        requires 0 <= y, 0 <= w;
                }
            }
        }
        f
    }

    /// Map size in tiles.
    pub fn size(&self) -> (s: (usize, usize))
        ensures
            s.0 == self.spec_width() && s.1 == self.spec_height(),
    {
        (self.width, self.height)
    }

    /// Whether `(x, y)` is inside the map.
    pub fn in_bounds(&self, x: i32, y: i32) -> (b: bool)
        ensures
            b == self.inside(x as int, y as int),
    {
        x >= 0 && y >= 0 && (x as usize) < self.width && (y as usize) < self.height
    }

    fn index(&self, x: i32, y: i32) -> (i: Option<usize>)
        requires
            self.wf(),
        ensures
            i is Some <==> self.inside(x as int, y as int),
            i matches Some(v) ==> v == y * self.spec_width() + x && v < self.cells().len(),
    {
        if self.in_bounds(x, y) {
            proof {
                assert(y * self.width + x < self.width * self.height) by (nonlinear_arith)
                    requires 0 <= x < self.width, 0 <= y < self.height;
                assert(0 <= y * self.width) by (nonlinear_arith)
                    requires 0 <= y, 0 <= self.width;
                assert(self.width * self.height <= 0xFFFF * 0xFFFF) by (nonlinear_arith)
                    requires self.width <= 0xFFFF, self.height <= 0xFFFF;
            }
            Some(y as usize * self.width + x as usize)
        } else {
            None
        }
    }

    /// Visibility at `(x, y)`, or [`Visibility::Unknown`] out of bounds.
    pub fn get(&self, x: i32, y: i32) -> (v: Visibility)
        requires
            self.wf(),
        ensures
            v == self.at(x as int, y as int),
    {
        match self.index(x, y) {
            Some(i) => self.tiles[i],
            None => Visibility::Unknown,
        }
    }

    /// Demotes every currently visible tile to explored; nothing else
    /// changes, so what has been seen stays seen.
    pub fn begin_turn(&mut self)
        requires
            old(self).wf(),
        ensures
            final(self).wf(),
            final(self).spec_width() == old(self).spec_width(),
            final(self).spec_height() == old(self).spec_height(),
            forall|x: int, y: int| #[trigger] final(self).at(x, y) == (if old(self).at(x, y) == Visibility::Visible {
                Visibility::Explored
            } else {
                old(self).at(x, y)
            }),
    {
        let n = self.tiles.len();
        let mut k: usize = 0;
        while k < n
            invariant
                n == self.tiles@.len(),
                self.width == old(self).width,
                self.height == old(self).height,
                self.tiles@.len() == old(self).tiles@.len(),
                k <= n,
                forall|j: int| 0 <= j < k ==> self.tiles@[j] == (if old(self).tiles@[j] == Visibility::Visible {
                    Visibility::Explored
                } else {
                    old(self).tiles@[j]
                }),
                forall|j: int| k <= j < n ==> self.tiles@[j] == old(self).tiles@[j],
            decreases n - k,
        {
            if self.tiles[k] == Visibility::Visible {
                self.tiles.set(k, Visibility::Explored);
            }
            k += 1;
        }
        proof {
            assert forall|x: int, y: int| #[trigger] self.at(x, y) == (if old(self).at(x, y) == Visibility::Visible {
                Visibility::Explored
            } else {
                old(self).at(x, y)
            }) by {
                if self.inside(x, y) {
                    assert(y * self.width + x < self.width * self.height) by (nonlinear_arith)
                        requires 0 <= x < self.width, 0 <= y < self.height;
                    assert(0 <= y * self.width) by (nonlinear_arith)
                        requires 0 <= y, 0 <= self.width;
                }
            }
        }
    }

    /// Marks `(x, y)` visible; out of bounds, nothing changes.
    pub fn reveal_at(&mut self, x: i32, y: i32)
        requires
            old(self).wf(),
        ensures
            final(self).wf(),
            final(self).spec_width() == old(self).spec_width(),
            final(self).spec_height() == old(self).spec_height(),
            forall|x2: int, y2: int| #[trigger] final(self).at(x2, y2) == (if x2 == x && y2 == y && old(self).inside(x2, y2) {
                Visibility::Visible
            } else {
                old(self).at(x2, y2)
            }),
    {
        if let Some(i) = self.index(x, y) {
            self.tiles.set(i, Visibility::Visible);
            proof {
                assert forall|x2: int, y2: int| #[trigger] self.at(x2, y2) == (if x2 == x && y2 == y && old(self).inside(x2, y2) {
                    Visibility::Visible
                } else {
                    old(self).at(x2, y2)
                }) by {
                    if self.inside(x2, y2) {
                        lemma_row_major_distinct(x as int, y as int, x2, y2, self.width as int, self.height as int);
                    }
                }
            }
        }
    }

    /// Marks everything visible.
    pub fn reveal_all(&mut self)
        requires
            old(self).wf(),
        ensures
            final(self).wf(),
            final(self).spec_width() == old(self).spec_width(),
            final(self).spec_height() == old(self).spec_height(),
            forall|x: int, y: int| #[trigger] final(self).at(x, y) == (if old(self).inside(x, y) {
                Visibility::Visible
            } else {
                Visibility::Unknown
            }),
    {
        self.fill(Visibility::Visible);
    }

    /// Resets everything to unexplored.
    pub fn reset(&mut self)
        requires
            old(self).wf(),
        ensures
            final(self).wf(),
            final(self).spec_width() == old(self).spec_width(),
            final(self).spec_height() == old(self).spec_height(),
            forall|x: int, y: int| #[trigger] final(self).at(x, y) == Visibility::Unknown,
    {
        self.fill(Visibility::Unknown);
    }

    fn fill(&mut self, v: Visibility)
        requires
            old(self).wf(),
        ensures
            final(self).wf(),
            final(self).width == old(self).width,
            final(self).height == old(self).height,
            forall|j: int| 0 <= j < final(self).tiles@.len() ==> final(self).tiles@[j] == v,
            forall|x: int, y: int| #[trigger] final(self).at(x, y) == (if old(self).inside(x, y) {
                v
            } else {
                Visibility::Unknown
            }),
    {
        let n = self.tiles.len();
        let mut k: usize = 0;
        while k < n
            invariant
                n == self.tiles@.len(),
                self.width == old(self).width,
                self.height == old(self).height,
                self.tiles@.len() == old(self).tiles@.len(),
                k <= n,
                forall|j: int| 0 <= j < k ==> self.tiles@[j] == v,
            decreases n - k,
        {
            self.tiles.set(k, v);
            k += 1;
        }
        proof {
            assert forall|x: int, y: int| #[trigger] self.at(x, y) == (if old(self).inside(x, y) {
                v
            } else {
                Visibility::Unknown
            }) by {
                if self.inside(x, y) {
                    assert(y * self.width + x < self.width * self.height) by (nonlinear_arith)
                        requires 0 <= x < self.width, 0 <= y < self.height;
                    assert(0 <= y * self.width) by (nonlinear_arith)
                        requires 0 <= y, 0 <= self.width;
                }
            }
        }
    }

    /// How many tiles have ever been seen (explored or visible).
    pub fn explored_count(&self) -> (n: usize)
        requires
            self.wf(),
        ensures
            n == self.seen(),
    {
        let mut n: usize = 0;
        let mut k: usize = 0;
        while k < self.tiles.len()
            invariant
                k <= self.tiles@.len(),
                n == self.tiles@.take(k as int).filter(|v: Visibility| v != Visibility::Unknown).len(),
                n <= k,
            decreases self.tiles@.len() - k,
        {
            proof {
                let s = self.tiles@.take(k as int + 1);
                assert(s.drop_last() =~= self.tiles@.take(k as int));
                reveal(Seq::filter);
            }
            if self.tiles[k] != Visibility::Unknown {
                n += 1;
            }
            k += 1;
        }
        proof {
            assert(self.tiles@.take(k as int) =~= self.tiles@);
        }
        n
    }
}

/// Distinct in-bounds coordinates have distinct row-major indices.
proof fn lemma_row_major_distinct(x: int, y: int, x2: int, y2: int, w: int, h: int)
    requires
        0 <= x < w,
        0 <= y < h,
        0 <= x2 < w,
        0 <= y2 < h,
    ensures
        (y * w + x == y2 * w + x2) <==> (x == x2 && y == y2),
        0 <= y2 * w + x2 < w * h,
{
    if y < y2 {
        assert(y * w + x < y2 * w + x2) by (nonlinear_arith)
            requires y < y2, 0 <= x < w, 0 <= x2;
    } else if y > y2 {
        assert(y * w + x > y2 * w + x2) by (nonlinear_arith)
            requires y > y2, 0 <= x2 < w, 0 <= x;
    }
    assert(y2 * w + x2 < w * h) by (nonlinear_arith)
        requires 0 <= x2 < w, 0 <= y2 < h;
    assert(0 <= y2 * w) by (nonlinear_arith)
        requires 0 <= y2, 0 <= w;
}

// ── Shadowcasting ───────────────────────────────────────────────────────────

/// Whether `c` lies within the circle of `radius` around `(ox, oy)`.
pub open spec fn within_radius(ox: int, oy: int, radius: int, c: (i32, i32)) -> bool {
    (c.0 - ox) * (c.0 - ox) + (c.1 - oy) * (c.1 - oy) <= radius * radius
}

/// A slope `num / den` with a positive denominator, compared exactly.
#[derive(Clone, Copy)]
struct Slope {
    num: i64,
    den: i64,
}

/// One octant's basis change plus its two boundary-ownership flags: the
/// four axes and four diagonals each bound two octants, and each such ray
/// is reported by exactly one of them.
#[derive(Clone, Copy)]
struct Octant {
    xx: i32,
    xy: i32,
    yx: i32,
    yy: i32,
    skip_axis: bool,
    skip_diagonal: bool,
}

impl Octant {
    /// One of the eight signed permutations of the axes: it maps local
    /// offsets to world offsets without changing their length.
    spec fn wf(self) -> bool {
        ||| (self.xx == 1 && self.xy == 0 && self.yx == 0 && self.yy == 1)
        ||| (self.xx == 0 && self.xy == 1 && self.yx == 1 && self.yy == 0)
        ||| (self.xx == 0 && self.xy == -1 && self.yx == 1 && self.yy == 0)
        ||| (self.xx == -1 && self.xy == 0 && self.yx == 0 && self.yy == 1)
        ||| (self.xx == -1 && self.xy == 0 && self.yx == 0 && self.yy == -1)
        ||| (self.xx == 0 && self.xy == -1 && self.yx == -1 && self.yy == 0)
        ||| (self.xx == 0 && self.xy == 1 && self.yx == -1 && self.yy == 0)
        ||| (self.xx == 1 && self.xy == 0 && self.yx == 0 && self.yy == -1)
    }
}

/// The `i`th of the eight octant transforms, with the rays it leaves to
/// its neighbours.
spec fn octant_spec(i: int) -> Octant {
    if i == 0 {
        Octant { xx: 1i32, xy: 0i32, yx: 0i32, yy: 1i32, skip_axis: false, skip_diagonal: false }
    } else if i == 1 {
        Octant { xx: 0i32, xy: 1i32, yx: 1i32, yy: 0i32, skip_axis: false, skip_diagonal: true }
    } else if i == 2 {
        Octant { xx: 0i32, xy: -1i32, yx: 1i32, yy: 0i32, skip_axis: false, skip_diagonal: false }
    } else if i == 3 {
        Octant { xx: -1i32, xy: 0i32, yx: 0i32, yy: 1i32, skip_axis: true, skip_diagonal: true }
    } else if i == 4 {
        Octant { xx: -1i32, xy: 0i32, yx: 0i32, yy: -1i32, skip_axis: false, skip_diagonal: false }
    } else if i == 5 {
        Octant { xx: 0i32, xy: -1i32, yx: -1i32, yy: 0i32, skip_axis: true, skip_diagonal: true }
    } else if i == 6 {
        Octant { xx: 0i32, xy: 1i32, yx: -1i32, yy: 0i32, skip_axis: true, skip_diagonal: false }
    } else {
        Octant { xx: 1i32, xy: 0i32, yx: 0i32, yy: -1i32, skip_axis: true, skip_diagonal: true }
    }
}

/// The `i`th of the eight octant transforms.
fn octant(i: usize) -> (o: Octant)
    requires
        i < 8,
    ensures
        o.wf(),
        o == octant_spec(i as int),
{
    match i {
        0 => Octant { xx: 1, xy: 0, yx: 0, yy: 1, skip_axis: false, skip_diagonal: false },
        1 => Octant { xx: 0, xy: 1, yx: 1, yy: 0, skip_axis: false, skip_diagonal: true },
        2 => Octant { xx: 0, xy: -1, yx: 1, yy: 0, skip_axis: false, skip_diagonal: false },
        3 => Octant { xx: -1, xy: 0, yx: 0, yy: 1, skip_axis: true, skip_diagonal: true },
        4 => Octant { xx: -1, xy: 0, yx: 0, yy: -1, skip_axis: false, skip_diagonal: false },
        5 => Octant { xx: 0, xy: -1, yx: -1, yy: 0, skip_axis: true, skip_diagonal: true },
        6 => Octant { xx: 0, xy: 1, yx: -1, yy: 0, skip_axis: true, skip_diagonal: false },
        _ => Octant { xx: 1, xy: 0, yx: 0, yy: -1, skip_axis: true, skip_diagonal: true },
    }
}

/// The world offset of local offset `(dx, dy)` in octant `o`.
spec fn world_off(o: Octant, dx: int, dy: int) -> (int, int) {
    (
        if o.xx == 1 { dx } else if o.xx == -1 { -dx } else if o.xy == 1 { dy } else { -dy },
        if o.yx == 1 { dx } else if o.yx == -1 { -dx } else if o.yy == 1 { dy } else { -dy },
    )
}

/// The local offset in octant `o` of world offset `(x, y)`: the inverse of
/// [`world_off`].
spec fn local_off(o: Octant, x: int, y: int) -> (int, int) {
    (
        if o.xx == 1 { x } else if o.xx == -1 { -x } else if o.yx == 1 { y } else { -y },
        if o.xy == 1 { x } else if o.xy == -1 { -x } else if o.yy == 1 { y } else { -y },
    )
}

/// Whether octant `o` reports the tile at local offset `(dx, dy)` of a scan
/// of `radius` on open ground: it lies in the octant (`dy <= dx <= 0` on
/// rows `1..=radius` above the origin), on a ray the octant owns, within
/// the circle.
spec fn reports(o: Octant, radius: int, dx: int, dy: int) -> bool {
    &&& -radius <= dy <= -1
    &&& dy <= dx <= 0
    &&& !((dx == 0 && o.skip_axis) || (dx == dy && o.skip_diagonal))
    &&& dx * dx + dy * dy <= radius * radius
}

/// The tile at local offset `(dx, dy)` of octant `o` around `(ox, oy)`.
spec fn octant_tile(o: Octant, ox: int, oy: int, dx: int, dy: int) -> (i32, i32) {
    ((ox + world_off(o, dx, dy).0) as i32, (oy + world_off(o, dx, dy).1) as i32)
}

/// The tiles an open-ground scan reports on row `d` of octant `o`, among
/// the first `k` offsets `dx = -d, -d + 1, ...`.
spec fn row_tiles(o: Octant, ox: int, oy: int, radius: int, d: int, k: nat) -> Seq<(i32, i32)>
    decreases k,
{
    if k == 0 {
        Seq::empty()
    } else {
        let prev = row_tiles(o, ox, oy, radius, d, (k - 1) as nat);
        let dx = -d + k - 1;
        if reports(o, radius, dx, -d) {
            prev.push(octant_tile(o, ox, oy, dx, -d))
        } else {
            prev
        }
    }
}

/// The tiles an open-ground scan reports on rows `d0..=d1` of octant `o`.
spec fn octant_tiles(o: Octant, ox: int, oy: int, radius: int, d0: int, d1: int) -> Seq<(i32, i32)>
    decreases d1 - d0 + 1,
{
    if d1 < d0 {
        Seq::empty()
    } else {
        octant_tiles(o, ox, oy, radius, d0, d1 - 1) + row_tiles(o, ox, oy, radius, d1, (d1 + 1) as nat)
    }
}

/// The whole octant: from slope 1 down to slope 0.
spec fn full_arc(start: Slope, end: Slope) -> bool {
    start.num == 1 && start.den == 1 && end.num == 0 && end.den == 1
}

/// Which octant reports the nonzero world offset `(x, y)`.
spec fn owner(x: int, y: int) -> int {
    if y < 0 {
        if x <= 0 {
            if x >= y { 0 } else { 1 }
        } else {
            if x < -y { 3 } else { 2 }
        }
    } else if y == 0 {
        if x < 0 { 1 } else { 2 }
    } else {
        if x >= 0 {
            if x <= y { 4 } else { 5 }
        } else {
            if x > -y { 7 } else { 6 }
        }
    }
}

/// Local and world offsets are inverse, and have the same length.
proof fn lemma_local_world(o: Octant, x: int, y: int)
    requires
        o.wf(),
    ensures
        world_off(o, local_off(o, x, y).0, local_off(o, x, y).1) == (x, y),
        local_off(o, world_off(o, x, y).0, world_off(o, x, y).1) == (x, y),
        local_off(o, x, y).0 * local_off(o, x, y).0 + local_off(o, x, y).1 * local_off(o, x, y).1 == x * x + y * y,
{
    assert((-x) * (-x) == x * x) by (nonlinear_arith);
    assert((-y) * (-y) == y * y) by (nonlinear_arith);
}

/// Exactly one octant reports each nonzero offset within the radius, and
/// none reports the origin or anything beyond the radius.
proof fn lemma_octants_partition(radius: int, x: int, y: int, k: int)
    requires
        0 <= k < 8,
        radius > 0,
    ensures
        reports(octant_spec(k), radius, local_off(octant_spec(k), x, y).0, local_off(octant_spec(k), x, y).1) <==> (k
            == owner(x, y) && (x != 0 || y != 0) && x * x + y * y <= radius * radius),
{
    let o = octant_spec(k);
    assert(o.wf());
    lemma_local_world(o, x, y);
    let l = local_off(o, x, y);
    if x * x + y * y <= radius * radius && (x != 0 || y != 0) {
        assert(-radius <= x <= radius && -radius <= y <= radius) by (nonlinear_arith)
            requires x * x + y * y <= radius * radius, radius > 0;
    }
}

/// The tiles an open-ground scan reports on row `d` among the first `k`
/// offsets: each once, at its own offset.
proof fn lemma_row_tiles(o: Octant, ox: int, oy: int, radius: int, d: int, k: nat, c: (i32, i32))
    requires
        o.wf(),
        scan_fits(ox, oy, radius),
        radius > 0,
        1 <= d,
        k <= d + 1,
    ensures
        row_tiles(o, ox, oy, radius, d, k).no_duplicates(),
        row_tiles(o, ox, oy, radius, d, k).contains(c) <==> ({
            let l = local_off(o, c.0 - ox, c.1 - oy);
            &&& l.1 == -d
            &&& -d <= l.0 < -d + k
            &&& reports(o, radius, l.0, l.1)
        }),
    decreases k,
{
    let l = local_off(o, c.0 - ox, c.1 - oy);
    lemma_local_world(o, c.0 - ox, c.1 - oy);
    if k > 0 {
        let prev = row_tiles(o, ox, oy, radius, d, (k - 1) as nat);
        let dx = -d + k - 1;
        let t = octant_tile(o, ox, oy, dx, -d);
        lemma_row_tiles(o, ox, oy, radius, d, (k - 1) as nat, c);
        lemma_row_tiles(o, ox, oy, radius, d, (k - 1) as nat, t);
        lemma_local_world(o, dx, -d);
        if reports(o, radius, dx, -d) {
            assert(-radius <= dx <= radius && -radius <= -d <= radius);
            let w = world_off(o, dx, -d);
            assert(-radius <= w.0 <= radius && -radius <= w.1 <= radius);
            assert(t.0 - ox == w.0 && t.1 - oy == w.1);
            assert(!prev.contains(t));
            assert(prev.push(t).no_duplicates()) by {
                assert forall|i: int, j: int| 0 <= i < j < prev.push(t).len() implies prev.push(t)[i] != prev.push(t)[j] by {
                    if j == prev.len() {
                        assert(prev.push(t)[i] == prev[i]);
                    }
                }
            }
            if c == t {
                assert(prev.push(t).contains(c)) by {
                    assert(prev.push(t)[prev.len() as int] == t);
                }
            } else {
                if prev.push(t).contains(c) {
                    let i = choose|i: int| 0 <= i < prev.push(t).len() && prev.push(t)[i] == c;
                    assert(prev[i] == c);
                }
                if prev.contains(c) {
                    let i = choose|i: int| 0 <= i < prev.len() && prev[i] == c;
                    assert(prev.push(t)[i] == c);
                }
                if l.1 == -d && l.0 == dx {
                    assert(world_off(o, l.0, l.1) == (c.0 - ox, c.1 - oy));
                }
            }
        }
    }
}

/// The tiles an open-ground scan of an octant reports on rows `d0..=d1`:
/// each once, at its own offset.
proof fn lemma_octant_tiles(o: Octant, ox: int, oy: int, radius: int, d0: int, d1: int, c: (i32, i32))
    requires
        o.wf(),
        scan_fits(ox, oy, radius),
        radius > 0,
        1 <= d0,
    ensures
        octant_tiles(o, ox, oy, radius, d0, d1).no_duplicates(),
        octant_tiles(o, ox, oy, radius, d0, d1).contains(c) <==> ({
            let l = local_off(o, c.0 - ox, c.1 - oy);
            &&& -d1 <= l.1 <= -d0
            &&& reports(o, radius, l.0, l.1)
        }),
    decreases d1 - d0 + 1,
{
    if d1 >= d0 {
        let a = octant_tiles(o, ox, oy, radius, d0, d1 - 1);
        let b = row_tiles(o, ox, oy, radius, d1, (d1 + 1) as nat);
        lemma_octant_tiles(o, ox, oy, radius, d0, d1 - 1, c);
        lemma_row_tiles(o, ox, oy, radius, d1, (d1 + 1) as nat, c);
        assert forall|t: (i32, i32)| a.contains(t) implies !b.contains(t) by {
            lemma_octant_tiles(o, ox, oy, radius, d0, d1 - 1, t);
            lemma_row_tiles(o, ox, oy, radius, d1, (d1 + 1) as nat, t);
        }
        lemma_no_dup_concat(a, b);
        lemma_contains_concat(a, b, c);
    }
}

/// Two duplicate-free sequences with nothing in common concatenate to a
/// duplicate-free sequence.
proof fn lemma_no_dup_concat<T>(a: Seq<T>, b: Seq<T>)
    requires
        a.no_duplicates(),
        b.no_duplicates(),
        forall|t: T| a.contains(t) ==> !b.contains(t),
    ensures
        (a + b).no_duplicates(),
{
    let s = a + b;
    assert forall|i: int, j: int| 0 <= i < j < s.len() implies s[i] != s[j] by {
        if j < a.len() {
            assert(s[i] == a[i] && s[j] == a[j]);
        } else if i >= a.len() {
            assert(s[i] == b[i - a.len()] && s[j] == b[j - a.len()]);
        } else {
            assert(s[i] == a[i] && s[j] == b[j - a.len()]);
            assert(a.contains(s[i]));
            assert(b.contains(s[j]));
        }
    }
}

/// What a concatenation contains is what either part contains.
proof fn lemma_contains_concat<T>(a: Seq<T>, b: Seq<T>, t: T)
    ensures
        (a + b).contains(t) <==> (a.contains(t) || b.contains(t)),
{
    let s = a + b;
    if s.contains(t) {
        let i = choose|i: int| 0 <= i < s.len() && s[i] == t;
        if i < a.len() {
            assert(a[i] == t);
        } else {
            assert(b[i - a.len()] == t);
        }
    }
    if a.contains(t) {
        let i = choose|i: int| 0 <= i < a.len() && a[i] == t;
        assert(s[i] == t);
    }
    if b.contains(t) {
        let i = choose|i: int| 0 <= i < b.len() && b[i] == t;
        assert(s[i + a.len()] == t);
    }
}

/// Whether nothing blocks sight: the test answers `false` everywhere.
pub open spec fn open_ground<B: Fn(i32, i32) -> bool>(blocks: B) -> bool {
    forall|x: i32, y: i32, v: bool| call_ensures(blocks, (x, y), v) ==> !v
}

/// Whether a slope's parts stay within what a scan of `radius` rows
/// produces.
spec fn slope_ok(s: Slope, radius: int) -> bool {
    -(2 * radius + 1) <= s.num <= 2 * radius + 1 && 0 < s.den <= 2 * radius + 1
}

/// Whether the blocking test answers the same for the same tile.
pub open spec fn sight_deterministic<B: Fn(i32, i32) -> bool>(blocks: B) -> bool {
    forall|x: i32, y: i32, b1: bool, b2: bool|
        call_ensures(blocks, (x, y), b1) && call_ensures(blocks, (x, y), b2) ==> b1 == b2
}

/// The tiles for which the blocking test may answer yes.
pub open spec fn blocker_of<B: Fn(i32, i32) -> bool>(blocks: B) -> spec_fn(i32, i32) -> bool {
    |x: i32, y: i32| call_ensures(blocks, (x, y), true)
}

/// The slope to the leading edge of the tile at local `(dx, -d)`.
spec fn left_slope(dx: int, d: int) -> Slope {
    Slope { num: (1 - 2 * dx) as i64, den: (2 * d - 1) as i64 }
}

/// The slope to the trailing edge of the tile at local `(dx, -d)`.
spec fn right_slope(dx: int, d: int) -> Slope {
    Slope { num: (-2 * dx - 1) as i64, den: (2 * d + 1) as i64 }
}

/// `a` is steeper than `b`.
spec fn steeper(a: Slope, b: Slope) -> bool {
    a.num * b.den > b.num * a.den
}

/// What one octant's scan reports, from row `row` outward, between the
/// slopes `start` and `end`, where `blocked(x, y)` says which tiles stop
/// sight: nothing if the arc is empty, else its rows in turn.
spec fn scan_octant(
    o: Octant,
    ox: int,
    oy: int,
    radius: int,
    blocked: spec_fn(i32, i32) -> bool,
    row: int,
    start: Slope,
    end: Slope,
) -> Seq<(i32, i32)>
    decreases radius + 1 - row, 2int, 0int,
{
    if steeper(end, start) {
        seq![]
    } else {
        scan_rows(o, ox, oy, radius, blocked, end, row, start, false, start)
    }
}

/// The rows from `d` outward, with the scan's state: the current start
/// slope, whether the previous tile blocked, and the slope the arc resumes
/// at past the blockers. A row that ends blocked ends the scan.
spec fn scan_rows(
    o: Octant,
    ox: int,
    oy: int,
    radius: int,
    blocked: spec_fn(i32, i32) -> bool,
    end: Slope,
    d: int,
    start: Slope,
    in_wall: bool,
    next: Slope,
) -> Seq<(i32, i32)>
    decreases radius + 1 - d, 1int, 0int,
{
    if d > radius || in_wall {
        seq![]
    } else {
        scan_cells(o, ox, oy, radius, blocked, end, d, -d - 1, start, in_wall, next)
    }
}

/// Row `d` from the tile after local `(dx, -d)` on, then the rows beyond.
/// A tile beyond the start slope is skipped; one past the end slope ends
/// the row. Each tile in the arc is reported if the octant owns it and it
/// lies within the radius; a blocker that opens a wall starts a narrower
/// scan of the rows beyond, and the first clear tile after a wall resumes
/// the arc.
spec fn scan_cells(
    o: Octant,
    ox: int,
    oy: int,
    radius: int,
    blocked: spec_fn(i32, i32) -> bool,
    end: Slope,
    d: int,
    dx: int,
    start: Slope,
    in_wall: bool,
    next: Slope,
) -> Seq<(i32, i32)>
    decreases radius + 1 - d, 0int, 0 - dx,
{
    if !(1 <= d <= radius) {
        seq![]
    } else if dx >= 0 {
        scan_rows(o, ox, oy, radius, blocked, end, d + 1, start, in_wall, next)
    } else {
        let x = dx + 1;
        let left = left_slope(x, d);
        let right = right_slope(x, d);
        let t = octant_tile(o, ox, oy, x, -d);
        if steeper(right, start) {
            scan_cells(o, ox, oy, radius, blocked, end, d, x, start, in_wall, next)
        } else if steeper(end, left) {
            scan_rows(o, ox, oy, radius, blocked, end, d + 1, start, in_wall, next)
        } else {
            let out: Seq<(i32, i32)> = if reports(o, radius, x, -d) { seq![t] } else { seq![] };
            if in_wall {
                if blocked(t.0, t.1) {
                    out + scan_cells(o, ox, oy, radius, blocked, end, d, x, start, true, right)
                } else {
                    out + scan_cells(o, ox, oy, radius, blocked, end, d, x, next, false, next)
                }
            } else if blocked(t.0, t.1) && d < radius {
                out + scan_octant(o, ox, oy, radius, blocked, d + 1, start, left)
                    + scan_cells(o, ox, oy, radius, blocked, end, d, x, start, true, right)
            } else {
                out + scan_cells(o, ox, oy, radius, blocked, end, d, x, start, in_wall, next)
            }
        }
    }
}

/// The first `i` octants' scans around `(ox, oy)`, in octant order, each
/// over the full arc from row 1.
spec fn octant_scans(ox: int, oy: int, radius: int, blocked: spec_fn(i32, i32) -> bool, i: int) -> Seq<(i32, i32)>
    decreases i,
{
    if i <= 0 {
        seq![]
    } else {
        octant_scans(ox, oy, radius, blocked, i - 1) + scan_octant(octant_spec(i - 1), ox, oy, radius, blocked, 1,
            Slope { num: 1, den: 1 }, Slope { num: 0, den: 1 })
    }
}

/// What [`shadowcast`] reports when `blocked` says which tiles stop sight:
/// the origin, then, for a positive radius, the eight octants' scans in
/// turn.
pub closed spec fn shadow_view(ox: i32, oy: i32, radius: i32, blocked: spec_fn(i32, i32) -> bool) -> Seq<(i32, i32)> {
    if radius <= 0 {
        seq![(ox, oy)]
    } else {
        seq![(ox, oy)] + octant_scans(ox as int, oy as int, radius as int, blocked, 8)
    }
}

/// Whether the blocking test may be asked about every tile of the square
/// of `radius` around `(ox, oy)`, which is all that a scan asks about; for
/// a radius of zero or less it is asked about nothing.
pub open spec fn scan_callable<B: Fn(i32, i32) -> bool>(blocks: B, ox: int, oy: int, radius: int) -> bool {
    forall|x: i32, y: i32|
        radius > 0 && ox - radius <= x <= ox + radius && oy - radius <= y <= oy + radius
            ==> call_requires(blocks, (x, y))
}

/// Whether a scan of `radius` around `(ox, oy)` stays within `i32`.
pub open spec fn scan_fits(ox: int, oy: int, radius: int) -> bool {
    radius > 0 ==> {
        &&& 2 * radius * radius <= i32::MAX
        &&& i32::MIN <= ox - radius && ox + radius <= i32::MAX
        &&& i32::MIN <= oy - radius && oy + radius <= i32::MAX
    }
}

/// Applies an octant's transform to a local offset: the world offset has
/// the same length, and each coordinate is one of the local ones up to sign.
fn transform(o: Octant, dx: i32, dy: i32) -> (w: (i32, i32))
    requires
        o.wf(),
        dx != i32::MIN,
        dy != i32::MIN,
    ensures
        w.0 * w.0 + w.1 * w.1 == dx * dx + dy * dy,
        w.0 == dx || w.0 == -dx || w.0 == dy || w.0 == -dy,
        w.1 == dx || w.1 == -dx || w.1 == dy || w.1 == -dy,
        (w.0 as int, w.1 as int) == world_off(o, dx as int, dy as int),
{
    let w0 = if o.xx == 1 { dx } else if o.xx == -1 { -dx } else if o.xy == 1 { dy } else { -dy };
    let w1 = if o.yx == 1 { dx } else if o.yx == -1 { -dx } else if o.yy == 1 { dy } else { -dy };
    proof {
        assert((-dx) * (-dx) == dx * dx) by (nonlinear_arith);
        assert((-dy) * (-dy) == dy * dy) by (nonlinear_arith);
    }
    (w0, w1)
}

/// Slopes of a scan of `radius` rows cross-multiply without overflow.
proof fn lemma_slope_products(a: Slope, b: Slope, radius: int)
    requires
        slope_ok(a, radius),
        slope_ok(b, radius),
        0 < radius <= 32767,
    ensures
        -0x10_0000_0000 < a.num * b.den < 0x10_0000_0000,
        -0x10_0000_0000 < b.num * a.den < 0x10_0000_0000,
{
    let m = 2 * radius + 1;
    assert(-(m * m) <= a.num * b.den <= m * m) by (nonlinear_arith)
        requires -m <= a.num <= m, 0 < b.den <= m;
    assert(-(m * m) <= b.num * a.den <= m * m) by (nonlinear_arith)
        requires -m <= b.num <= m, 0 < a.den <= m;
    assert(m * m < 0x10_0000_0000) by (nonlinear_arith)
        requires m == 2 * radius + 1, 0 < radius <= 32767;
}

/// A radius whose doubled square fits in `i32` is at most 32767.
proof fn lemma_radius_bound(radius: int)
    requires
        0 < radius,
        2 * radius * radius <= i32::MAX,
    ensures
        radius <= 32767,
{
    if radius > 32767 {
        assert(2 * radius * radius >= 2 * 32768 * 32768) by (nonlinear_arith)
            requires radius >= 32768;
    }
}

/// One octant of [`shadowcast`], scanning rows `row..=radius` between the
/// two slopes and recursing whenever a run of blocking tiles splits the
/// visible arc in two. Every reported tile is appended to `seen`.
#[verifier::rlimit(40)]
fn cast_octant<B: Fn(i32, i32) -> bool>(
    ox: i32,
    oy: i32,
    radius: i32,
    row: i32,
    start: Slope,
    end: Slope,
    oct: Octant,
    blocks: &B,
    seen: &mut Vec<(i32, i32)>,
)
    requires
        scan_callable(*blocks, ox as int, oy as int, radius as int),
        radius > 0,
        scan_fits(ox as int, oy as int, radius as int),
        1 <= row <= radius + 1,
        slope_ok(start, radius as int),
        slope_ok(end, radius as int),
        oct.wf(),
    ensures
        final(seen)@.len() >= old(seen)@.len(),
        final(seen)@.take(old(seen)@.len() as int) == old(seen)@,
        forall|i: int| old(seen)@.len() <= i < final(seen)@.len()
            ==> within_radius(ox as int, oy as int, radius as int, #[trigger] final(seen)@[i]),
        open_ground(*blocks) && full_arc(start, end) ==> final(seen)@ == old(seen)@ + octant_tiles(oct, ox as int,
            oy as int, radius as int, row as int, radius as int),
        sight_deterministic(*blocks) ==> final(seen)@ == old(seen)@ + scan_octant(oct, ox as int, oy as int,
            radius as int, blocker_of(*blocks), row as int, start, end),
    decreases radius + 1 - row,
{
    let ghost base = seen@;
    let ghost start0 = start;
    let ghost open = open_ground(*blocks) && full_arc(start, end);
    let ghost det = sight_deterministic(*blocks);
    let ghost blk = blocker_of(*blocks);
    let ghost goal = base + scan_octant(oct, ox as int, oy as int, radius as int, blk, row as int, start, end);
    proof {
        lemma_radius_bound(radius as int);
        lemma_slope_products(start, end, radius as int);
    }
    proof {
        if open {
            assert(start.num * end.den == 1 && end.num * start.den == 0) by (nonlinear_arith)
                requires start.num == 1, start.den == 1, end.num == 0, end.den == 1;
        }
    }
    if start.num * end.den < end.num * start.den {
        proof {
            assert(seen@ + scan_octant(oct, ox as int, oy as int, radius as int, blk, row as int, start, end) =~= seen@);
        }
        return;
    }
    proof {
        assert(radius * radius <= i32::MAX) by (nonlinear_arith)
            requires 2 * radius * radius <= i32::MAX;
    }
    let radius_sq = radius * radius;
    let mut start = start;
    let mut blocked = false;
    let mut next_start = start;
    let mut distance = row;
    while distance <= radius
        invariant
            scan_callable(*blocks, ox as int, oy as int, radius as int),
            0 < radius <= 32767,
            radius_sq == radius * radius,
            scan_fits(ox as int, oy as int, radius as int),
            1 <= row <= distance <= radius + 1,
            slope_ok(start, radius as int),
            slope_ok(end, radius as int),
            slope_ok(next_start, radius as int),
            oct.wf(),
            seen@.len() >= base.len(),
            seen@.take(base.len() as int) == base,
            forall|i: int| base.len() <= i < seen@.len()
                ==> within_radius(ox as int, oy as int, radius as int, #[trigger] seen@[i]),
            open == (open_ground(*blocks) && full_arc(start0, end)),
            open ==> start.num == 1 && start.den == 1 && !blocked
                && seen@ == base + octant_tiles(oct, ox as int, oy as int, radius as int, row as int, distance - 1),
            det == sight_deterministic(*blocks),
            blk == blocker_of(*blocks),
            goal == base + scan_octant(oct, ox as int, oy as int, radius as int, blk, row as int, start0, end),
            det ==> goal == seen@ + scan_rows(oct, ox as int, oy as int, radius as int, blk, end, distance as int,
                start, blocked, next_start),
        ensures
            open ==> distance == radius + 1,
            det ==> goal == seen@,
        decreases radius + 1 - distance,
    {
        if blocked {
            proof {
                assert(seen@ + scan_rows(oct, ox as int, oy as int, radius as int, blk, end, distance as int,
                    start, blocked, next_start) =~= seen@);
            }
            break;
        }
        let delta_y = -distance;
        let mut delta_x = -distance - 1;
        while delta_x < 0
            invariant_except_break
                det ==> goal == seen@ + scan_cells(oct, ox as int, oy as int, radius as int, blk, end,
                    distance as int, delta_x as int, start, blocked, next_start),
            invariant
                scan_callable(*blocks, ox as int, oy as int, radius as int),
                0 < radius <= 32767,
                radius_sq == radius * radius,
                scan_fits(ox as int, oy as int, radius as int),
                1 <= row <= distance <= radius,
                delta_y == -distance,
                -distance - 1 <= delta_x <= 0,
                slope_ok(start, radius as int),
                slope_ok(end, radius as int),
                slope_ok(next_start, radius as int),
                oct.wf(),
                seen@.len() >= base.len(),
                seen@.take(base.len() as int) == base,
                forall|i: int| base.len() <= i < seen@.len()
                    ==> within_radius(ox as int, oy as int, radius as int, #[trigger] seen@[i]),
                open == (open_ground(*blocks) && full_arc(start0, end)),
                open ==> start.num == 1 && start.den == 1 && !blocked
                    && seen@ == base + octant_tiles(oct, ox as int, oy as int, radius as int, row as int, distance - 1)
                    + row_tiles(oct, ox as int, oy as int, radius as int, distance as int, (delta_x + distance + 1) as nat),
                det == sight_deterministic(*blocks),
                blk == blocker_of(*blocks),
            ensures
                open ==> delta_x == 0,
                det ==> goal == seen@ + scan_rows(oct, ox as int, oy as int, radius as int, blk, end,
                    distance as int + 1, start, blocked, next_start),
            decreases 0 - delta_x,
        {
            let ghost seen0 = seen@;
            let ghost start_before = start;
            let ghost wall_before = blocked;
            let ghost next_before = next_start;
            delta_x += 1;
            assert(-distance <= delta_x <= 0 && distance <= 32767);
            let left = Slope { num: (1 - 2 * delta_x) as i64, den: (2 * distance - 1) as i64 };
            let right = Slope { num: (-2 * delta_x - 1) as i64, den: (2 * distance + 1) as i64 };
            let (wx, wy) = transform(oct, delta_x, delta_y);
            let current_x = ox + wx;
            let current_y = oy + wy;
            assert(ox - radius <= current_x <= ox + radius && oy - radius <= current_y <= oy + radius);
            proof {
                assert(slope_ok(left, radius as int));
                assert(slope_ok(right, radius as int));
                lemma_slope_products(right, start, radius as int);
                lemma_slope_products(left, end, radius as int);
            }
            proof {
                if open {
                    assert(right.num * start.den == right.num && start.num * right.den == right.den) by (nonlinear_arith)
                        requires start.num == 1, start.den == 1;
                    assert(left.num * end.den == left.num && end.num * left.den == 0) by (nonlinear_arith)
                        requires end.num == 0, end.den == 1;
                }
            }
            assert(left == left_slope(delta_x as int, distance as int));
            assert(right == right_slope(delta_x as int, distance as int));
            if right.num * start.den > start.num * right.den {
                continue;
            }
            if left.num * end.den < end.num * left.den {
                break;
            }
            let on_axis = delta_x == 0;
            let on_diagonal = delta_x == delta_y;
            let disowned = (on_axis && oct.skip_axis) || (on_diagonal && oct.skip_diagonal);
            proof {
                assert(delta_x * delta_x + delta_y * delta_y <= 2 * radius * radius) by (nonlinear_arith)
                    requires -distance <= delta_x <= 0, delta_y == -distance, distance <= radius;
                assert(0 <= delta_x * delta_x <= radius * radius) by (nonlinear_arith)
                    requires -distance <= delta_x <= 0, 0 < distance <= radius;
                assert(0 <= delta_y * delta_y <= radius * radius) by (nonlinear_arith)
                    requires delta_y == -distance, 0 < distance <= radius;
                assert(2 * (radius * radius) <= i32::MAX) by (nonlinear_arith)
                    requires 2 * radius * radius <= i32::MAX;
            }
            let ghost prefix = base + octant_tiles(oct, ox as int, oy as int, radius as int, row as int, distance - 1);
            let ghost before_row = row_tiles(oct, ox as int, oy as int, radius as int, distance as int, (delta_x + distance) as nat);
            proof {
                assert((current_x, current_y) == octant_tile(oct, ox as int, oy as int, delta_x as int, delta_y as int));
                assert(reports(oct, radius as int, delta_x as int, delta_y as int) <==> (!disowned && delta_x * delta_x
                    + delta_y * delta_y <= radius_sq));
            }
            if !disowned && delta_x * delta_x + delta_y * delta_y <= radius_sq {
                seen.push((current_x, current_y));
                proof {
                    assert(seen@.take(base.len() as int) =~= base);
                    if open {
                        assert(seen@ =~= prefix + before_row.push((current_x, current_y)));
                    }
                }
            }
            let ghost out: Seq<(i32, i32)> = seen@.skip(seen0.len() as int);
            proof {
                assert(seen0 + out =~= seen@);
                assert(out == if reports(oct, radius as int, delta_x as int, delta_y as int) {
                    seq![(current_x, current_y)] } else { seq![] });
            }
            let hit = (*blocks)(current_x, current_y);
            proof {
                if det {
                    assert(hit == blk(current_x, current_y));
                }
            }
            let ghost mut rec: Seq<(i32, i32)> = seq![];
            if blocked {
                if hit {
                    next_start = right;
                } else {
                    blocked = false;
                    start = next_start;
                }
            } else if hit && distance < radius {
                blocked = true;
                let ghost before = seen@;
                cast_octant(ox, oy, radius, distance + 1, start, left, oct, blocks, seen);
                proof {
                    rec = scan_octant(oct, ox as int, oy as int, radius as int, blk, distance + 1, start, left);
                }
                proof {
                    assert(seen@.take(base.len() as int) =~= base) by {
                        assert(seen@.take(before.len() as int) == before);
                        assert forall|i: int| 0 <= i < base.len() implies seen@[i] == base[i] by {
                            assert(seen@.take(before.len() as int)[i] == before[i]);
                            assert(before.take(base.len() as int)[i] == base[i]);
                        }
                    }
                    assert forall|i: int| base.len() <= i < seen@.len()
                        implies within_radius(ox as int, oy as int, radius as int, #[trigger] seen@[i]) by {
                        if i < before.len() {
                            assert(seen@.take(before.len() as int)[i] == before[i]);
                        }
                    }
                }
                next_start = right;
            }
            proof {
                if det {
                    let prev = scan_cells(oct, ox as int, oy as int, radius as int, blk, end, distance as int,
                        delta_x - 1, start_before, wall_before, next_before);
                    let rest = scan_cells(oct, ox as int, oy as int, radius as int, blk, end, distance as int,
                        delta_x as int, start, blocked, next_start);
                    assert(seen@ == seen0 + out + rec);
                    assert(prev == out + rec + rest);
                    assert(goal =~= seen@ + rest);
                }
            }
        }
        proof {
            if open {
                let rows = octant_tiles(oct, ox as int, oy as int, radius as int, row as int, distance - 1);
                let this_row = row_tiles(oct, ox as int, oy as int, radius as int, distance as int, (distance + 1) as nat);
                assert(octant_tiles(oct, ox as int, oy as int, radius as int, row as int, distance as int) == rows + this_row);
                assert(base + rows + this_row =~= base + (rows + this_row));
            }
        }
        distance += 1;
    }
    proof {
        if open {
            assert(distance == radius + 1);
        }
    }
}

proof fn lemma_origin_within(ox: int, oy: int, radius: int)
    ensures
        within_radius(ox, oy, radius, (ox as i32, oy as i32)) || !(i32::MIN <= ox <= i32::MAX && i32::MIN <= oy <= i32::MAX),
{
    assert(0 <= radius * radius) by (nonlinear_arith);
    assert((ox - ox) * (ox - ox) == 0) by (nonlinear_arith);
    assert((oy - oy) * (oy - oy) == 0) by (nonlinear_arith);
}

/// Recursive shadowcasting field of view on a square grid.
///
/// Asks `blocks(x, y)` whether a tile blocks sight, and returns the tiles
/// that can be seen, in the order they are found: the origin first, then
/// each octant's scan. Sight is limited to `radius` tiles, measured as a
/// circle, and the rays shared by two octants are reported by only one: on
/// open ground every tile within the radius is reported exactly once. For a
/// blocking test that answers the same for the same tile, the result is
/// exactly [`shadow_view`]: the scan that `scan_octant` describes, and no
/// tile is reported twice. `blocks` is only asked about tiles of the square
/// of `radius` around the origin, and never when `radius` is 0 or less.
/// Shadows are symmetric: mirroring the blocking map about a vertical,
/// horizontal or diagonal line through the origin mirrors what is seen
/// ([`lemma_shadow_mirror`]).
pub fn shadowcast<B: Fn(i32, i32) -> bool>(origin_x: i32, origin_y: i32, radius: i32, blocks: B) -> (seen: Vec<(i32, i32)>)
    requires
        scan_callable(blocks, origin_x as int, origin_y as int, radius as int),
        scan_fits(origin_x as int, origin_y as int, radius as int),
    ensures
        seen@.len() >= 1,
        seen@[0] == (origin_x, origin_y),
        radius <= 0 ==> seen@.len() == 1,
        forall|i: int| 0 <= i < seen@.len() && radius >= 0
            ==> within_radius(origin_x as int, origin_y as int, radius as int, #[trigger] seen@[i]),
        open_ground(blocks) && radius >= 0 ==> seen@.no_duplicates() && forall|c: (i32, i32)|
            within_radius(origin_x as int, origin_y as int, radius as int, c) ==> #[trigger] seen@.contains(c),
        sight_deterministic(blocks) ==> seen@ == shadow_view(origin_x, origin_y, radius, blocker_of(blocks)),
        sight_deterministic(blocks) ==> seen@.no_duplicates(),
{
    proof {
        lemma_shadow_view_once(origin_x, origin_y, radius, blocker_of(blocks));
    }
    let mut seen: Vec<(i32, i32)> = Vec::new();
    seen.push((origin_x, origin_y));
    proof {
        lemma_origin_within(origin_x as int, origin_y as int, radius as int);
    }
    if radius <= 0 {
        proof {
            if radius == 0 {
                assert forall|c: (i32, i32)| within_radius(origin_x as int, origin_y as int, radius as int, c)
                    implies #[trigger] seen@.contains(c) by {
                    let (x, y) = (c.0 - origin_x, c.1 - origin_y);
                    assert(x == 0 && y == 0) by (nonlinear_arith)
                        requires x * x + y * y <= 0;
                    assert(seen@[0] == c);
                }
            }
        }
        return seen;
    }
    proof {
        assert(0 <= radius * radius) by (nonlinear_arith);
    }
    proof {
        if open_ground(blocks) {
            assert forall|c: (i32, i32)| #[trigger] seen@.contains(c) <==> (c == (origin_x, origin_y) || (within_radius(
                origin_x as int,
                origin_y as int,
                radius as int,
                c,
            ) && c != (origin_x, origin_y) && owner(c.0 - origin_x, c.1 - origin_y) < 0)) by {
                if seen@.contains(c) {
                    let j = choose|j: int| 0 <= j < seen@.len() && seen@[j] == c;
                    assert(j == 0);
                }
                if c == (origin_x, origin_y) {
                    assert(seen@[0] == c);
                }
            }
        }
    }
    proof {
        assert(seen@ =~= seq![(origin_x, origin_y)] + octant_scans(origin_x as int, origin_y as int, radius as int,
            blocker_of(blocks), 0));
    }
    let mut i: usize = 0;
    while i < 8
        invariant
            scan_callable(blocks, origin_x as int, origin_y as int, radius as int),
            radius > 0,
            scan_fits(origin_x as int, origin_y as int, radius as int),
            i <= 8,
            seen@.len() >= 1,
            seen@[0] == (origin_x, origin_y),
            forall|j: int| 0 <= j < seen@.len()
                ==> within_radius(origin_x as int, origin_y as int, radius as int, #[trigger] seen@[j]),
            open_ground(blocks) ==> seen@.no_duplicates(),
            open_ground(blocks) ==> forall|c: (i32, i32)| #[trigger] seen@.contains(c) <==> (c == (origin_x, origin_y) || (
                within_radius(origin_x as int, origin_y as int, radius as int, c) && c != (origin_x, origin_y) && owner(
                c.0 - origin_x,
                c.1 - origin_y,
            ) < i)),
            sight_deterministic(blocks) ==> seen@ == seq![(origin_x, origin_y)] + octant_scans(origin_x as int,
                origin_y as int, radius as int, blocker_of(blocks), i as int),
        decreases 8 - i,
    {
        let ghost before = seen@;
        cast_octant(origin_x, origin_y, radius, 1, Slope { num: 1, den: 1 }, Slope { num: 0, den: 1 },
            octant(i), &blocks, &mut seen);
        proof {
            if open_ground(blocks) {
                let t = octant_tiles(octant_spec(i as int), origin_x as int, origin_y as int, radius as int, 1, radius as int);
                assert(seen@ == before + t);
                assert forall|c: (i32, i32)| #[trigger] t.contains(c) <==> (within_radius(
                    origin_x as int,
                    origin_y as int,
                    radius as int,
                    c,
                ) && c != (origin_x, origin_y) && owner(c.0 - origin_x, c.1 - origin_y) == i) by {
                    lemma_octant_tiles(octant_spec(i as int), origin_x as int, origin_y as int, radius as int, 1,
                        radius as int, c);
                    lemma_octants_partition(radius as int, c.0 - origin_x, c.1 - origin_y, i as int);
                }
                lemma_octant_tiles(octant_spec(i as int), origin_x as int, origin_y as int, radius as int, 1,
                    radius as int, (origin_x, origin_y));
                assert forall|c: (i32, i32)| before.contains(c) implies !t.contains(c) by {}
                lemma_no_dup_concat(before, t);
                assert forall|c: (i32, i32)| #[trigger] seen@.contains(c) <==> (c == (origin_x, origin_y) || (
                    within_radius(origin_x as int, origin_y as int, radius as int, c) && c != (origin_x, origin_y)
                        && owner(c.0 - origin_x, c.1 - origin_y) < i + 1)) by {
                    lemma_contains_concat(before, t, c);
                }
            }
            assert(seen@.take(before.len() as int)[0] == before[0]);
            if sight_deterministic(blocks) {
                assert(seen@ =~= seq![(origin_x, origin_y)] + octant_scans(origin_x as int, origin_y as int,
                    radius as int, blocker_of(blocks), i as int + 1));
            }
            assert forall|j: int| 0 <= j < seen@.len()
                implies within_radius(origin_x as int, origin_y as int, radius as int, #[trigger] seen@[j]) by {
                if j < before.len() {
                    assert(seen@.take(before.len() as int)[j] == before[j]);
                }
            }
        }
        i += 1;
    }
    proof {
        if open_ground(blocks) {
            assert forall|c: (i32, i32)| within_radius(origin_x as int, origin_y as int, radius as int, c)
                implies #[trigger] seen@.contains(c) by {
                assert(owner(c.0 - origin_x, c.1 - origin_y) < 8);
            }
        }
    }
    seen
}

// ── Each tile once ──────────────────────────────────────────────────────────

/// The local column of world tile `t` in octant `o` around `(ox, oy)`.
spec fn loc_x(o: Octant, ox: int, oy: int, t: (i32, i32)) -> int {
    local_off(o, t.0 - ox, t.1 - oy).0
}

/// The row (distance from the origin) of world tile `t` in octant `o`.
spec fn loc_d(o: Octant, ox: int, oy: int, t: (i32, i32)) -> int {
    -local_off(o, t.0 - ox, t.1 - oy).1
}

/// `t` is a tile a scan from `row` between `s` and `e` may report: in the
/// octant from that row out, owned and within the radius, and with its
/// slopes inside the arc.
spec fn in_scan(o: Octant, ox: int, oy: int, radius: int, t: (i32, i32), row: int, s: Slope, e: Slope) -> bool {
    let x = loc_x(o, ox, oy, t);
    let d = loc_d(o, ox, oy, t);
    &&& row <= d
    &&& reports(o, radius, x, -d)
    &&& !steeper(right_slope(x, d), s)
    &&& !steeper(e, left_slope(x, d))
}

/// Whether the octant's tiles around `(ox, oy)` out to `radius` are in `i32`.
spec fn scan_room(ox: int, oy: int, radius: int) -> bool {
    &&& 0 < radius <= 32767
    &&& i32::MIN <= ox - radius && ox + radius <= i32::MAX
    &&& i32::MIN <= oy - radius && oy + radius <= i32::MAX
}

/// A tile of the octant maps back to its own local offset.
proof fn lemma_tile_local(o: Octant, ox: int, oy: int, radius: int, x: int, d: int)
    requires
        o.wf(),
        scan_room(ox, oy, radius),
        1 <= d <= radius,
        -d <= x <= 0,
    ensures
        loc_x(o, ox, oy, octant_tile(o, ox, oy, x, -d)) == x,
        loc_d(o, ox, oy, octant_tile(o, ox, oy, x, -d)) == d,
{
    lemma_local_world(o, x, -d);
    let w = world_off(o, x, -d);
    assert(-radius <= w.0 <= radius && -radius <= w.1 <= radius);
}

/// `!steeper` chains: `a <= b <= c` for slopes with positive denominators.
proof fn lemma_not_steeper_trans(a: Slope, b: Slope, c: Slope)
    requires
        a.den > 0,
        b.den > 0,
        c.den > 0,
        !steeper(a, b),
        !steeper(b, c),
    ensures
        !steeper(a, c),
{
    let (an, ad, bn, bd, cn, cd) = (a.num as int, a.den as int, b.num as int, b.den as int, c.num as int, c.den as int);
    assert(an * cd <= cn * ad) by (nonlinear_arith)
        requires an * bd <= bn * ad, bn * cd <= cn * bd, ad > 0, bd > 0, cd > 0;
}

/// The exact parts of a tile's edge slopes on a scan of at most 32767 rows.
proof fn lemma_slope_parts(x: int, d: int)
    requires
        1 <= d <= 32767,
        -d <= x <= 0,
    ensures
        left_slope(x, d).num == 1 - 2 * x,
        left_slope(x, d).den == 2 * d - 1,
        right_slope(x, d).num == -2 * x - 1,
        right_slope(x, d).den == 2 * d + 1,
        left_slope(x, d).den > 0,
        right_slope(x, d).den > 0,
{
}

/// Moving right along a row only lowers a tile's trailing slope.
proof fn lemma_right_slope_falls(x: int, d: int)
    requires
        1 <= d <= 32767,
        -d <= x < 0,
    ensures
        !steeper(right_slope(x + 1, d), right_slope(x, d)),
        steeper(right_slope(x, d), right_slope(x + 1, d)),
{
    lemma_slope_parts(x, d);
    lemma_slope_parts(x + 1, d);
    let k = 2 * d + 1;
    assert((-2 * (x + 1) - 1) * k < (-2 * x - 1) * k) by (nonlinear_arith) requires k > 0;
}

/// A tile farther out never spans a nearer tile's whole arc: its slopes
/// cannot both reach past the nearer tile's leading edge and fall short of
/// its trailing edge.
proof fn lemma_no_wider_behind(x: int, d: int, x2: int, d2: int)
    requires
        1 <= d < d2 <= 32767,
        -d <= x <= 0,
        -d2 <= x2 <= 0,
    ensures
        !(!steeper(left_slope(x, d), left_slope(x2, d2)) && !steeper(right_slope(x2, d2), right_slope(x, d))),
{
    lemma_slope_parts(x, d);
    lemma_slope_parts(x2, d2);
    if !steeper(left_slope(x, d), left_slope(x2, d2)) && !steeper(right_slope(x2, d2), right_slope(x, d)) {
        assert((1 - 2 * x) * (2 * d2 - 1) <= (1 - 2 * x2) * (2 * d - 1));
        assert((-2 * x2 - 1) * (2 * d + 1) <= (-2 * x - 1) * (2 * d2 + 1));
        assert(false) by (nonlinear_arith)
            requires
                (1 - 2 * x) * (2 * d2 - 1) <= (1 - 2 * x2) * (2 * d - 1),
                (-2 * x2 - 1) * (2 * d + 1) <= (-2 * x - 1) * (2 * d2 + 1),
                1 <= d < d2,
                -d <= x <= 0,
                -d2 <= x2 <= 0;
    }
}

/// Every tile a scan from `row` reports lies in its arc, and none twice.
proof fn lemma_scan_octant_once(
    o: Octant,
    ox: int,
    oy: int,
    radius: int,
    blocked: spec_fn(i32, i32) -> bool,
    row: int,
    start: Slope,
    end: Slope,
)
    requires
        o.wf(),
        scan_room(ox, oy, radius),
        1 <= row,
        start.den > 0,
        end.den > 0,
    ensures
        scan_octant(o, ox, oy, radius, blocked, row, start, end).no_duplicates(),
        forall|i: int| 0 <= i < scan_octant(o, ox, oy, radius, blocked, row, start, end).len()
            ==> in_scan(o, ox, oy, radius, #[trigger] scan_octant(o, ox, oy, radius, blocked, row, start, end)[i],
                row, start, end),
    decreases radius + 1 - row, 2int, 0int,
{
    if !steeper(end, start) {
        lemma_scan_rows_once(o, ox, oy, radius, blocked, end, row, start, false, start);
    }
}

/// The rows of a scan from `d` on: in the arc, each tile once, and none at
/// all when the scan ended in a wall.
proof fn lemma_scan_rows_once(
    o: Octant,
    ox: int,
    oy: int,
    radius: int,
    blocked: spec_fn(i32, i32) -> bool,
    end: Slope,
    d: int,
    start: Slope,
    in_wall: bool,
    next: Slope,
)
    requires
        o.wf(),
        scan_room(ox, oy, radius),
        1 <= d,
        start.den > 0,
        end.den > 0,
    ensures
        scan_rows(o, ox, oy, radius, blocked, end, d, start, in_wall, next).no_duplicates(),
        forall|i: int| 0 <= i < scan_rows(o, ox, oy, radius, blocked, end, d, start, in_wall, next).len()
            ==> in_scan(o, ox, oy, radius, #[trigger] scan_rows(o, ox, oy, radius, blocked, end, d, start, in_wall,
                next)[i], d, start, end),
        in_wall ==> scan_rows(o, ox, oy, radius, blocked, end, d, start, in_wall, next).len() == 0,
    decreases radius + 1 - d, 1int, 0int,
{
    if !(d > radius || in_wall) {
        lemma_scan_cells_once(o, ox, oy, radius, blocked, end, d, -d - 1, start, false, next);
    }
}

/// The slope below which the rows past the current one stay: the scan's
/// start, or, inside a wall, the trailing edge of the wall so far.
spec fn resume_bound(start: Slope, in_wall: bool, next: Slope) -> Slope {
    if in_wall { next } else { start }
}

/// The rest of row `d` after local column `dx`, and the rows past it: in
/// the arc, each tile once, the row's tiles to the right of `dx`, and the
/// farther tiles under [`resume_bound`].
proof fn lemma_scan_cells_once(
    o: Octant,
    ox: int,
    oy: int,
    radius: int,
    blocked: spec_fn(i32, i32) -> bool,
    end: Slope,
    d: int,
    dx: int,
    start: Slope,
    in_wall: bool,
    next: Slope,
)
    requires
        o.wf(),
        scan_room(ox, oy, radius),
        1 <= d,
        -d - 1 <= dx <= 0,
        start.den > 0,
        end.den > 0,
        in_wall ==> -d <= dx && d <= radius && next == right_slope(dx, d) && !steeper(next, start),
    ensures
        ({
            let out = scan_cells(o, ox, oy, radius, blocked, end, d, dx, start, in_wall, next);
            &&& out.no_duplicates()
            &&& forall|i: int| 0 <= i < out.len() ==> in_scan(o, ox, oy, radius, #[trigger] out[i], d, start, end)
            &&& forall|i: int| 0 <= i < out.len() && loc_d(o, ox, oy, #[trigger] out[i]) == d ==> loc_x(o, ox, oy,
                out[i]) > dx
            &&& forall|i: int| 0 <= i < out.len() && loc_d(o, ox, oy, #[trigger] out[i]) > d ==> !steeper(
                right_slope(loc_x(o, ox, oy, out[i]), loc_d(o, ox, oy, out[i])), resume_bound(start, in_wall, next))
        }),
    decreases radius + 1 - d, 0int, 0 - dx,
{
    let out = scan_cells(o, ox, oy, radius, blocked, end, d, dx, start, in_wall, next);
    if !(1 <= d <= radius) {
    } else if dx >= 0 {
        lemma_scan_rows_once(o, ox, oy, radius, blocked, end, d + 1, start, in_wall, next);
    } else {
        let x = dx + 1;
        let left = left_slope(x, d);
        let right = right_slope(x, d);
        let t = octant_tile(o, ox, oy, x, -d);
        lemma_slope_parts(x, d);
        lemma_tile_local(o, ox, oy, radius, x, d);
        if in_wall {
            lemma_slope_parts(dx, d);
            lemma_right_slope_falls(dx, d);
        }
        if steeper(right, start) {
            if in_wall {
                lemma_not_steeper_trans(right, next, start);
            }
            lemma_scan_cells_once(o, ox, oy, radius, blocked, end, d, x, start, in_wall, next);
        } else if steeper(end, left) {
            lemma_scan_rows_once(o, ox, oy, radius, blocked, end, d + 1, start, in_wall, next);
        } else {
            let out1: Seq<(i32, i32)> = if reports(o, radius, x, -d) { seq![t] } else { seq![] };
            assert forall|i: int| 0 <= i < out1.len() implies {
                &&& in_scan(o, ox, oy, radius, #[trigger] out1[i], d, start, end)
                &&& loc_d(o, ox, oy, out1[i]) == d && loc_x(o, ox, oy, out1[i]) == x
            } by {
                assert(out1[i] == t);
            }
            if in_wall && blocked(t.0, t.1) {
                let rest = scan_cells(o, ox, oy, radius, blocked, end, d, x, start, true, right);
                lemma_scan_cells_once(o, ox, oy, radius, blocked, end, d, x, start, true, right);
                assert(out == out1 + rest);
                assert forall|c: (i32, i32)| out1.contains(c) implies !rest.contains(c) by {
                    if rest.contains(c) {
                        let j = choose|j: int| 0 <= j < rest.len() && rest[j] == c;
                        assert(out1[0] == c);
                        assert(loc_d(o, ox, oy, rest[j]) >= d);
                    }
                }
                lemma_no_dup_concat(out1, rest);
                assert forall|i: int| 0 <= i < out.len() && loc_d(o, ox, oy, #[trigger] out[i]) > d implies !steeper(
                    right_slope(loc_x(o, ox, oy, out[i]), loc_d(o, ox, oy, out[i])), next) by {
                    let e = out[i];
                    assert(i >= out1.len());
                    assert(e == rest[i - out1.len()]);
                    lemma_slope_parts(loc_x(o, ox, oy, e), loc_d(o, ox, oy, e));
                    lemma_not_steeper_trans(right_slope(loc_x(o, ox, oy, e), loc_d(o, ox, oy, e)), right, next);
                }
                assert forall|i: int| 0 <= i < out.len() implies in_scan(o, ox, oy, radius, #[trigger] out[i], d, start, end) by {
                    if i >= out1.len() { assert(out[i] == rest[i - out1.len()]); } else { assert(out[i] == out1[i]); }
                }
                assert forall|i: int| 0 <= i < out.len() && loc_d(o, ox, oy, #[trigger] out[i]) == d implies loc_x(o, ox, oy, out[i]) > dx by {
                    if i >= out1.len() { assert(out[i] == rest[i - out1.len()]); } else { assert(out[i] == out1[i]); }
                }
            } else if in_wall {
                let rest = scan_cells(o, ox, oy, radius, blocked, end, d, x, next, false, next);
                lemma_scan_cells_once(o, ox, oy, radius, blocked, end, d, x, next, false, next);
                assert(out == out1 + rest);
                assert forall|c: (i32, i32)| out1.contains(c) implies !rest.contains(c) by {
                    if rest.contains(c) {
                        let j = choose|j: int| 0 <= j < rest.len() && rest[j] == c;
                        assert(out1[0] == c);
                    }
                }
                lemma_no_dup_concat(out1, rest);
                assert forall|i: int| 0 <= i < out.len() implies in_scan(o, ox, oy, radius, #[trigger] out[i], d, start, end) by {
                    if i >= out1.len() {
                        let e = rest[i - out1.len()];
                        assert(out[i] == e);
                        lemma_slope_parts(loc_x(o, ox, oy, e), loc_d(o, ox, oy, e));
                        lemma_not_steeper_trans(right_slope(loc_x(o, ox, oy, e), loc_d(o, ox, oy, e)), next, start);
                    } else {
                        assert(out[i] == out1[i]);
                    }
                }
                assert forall|i: int| 0 <= i < out.len() && loc_d(o, ox, oy, #[trigger] out[i]) == d implies loc_x(o, ox, oy, out[i]) > dx by {
                    if i >= out1.len() { assert(out[i] == rest[i - out1.len()]); } else { assert(out[i] == out1[i]); }
                }
                assert forall|i: int| 0 <= i < out.len() && loc_d(o, ox, oy, #[trigger] out[i]) > d implies !steeper(
                    right_slope(loc_x(o, ox, oy, out[i]), loc_d(o, ox, oy, out[i])), next) by {
                    assert(i >= out1.len());
                    assert(out[i] == rest[i - out1.len()]);
                }
            } else if blocked(t.0, t.1) && d < radius {
                let rec = scan_octant(o, ox, oy, radius, blocked, d + 1, start, left);
                let rest = scan_cells(o, ox, oy, radius, blocked, end, d, x, start, true, right);
                lemma_scan_octant_once(o, ox, oy, radius, blocked, d + 1, start, left);
                lemma_scan_cells_once(o, ox, oy, radius, blocked, end, d, x, start, true, right);
                assert(out == out1 + rec + rest);
                assert forall|c: (i32, i32)| out1.contains(c) implies !rec.contains(c) by {
                    if rec.contains(c) {
                        let j = choose|j: int| 0 <= j < rec.len() && rec[j] == c;
                        assert(out1[0] == c);
                    }
                }
                lemma_no_dup_concat(out1, rec);
                assert forall|c: (i32, i32)| (out1 + rec).contains(c) implies !rest.contains(c) by {
                    if rest.contains(c) {
                        let j = choose|j: int| 0 <= j < rest.len() && rest[j] == c;
                        let k = choose|k: int| 0 <= k < (out1 + rec).len() && (out1 + rec)[k] == c;
                        if k < out1.len() {
                            assert(out1[k] == c);
                        } else {
                            let e = rec[k - out1.len()];
                            assert(e == c);
                            let (x2, d2) = (loc_x(o, ox, oy, e), loc_d(o, ox, oy, e));
                            assert(d2 >= d + 1);
                            assert(!steeper(left, left_slope(x2, d2)));
                            assert(!steeper(right_slope(x2, d2), right));
                            lemma_no_wider_behind(x, d, x2, d2);
                        }
                    }
                }
                lemma_no_dup_concat(out1 + rec, rest);
                assert forall|i: int| 0 <= i < out.len() implies {
                    &&& in_scan(o, ox, oy, radius, #[trigger] out[i], d, start, end)
                    &&& loc_d(o, ox, oy, out[i]) == d ==> loc_x(o, ox, oy, out[i]) > dx
                    &&& loc_d(o, ox, oy, out[i]) > d ==> !steeper(right_slope(loc_x(o, ox, oy, out[i]), loc_d(o, ox, oy,
                        out[i])), start)
                } by {
                    let e = out[i];
                    if i < out1.len() {
                        assert(e == out1[i]);
                    } else if i < out1.len() + rec.len() {
                        assert(e == rec[i - out1.len()]);
                        lemma_slope_parts(loc_x(o, ox, oy, e), loc_d(o, ox, oy, e));
                        lemma_not_steeper_trans(end, left, left_slope(loc_x(o, ox, oy, e), loc_d(o, ox, oy, e)));
                    } else {
                        assert(e == rest[i - out1.len() - rec.len()]);
                        lemma_slope_parts(loc_x(o, ox, oy, e), loc_d(o, ox, oy, e));
                        if loc_d(o, ox, oy, e) > d {
                            lemma_not_steeper_trans(right_slope(loc_x(o, ox, oy, e), loc_d(o, ox, oy, e)), right, start);
                        }
                    }
                }
            } else {
                let rest = scan_cells(o, ox, oy, radius, blocked, end, d, x, start, in_wall, next);
                lemma_scan_cells_once(o, ox, oy, radius, blocked, end, d, x, start, in_wall, next);
                assert(out == out1 + rest);
                assert forall|c: (i32, i32)| out1.contains(c) implies !rest.contains(c) by {
                    if rest.contains(c) {
                        let j = choose|j: int| 0 <= j < rest.len() && rest[j] == c;
                        assert(out1[0] == c);
                    }
                }
                lemma_no_dup_concat(out1, rest);
                assert forall|i: int| 0 <= i < out.len() implies {
                    &&& in_scan(o, ox, oy, radius, #[trigger] out[i], d, start, end)
                    &&& loc_d(o, ox, oy, out[i]) == d ==> loc_x(o, ox, oy, out[i]) > dx
                    &&& loc_d(o, ox, oy, out[i]) > d ==> !steeper(right_slope(loc_x(o, ox, oy, out[i]), loc_d(o, ox, oy,
                        out[i])), resume_bound(start, in_wall, next))
                } by {
                    if i >= out1.len() { assert(out[i] == rest[i - out1.len()]); } else { assert(out[i] == out1[i]); }
                }
            }
        }
    }
}

/// The first `i` octants' scans report no tile twice, never the origin, and
/// only tiles the first `i` octants own.
proof fn lemma_octant_scans_once(ox: int, oy: int, radius: int, blocked: spec_fn(i32, i32) -> bool, i: int)
    requires
        scan_room(ox, oy, radius),
        0 <= i <= 8,
    ensures
        octant_scans(ox, oy, radius, blocked, i).no_duplicates(),
        forall|j: int| 0 <= j < octant_scans(ox, oy, radius, blocked, i).len() ==> {
            let t = #[trigger] octant_scans(ox, oy, radius, blocked, i)[j];
            &&& (t.0 - ox != 0 || t.1 - oy != 0)
            &&& owner(t.0 - ox, t.1 - oy) < i
        },
    decreases i,
{
    if i > 0 {
        lemma_octant_scans_once(ox, oy, radius, blocked, i - 1);
        let o = octant_spec(i - 1);
        assert(o.wf());
        let a = octant_scans(ox, oy, radius, blocked, i - 1);
        let b = scan_octant(o, ox, oy, radius, blocked, 1, Slope { num: 1, den: 1 }, Slope { num: 0, den: 1 });
        lemma_scan_octant_once(o, ox, oy, radius, blocked, 1, Slope { num: 1, den: 1 }, Slope { num: 0, den: 1 });
        assert forall|j: int| 0 <= j < b.len() implies {
            &&& (b[j].0 - ox != 0 || b[j].1 - oy != 0)
            &&& owner(b[j].0 - ox, b[j].1 - oy) == i - 1
        } by {
            assert(in_scan(o, ox, oy, radius, b[j], 1, Slope { num: 1, den: 1 }, Slope { num: 0, den: 1 }));
            lemma_octants_partition(radius, b[j].0 - ox, b[j].1 - oy, i - 1);
        }
        assert forall|c: (i32, i32)| a.contains(c) implies !b.contains(c) by {
            if b.contains(c) {
                let j = choose|j: int| 0 <= j < b.len() && b[j] == c;
                let k = choose|k: int| 0 <= k < a.len() && a[k] == c;
                assert(owner(a[k].0 - ox, a[k].1 - oy) < i - 1);
            }
        }
        lemma_no_dup_concat(a, b);
        assert(octant_scans(ox, oy, radius, blocked, i) == a + b);
        assert forall|j: int| 0 <= j < (a + b).len() implies {
            let t = #[trigger] (a + b)[j];
            &&& (t.0 - ox != 0 || t.1 - oy != 0)
            &&& owner(t.0 - ox, t.1 - oy) < i
        } by {
            if j < a.len() { assert((a + b)[j] == a[j]); } else { assert((a + b)[j] == b[j - a.len()]); }
        }
    }
}

/// Shadowcasting reports each tile at most once, whatever blocks the view.
proof fn lemma_shadow_view_once(ox: i32, oy: i32, radius: i32, blocked: spec_fn(i32, i32) -> bool)
    requires
        scan_fits(ox as int, oy as int, radius as int),
    ensures
        shadow_view(ox, oy, radius, blocked).no_duplicates(),
{
    let v = shadow_view(ox, oy, radius, blocked);
    if radius > 0 {
        lemma_radius_bound(radius as int);
        let rest = octant_scans(ox as int, oy as int, radius as int, blocked, 8);
        lemma_octant_scans_once(ox as int, oy as int, radius as int, blocked, 8);
        assert forall|c: (i32, i32)| seq![(ox, oy)].contains(c) implies !rest.contains(c) by {
            assert(c == (ox, oy));
            if rest.contains(c) {
                let j = choose|j: int| 0 <= j < rest.len() && rest[j] == c;
            }
        }
        lemma_no_dup_concat(seq![(ox, oy)], rest);
    }
}

// ── Sight along the rays ────────────────────────────────────────────────────

/// The slope of the octant's far boundary, the axis.
spec fn flat_slope() -> Slope {
    Slope { num: 0, den: 1 }
}

/// The tile of octant `o` on its axis, `d` rows out.
spec fn axis_tile(o: Octant, ox: int, oy: int, d: int) -> (i32, i32) {
    octant_tile(o, ox, oy, 0, -d)
}

/// No axis tile of octant `o` on rows `lo..hi` blocks sight.
spec fn axis_clear(o: Octant, ox: int, oy: int, blocked: spec_fn(i32, i32) -> bool, lo: int, hi: int) -> bool {
    forall|e: int| lo <= e < hi ==> !blocked(#[trigger] axis_tile(o, ox, oy, e).0, axis_tile(o, ox, oy, e).1)
}

/// A scan that stops short of the axis never reaches an axis tile past its
/// first row: the axis tile's leading edge is below the scan's end.
proof fn lemma_axis_beyond(o: Octant, ox: int, oy: int, radius: int, x: int, d: int, dd: int, t: (i32, i32),
    s: Slope)
    requires
        o.wf(),
        scan_room(ox, oy, radius),
        1 <= d < dd <= radius,
        -d <= x <= 0,
        t == axis_tile(o, ox, oy, dd),
    ensures
        !in_scan(o, ox, oy, radius, t, d + 1, s, left_slope(x, d)),
{
    lemma_tile_local(o, ox, oy, radius, 0, dd);
    lemma_slope_parts(x, d);
    lemma_slope_parts(0, dd);
    assert((1 - 2 * x) * (2 * dd - 1) > 1 * (2 * d - 1)) by (nonlinear_arith)
        requires -d <= x <= 0, 1 <= d < dd;
}

/// Within a scan that reaches the axis (its end is the axis), the axis tile
/// `dd` rows out is reported exactly when the scan gets there: from the
/// rest of row `d` after column `dx`, the row's own axis tile if it is
/// still ahead, and a farther one if this row's axis tile (or, past the
/// row's end, the wall state) lets sight through and no axis tile between
/// blocks.
proof fn lemma_axis_cells(
    o: Octant,
    ox: int,
    oy: int,
    radius: int,
    blocked: spec_fn(i32, i32) -> bool,
    d: int,
    dx: int,
    start: Slope,
    in_wall: bool,
    next: Slope,
    dd: int,
)
    requires
        o.wf(),
        !o.skip_axis,
        scan_room(ox, oy, radius),
        1 <= d <= dd <= radius,
        -d - 1 <= dx <= 0,
        start.num >= 1,
        start.den > 0,
        in_wall ==> -d <= dx && next == right_slope(dx, d) && !steeper(next, start),
    ensures
        scan_cells(o, ox, oy, radius, blocked, flat_slope(), d, dx, start, in_wall, next).contains(
            axis_tile(o, ox, oy, dd)) <==> (if dd == d {
            dx < 0
        } else {
            &&& (if dx < 0 { !blocked(axis_tile(o, ox, oy, d).0, axis_tile(o, ox, oy, d).1) } else { !in_wall })
            &&& axis_clear(o, ox, oy, blocked, d + 1, dd)
        }),
    decreases radius + 1 - d, 0int, 0 - dx,
{
    let end = flat_slope();
    let out = scan_cells(o, ox, oy, radius, blocked, end, d, dx, start, in_wall, next);
    let at = axis_tile(o, ox, oy, dd);
    if !(1 <= d <= radius) {
    } else if dx >= 0 {
        if dd > d {
            lemma_axis_rows(o, ox, oy, radius, blocked, d + 1, start, in_wall, next, dd);
        } else {
            let rows = scan_rows(o, ox, oy, radius, blocked, end, d + 1, start, in_wall, next);
            lemma_scan_rows_once(o, ox, oy, radius, blocked, end, d + 1, start, in_wall, next);
            lemma_tile_local(o, ox, oy, radius, 0, dd);
            if rows.contains(at) {
                let j = choose|j: int| 0 <= j < rows.len() && rows[j] == at;
                assert(in_scan(o, ox, oy, radius, rows[j], d + 1, start, end));
            }
        }
    } else {
        let x = dx + 1;
        let left = left_slope(x, d);
        let right = right_slope(x, d);
        let t = octant_tile(o, ox, oy, x, -d);
        lemma_slope_parts(x, d);
        lemma_tile_local(o, ox, oy, radius, x, d);
        lemma_tile_local(o, ox, oy, radius, 0, dd);
        assert(t == at <==> (x == 0 && dd == d));
        if in_wall {
            lemma_slope_parts(dx, d);
        }
        assert(end.num == 0 && end.den == 1);
        assert(!steeper(end, left));
        if steeper(right, start) {
            if x == 0 {
                assert(right.num * start.den < 0 <= start.num * right.den) by (nonlinear_arith)
                    requires right.num == -1, start.den > 0, start.num >= 1, right.den > 0;
            }
            if in_wall {
                lemma_right_slope_falls(dx, d);
                lemma_not_steeper_trans(right, next, start);
            }
            lemma_axis_cells(o, ox, oy, radius, blocked, d, x, start, in_wall, next, dd);
        } else {
            let out1: Seq<(i32, i32)> = if reports(o, radius, x, -d) { seq![t] } else { seq![] };
            assert(out1.contains(at) <==> (x == 0 && dd == d)) by {
                if x == 0 && dd == d {
                    assert(0 * 0 + (-d) * (-d) <= radius * radius) by (nonlinear_arith)
                        requires 1 <= d <= radius;
                    assert(out1[0] == at);
                }
            }
            let b = blocked(t.0, t.1);
            if x == 0 {
                assert(t == axis_tile(o, ox, oy, d));
            }
            if in_wall && b {
                let rest = scan_cells(o, ox, oy, radius, blocked, end, d, x, start, true, right);
                lemma_axis_cells(o, ox, oy, radius, blocked, d, x, start, true, right, dd);
                lemma_contains_concat(out1, rest, at);
            } else if in_wall {
                let rest = scan_cells(o, ox, oy, radius, blocked, end, d, x, next, false, next);
                lemma_axis_cells(o, ox, oy, radius, blocked, d, x, next, false, next, dd);
                lemma_contains_concat(out1, rest, at);
            } else if b && d < radius {
                let rec = scan_octant(o, ox, oy, radius, blocked, d + 1, start, left);
                let rest = scan_cells(o, ox, oy, radius, blocked, end, d, x, start, true, right);
                lemma_scan_octant_once(o, ox, oy, radius, blocked, d + 1, start, left);
                if rec.contains(at) {
                    let j = choose|j: int| 0 <= j < rec.len() && rec[j] == at;
                    assert(in_scan(o, ox, oy, radius, rec[j], d + 1, start, left));
                    lemma_axis_beyond(o, ox, oy, radius, x, d, dd, at, start);
                }
                lemma_axis_cells(o, ox, oy, radius, blocked, d, x, start, true, right, dd);
                lemma_contains_concat(out1, rec, at);
                lemma_contains_concat(out1 + rec, rest, at);
            } else {
                let rest = scan_cells(o, ox, oy, radius, blocked, end, d, x, start, in_wall, next);
                lemma_axis_cells(o, ox, oy, radius, blocked, d, x, start, in_wall, next, dd);
                lemma_contains_concat(out1, rest, at);
            }
        }
    }
}

/// The rows of an axis-reaching scan from `d` out report the axis tile `dd`
/// rows out exactly when the scan has not ended in a wall, the tile is
/// within the radius, and no axis tile from row `d` up to it blocks.
proof fn lemma_axis_rows(
    o: Octant,
    ox: int,
    oy: int,
    radius: int,
    blocked: spec_fn(i32, i32) -> bool,
    d: int,
    start: Slope,
    in_wall: bool,
    next: Slope,
    dd: int,
)
    requires
        o.wf(),
        !o.skip_axis,
        scan_room(ox, oy, radius),
        1 <= d <= dd <= radius,
        start.num >= 1,
        start.den > 0,
    ensures
        scan_rows(o, ox, oy, radius, blocked, flat_slope(), d, start, in_wall, next).contains(
            axis_tile(o, ox, oy, dd)) <==> (!in_wall && axis_clear(o, ox, oy, blocked, d, dd)),
    decreases radius + 1 - d, 1int, 0int,
{
    if !(d > radius || in_wall) {
        lemma_axis_cells(o, ox, oy, radius, blocked, d, -d - 1, start, false, next, dd);
        if dd > d {
            assert(axis_clear(o, ox, oy, blocked, d, dd) <==> (!blocked(axis_tile(o, ox, oy, d).0, axis_tile(o, ox,
                oy, d).1) && axis_clear(o, ox, oy, blocked, d + 1, dd)));
        }
    }
}

/// The slope of the octant's near boundary, the diagonal.
spec fn steep_slope() -> Slope {
    Slope { num: 1, den: 1 }
}

/// The tile of octant `o` on its diagonal, `d` rows out.
spec fn diag_tile(o: Octant, ox: int, oy: int, d: int) -> (i32, i32) {
    octant_tile(o, ox, oy, -d, -d)
}

/// No diagonal tile of octant `o` on rows `lo..hi` blocks sight.
spec fn diag_clear(o: Octant, ox: int, oy: int, blocked: spec_fn(i32, i32) -> bool, lo: int, hi: int) -> bool {
    forall|e: int| lo <= e < hi ==> !blocked(#[trigger] diag_tile(o, ox, oy, e).0, diag_tile(o, ox, oy, e).1)
}

/// Where the edges of row `d`'s tiles stand against the diagonal slope 1:
/// every trailing edge is below it, the diagonal tile's leading edge above
/// it, and every other leading edge at or below it.
proof fn lemma_diag_edges(x: int, d: int)
    requires
        1 <= d <= 32767,
        -d <= x <= 0,
    ensures
        !steeper(right_slope(x, d), steep_slope()),
        steeper(left_slope(-d, d), steep_slope()),
        x > -d ==> !steeper(left_slope(x, d), steep_slope()),
{
    lemma_slope_parts(x, d);
    lemma_slope_parts(-d, d);
}

/// The diagonal tile of a farther row trails above every trailing edge of
/// row `d`.
proof fn lemma_diag_slopes(x: int, d: int, dd: int)
    requires
        1 <= d <= 32767,
        -d <= x <= 0,
        d < dd <= 32767,
    ensures
        steeper(right_slope(-dd, dd), right_slope(x, d)),
{
    lemma_slope_parts(x, d);
    lemma_slope_parts(-d, d);
    lemma_slope_parts(-dd, dd);
    assert((2 * dd - 1) * (2 * d + 1) > (-2 * x - 1) * (2 * dd + 1)) by (nonlinear_arith)
        requires -d <= x <= 0, 1 <= d < dd;
}

/// A scan inside a wall on row `d` past column `dx` never reports a diagonal
/// tile: not this row's (it lies before `dx`), nor a farther one (it trails
/// above the wall's edge).
proof fn lemma_diag_walled(
    o: Octant,
    ox: int,
    oy: int,
    radius: int,
    blocked: spec_fn(i32, i32) -> bool,
    end: Slope,
    d: int,
    dx: int,
    start: Slope,
    next: Slope,
    dd: int,
)
    requires
        o.wf(),
        scan_room(ox, oy, radius),
        1 <= d <= dd <= radius,
        -d <= dx <= 0,
        start.den > 0,
        end.den > 0,
        next == right_slope(dx, d),
        !steeper(next, start),
    ensures
        !scan_cells(o, ox, oy, radius, blocked, end, d, dx, start, true, next).contains(diag_tile(o, ox, oy, dd)),
{
    let rest = scan_cells(o, ox, oy, radius, blocked, end, d, dx, start, true, next);
    lemma_scan_cells_once(o, ox, oy, radius, blocked, end, d, dx, start, true, next);
    lemma_tile_local(o, ox, oy, radius, -dd, dd);
    if rest.contains(diag_tile(o, ox, oy, dd)) {
        let j = choose|j: int| 0 <= j < rest.len() && rest[j] == diag_tile(o, ox, oy, dd);
        if dd > d {
            lemma_diag_slopes(dx, d, dd);
        }
    }
}

/// The diagonal tile `dd` rows out is reported by the rest of row `d` after
/// column `dx`, for a scan that still starts at the diagonal and is not in
/// a wall: this row's diagonal tile if it is still ahead, and a farther one
/// when no diagonal tile between (this row's included, if still ahead)
/// blocks.
proof fn lemma_diag_cells(
    o: Octant,
    ox: int,
    oy: int,
    radius: int,
    blocked: spec_fn(i32, i32) -> bool,
    end: Slope,
    d: int,
    dx: int,
    next: Slope,
    dd: int,
)
    requires
        o.wf(),
        !o.skip_diagonal,
        scan_room(ox, oy, radius),
        1 <= d <= dd <= radius,
        2 * dd * dd <= radius * radius,
        -d - 1 <= dx <= 0,
        end.den > 0,
        !steeper(end, steep_slope()),
    ensures
        scan_cells(o, ox, oy, radius, blocked, end, d, dx, steep_slope(), false, next).contains(
            diag_tile(o, ox, oy, dd)) <==> (if dd == d {
            dx == -d - 1
        } else {
            &&& (dx == -d - 1 ==> !blocked(diag_tile(o, ox, oy, d).0, diag_tile(o, ox, oy, d).1))
            &&& diag_clear(o, ox, oy, blocked, d + 1, dd)
        }),
    decreases radius + 1 - d, 0int, 0 - dx,
{
    let one = steep_slope();
    let out = scan_cells(o, ox, oy, radius, blocked, end, d, dx, one, false, next);
    let at = diag_tile(o, ox, oy, dd);
    lemma_tile_local(o, ox, oy, radius, -dd, dd);
    if dx >= 0 {
        if dd > d {
            lemma_diag_rows(o, ox, oy, radius, blocked, end, d + 1, next, dd);
        } else {
            let rows = scan_rows(o, ox, oy, radius, blocked, end, d + 1, one, false, next);
            lemma_scan_rows_once(o, ox, oy, radius, blocked, end, d + 1, one, false, next);
            if rows.contains(at) {
                let j = choose|j: int| 0 <= j < rows.len() && rows[j] == at;
                assert(in_scan(o, ox, oy, radius, rows[j], d + 1, one, end));
            }
        }
    } else {
        let x = dx + 1;
        let left = left_slope(x, d);
        let right = right_slope(x, d);
        let t = octant_tile(o, ox, oy, x, -d);
        lemma_slope_parts(x, d);
        lemma_tile_local(o, ox, oy, radius, x, d);
        assert(t == at <==> (x == -d && dd == d));
        lemma_diag_edges(x, d);
        if dd > d {
            lemma_diag_slopes(x, d, dd);
        }
        if x == -d {
            let (en, ed) = (end.num as int, end.den as int);
            assert(en * (2 * d - 1) <= (2 * d + 1) * ed) by (nonlinear_arith)
                requires en * 1 <= 1 * ed, ed > 0, d >= 1;
            assert(!steeper(end, left));
        }
        assert(!steeper(right, one));
        if steeper(end, left) {
            assert(x > -d);
            if dd > d {
                lemma_diag_rows(o, ox, oy, radius, blocked, end, d + 1, next, dd);
            } else {
                let rows = scan_rows(o, ox, oy, radius, blocked, end, d + 1, one, false, next);
                lemma_scan_rows_once(o, ox, oy, radius, blocked, end, d + 1, one, false, next);
                if rows.contains(at) {
                    let j = choose|j: int| 0 <= j < rows.len() && rows[j] == at;
                    assert(in_scan(o, ox, oy, radius, rows[j], d + 1, one, end));
                }
            }
        } else {
            let out1: Seq<(i32, i32)> = if reports(o, radius, x, -d) { seq![t] } else { seq![] };
            assert(out1.contains(at) <==> (x == -d && dd == d)) by {
                if x == -d && dd == d {
                    assert((-d) * (-d) + (-d) * (-d) == 2 * dd * dd) by (nonlinear_arith) requires dd == d;
                    assert(reports(o, radius, -d, -d));
                    assert(out1[0] == at);
                }
            }
            if x == -d {
                assert(t == diag_tile(o, ox, oy, d));
            }
            let b = blocked(t.0, t.1);
            if b && d < radius {
                let rec = scan_octant(o, ox, oy, radius, blocked, d + 1, one, left);
                let rest = scan_cells(o, ox, oy, radius, blocked, end, d, x, one, true, right);
                lemma_diag_walled(o, ox, oy, radius, blocked, end, d, x, one, right, dd);
                if x == -d {
                    assert(steeper(left, one));
                    assert(rec.len() == 0);
                } else if dd > d {
                    lemma_diag_octant(o, ox, oy, radius, blocked, d + 1, left, dd);
                } else {
                    lemma_scan_octant_once(o, ox, oy, radius, blocked, d + 1, one, left);
                    if rec.contains(at) {
                        let j = choose|j: int| 0 <= j < rec.len() && rec[j] == at;
                        assert(in_scan(o, ox, oy, radius, rec[j], d + 1, one, left));
                    }
                }
                lemma_contains_concat(out1, rec, at);
                lemma_contains_concat(out1 + rec, rest, at);
            } else {
                let rest = scan_cells(o, ox, oy, radius, blocked, end, d, x, one, false, next);
                lemma_diag_cells(o, ox, oy, radius, blocked, end, d, x, next, dd);
                lemma_contains_concat(out1, rest, at);
            }
        }
    }
}

/// The rows from `d` out of a scan that starts at the diagonal report the
/// diagonal tile `dd` rows out exactly when no diagonal tile from row `d`
/// up to it blocks.
proof fn lemma_diag_rows(
    o: Octant,
    ox: int,
    oy: int,
    radius: int,
    blocked: spec_fn(i32, i32) -> bool,
    end: Slope,
    d: int,
    next: Slope,
    dd: int,
)
    requires
        o.wf(),
        !o.skip_diagonal,
        scan_room(ox, oy, radius),
        1 <= d <= dd <= radius,
        2 * dd * dd <= radius * radius,
        end.den > 0,
        !steeper(end, steep_slope()),
    ensures
        scan_rows(o, ox, oy, radius, blocked, end, d, steep_slope(), false, next).contains(diag_tile(o, ox, oy, dd))
            <==> diag_clear(o, ox, oy, blocked, d, dd),
    decreases radius + 1 - d, 1int, 0int,
{
    lemma_diag_cells(o, ox, oy, radius, blocked, end, d, -d - 1, next, dd);
    if dd > d {
        assert(diag_clear(o, ox, oy, blocked, d, dd) <==> (!blocked(diag_tile(o, ox, oy, d).0, diag_tile(o, ox, oy,
            d).1) && diag_clear(o, ox, oy, blocked, d + 1, dd)));
    }
}

/// A scan from row `row` that starts at the diagonal reports the diagonal
/// tile `dd` rows out exactly when no diagonal tile from `row` up to it
/// blocks.
proof fn lemma_diag_octant(
    o: Octant,
    ox: int,
    oy: int,
    radius: int,
    blocked: spec_fn(i32, i32) -> bool,
    row: int,
    end: Slope,
    dd: int,
)
    requires
        o.wf(),
        !o.skip_diagonal,
        scan_room(ox, oy, radius),
        1 <= row <= dd <= radius,
        2 * dd * dd <= radius * radius,
        end.den > 0,
        !steeper(end, steep_slope()),
    ensures
        scan_octant(o, ox, oy, radius, blocked, row, steep_slope(), end).contains(diag_tile(o, ox, oy, dd))
            <==> diag_clear(o, ox, oy, blocked, row, dd),
    decreases radius + 1 - row, 2int, 0int,
{
    lemma_diag_rows(o, ox, oy, radius, blocked, end, row, steep_slope(), dd);
}

/// The tile of octant `o` at local column `x`, `d` rows out.
spec fn tile_at(o: Octant, ox: int, oy: int, x: int, d: int) -> (i32, i32) {
    octant_tile(o, ox, oy, x, -d)
}

/// Two octant scans see the same blocking answers: at each local offset of
/// the scan area, `blocked2` answers for octant `o2`'s tile what `blocked1`
/// answers for octant `o1`'s.
spec fn same_sight(
    o1: Octant,
    o2: Octant,
    ox: int,
    oy: int,
    radius: int,
    blocked1: spec_fn(i32, i32) -> bool,
    blocked2: spec_fn(i32, i32) -> bool,
) -> bool {
    forall|x: int, e: int|
        1 <= e <= radius && -e <= x <= 0 ==> blocked2(#[trigger] tile_at(o2, ox, oy, x, e).0, tile_at(o2, ox, oy,
            x, e).1) == blocked1(tile_at(o1, ox, oy, x, e).0, tile_at(o1, ox, oy, x, e).1)
}

/// A scan from row `row` never reports a tile of a nearer row.
proof fn lemma_not_before(
    o: Octant,
    ox: int,
    oy: int,
    radius: int,
    out: Seq<(i32, i32)>,
    row: int,
    s: Slope,
    e: Slope,
    x: int,
    dd: int,
)
    requires
        o.wf(),
        scan_room(ox, oy, radius),
        1 <= dd < row,
        dd <= radius,
        -dd <= x <= 0,
        forall|i: int| 0 <= i < out.len() ==> in_scan(o, ox, oy, radius, #[trigger] out[i], row, s, e),
    ensures
        !out.contains(tile_at(o, ox, oy, x, dd)),
{
    lemma_tile_local(o, ox, oy, radius, x, dd);
    if out.contains(tile_at(o, ox, oy, x, dd)) {
        let j = choose|j: int| 0 <= j < out.len() && out[j] == tile_at(o, ox, oy, x, dd);
        assert(in_scan(o, ox, oy, radius, out[j], row, s, e));
    }
}

/// Scans that see the same blocking answers report the tile at local
/// offset `(x, dd)` alike, when both octants would report that offset at
/// all: the rest of row `d` after column `dx` and the rows beyond.
#[verifier::rlimit(80)]
#[verifier::spinoff_prover]
proof fn lemma_same_cells(
    o1: Octant,
    o2: Octant,
    ox: int,
    oy: int,
    radius: int,
    b1: spec_fn(i32, i32) -> bool,
    b2: spec_fn(i32, i32) -> bool,
    end: Slope,
    d: int,
    dx: int,
    start: Slope,
    in_wall: bool,
    next: Slope,
    x: int,
    dd: int,
)
    requires
        o1.wf(),
        o2.wf(),
        scan_room(ox, oy, radius),
        same_sight(o1, o2, ox, oy, radius, b1, b2),
        1 <= d <= dd <= radius,
        -dd <= x <= 0,
        reports(o1, radius, x, -dd) == reports(o2, radius, x, -dd),
        -d - 1 <= dx <= 0,
        start.den > 0,
        end.den > 0,
        in_wall ==> next.den > 0,
    ensures
        scan_cells(o2, ox, oy, radius, b2, end, d, dx, start, in_wall, next).contains(tile_at(o2, ox, oy, x, dd))
            <==> scan_cells(o1, ox, oy, radius, b1, end, d, dx, start, in_wall, next).contains(tile_at(o1, ox, oy, x,
            dd)),
    decreases radius + 1 - d, 0int, 0 - dx,
{
    let g1 = tile_at(o1, ox, oy, x, dd);
    let g2 = tile_at(o2, ox, oy, x, dd);
    lemma_tile_local(o1, ox, oy, radius, x, dd);
    lemma_tile_local(o2, ox, oy, radius, x, dd);
    if dx >= 0 {
        if dd > d {
            lemma_same_rows(o1, o2, ox, oy, radius, b1, b2, end, d + 1, start, in_wall, next, x, dd);
        } else {
            lemma_scan_rows_once(o1, ox, oy, radius, b1, end, d + 1, start, in_wall, next);
            lemma_scan_rows_once(o2, ox, oy, radius, b2, end, d + 1, start, in_wall, next);
            lemma_not_before(o1, ox, oy, radius, scan_rows(o1, ox, oy, radius, b1, end, d + 1, start, in_wall, next),
                d + 1, start, end, x, dd);
            lemma_not_before(o2, ox, oy, radius, scan_rows(o2, ox, oy, radius, b2, end, d + 1, start, in_wall, next),
                d + 1, start, end, x, dd);
        }
    } else {
        let x1 = dx + 1;
        let left = left_slope(x1, d);
        let right = right_slope(x1, d);
        let t1 = tile_at(o1, ox, oy, x1, d);
        let t2 = tile_at(o2, ox, oy, x1, d);
        lemma_slope_parts(x1, d);
        lemma_tile_local(o1, ox, oy, radius, x1, d);
        lemma_tile_local(o2, ox, oy, radius, x1, d);
        assert(t1 == g1 <==> (x1 == x && d == dd));
        assert(t2 == g2 <==> (x1 == x && d == dd));
        assert(b2(t2.0, t2.1) == b1(t1.0, t1.1));
        if steeper(right, start) {
            lemma_same_cells(o1, o2, ox, oy, radius, b1, b2, end, d, x1, start, in_wall, next, x, dd);
        } else if steeper(end, left) {
            if dd > d {
                lemma_same_rows(o1, o2, ox, oy, radius, b1, b2, end, d + 1, start, in_wall, next, x, dd);
            } else {
                lemma_scan_rows_once(o1, ox, oy, radius, b1, end, d + 1, start, in_wall, next);
                lemma_scan_rows_once(o2, ox, oy, radius, b2, end, d + 1, start, in_wall, next);
                lemma_not_before(o1, ox, oy, radius, scan_rows(o1, ox, oy, radius, b1, end, d + 1, start, in_wall,
                    next), d + 1, start, end, x, dd);
                lemma_not_before(o2, ox, oy, radius, scan_rows(o2, ox, oy, radius, b2, end, d + 1, start, in_wall,
                    next), d + 1, start, end, x, dd);
            }
        } else {
            let out1: Seq<(i32, i32)> = if reports(o1, radius, x1, -d) { seq![t1] } else { seq![] };
            let out2: Seq<(i32, i32)> = if reports(o2, radius, x1, -d) { seq![t2] } else { seq![] };
            assert(out1.contains(g1) <==> out2.contains(g2)) by {
                if out1.contains(g1) {
                    assert(out1[0] == g1);
                }
                if out2.contains(g2) {
                    assert(out2[0] == g2);
                }
                if x1 == x && d == dd && reports(o1, radius, x1, -d) {
                    assert(out1[0] == g1 && out2[0] == g2);
                }
            }
            let b = b1(t1.0, t1.1);
            if in_wall && b {
                lemma_same_cells(o1, o2, ox, oy, radius, b1, b2, end, d, x1, start, true, right, x, dd);
                lemma_contains_concat(out1, scan_cells(o1, ox, oy, radius, b1, end, d, x1, start, true, right), g1);
                lemma_contains_concat(out2, scan_cells(o2, ox, oy, radius, b2, end, d, x1, start, true, right), g2);
            } else if in_wall {
                lemma_same_cells(o1, o2, ox, oy, radius, b1, b2, end, d, x1, next, false, next, x, dd);
                lemma_contains_concat(out1, scan_cells(o1, ox, oy, radius, b1, end, d, x1, next, false, next), g1);
                lemma_contains_concat(out2, scan_cells(o2, ox, oy, radius, b2, end, d, x1, next, false, next), g2);
            } else if b && d < radius {
                let rec1 = scan_octant(o1, ox, oy, radius, b1, d + 1, start, left);
                let rec2 = scan_octant(o2, ox, oy, radius, b2, d + 1, start, left);
                if dd > d {
                    lemma_same_octant(o1, o2, ox, oy, radius, b1, b2, d + 1, start, left, x, dd);
                } else {
                    lemma_scan_octant_once(o1, ox, oy, radius, b1, d + 1, start, left);
                    lemma_scan_octant_once(o2, ox, oy, radius, b2, d + 1, start, left);
                    lemma_not_before(o1, ox, oy, radius, rec1, d + 1, start, left, x, dd);
                    lemma_not_before(o2, ox, oy, radius, rec2, d + 1, start, left, x, dd);
                }
                lemma_same_cells(o1, o2, ox, oy, radius, b1, b2, end, d, x1, start, true, right, x, dd);
                let rest1 = scan_cells(o1, ox, oy, radius, b1, end, d, x1, start, true, right);
                let rest2 = scan_cells(o2, ox, oy, radius, b2, end, d, x1, start, true, right);
                lemma_contains_concat(out1, rec1, g1);
                lemma_contains_concat(out1 + rec1, rest1, g1);
                lemma_contains_concat(out2, rec2, g2);
                lemma_contains_concat(out2 + rec2, rest2, g2);
            } else {
                lemma_same_cells(o1, o2, ox, oy, radius, b1, b2, end, d, x1, start, in_wall, next, x, dd);
                lemma_contains_concat(out1, scan_cells(o1, ox, oy, radius, b1, end, d, x1, start, in_wall, next), g1);
                lemma_contains_concat(out2, scan_cells(o2, ox, oy, radius, b2, end, d, x1, start, in_wall, next), g2);
            }
        }
    }
}

/// [`lemma_same_cells`] for the rows from `d` out.
proof fn lemma_same_rows(
    o1: Octant,
    o2: Octant,
    ox: int,
    oy: int,
    radius: int,
    b1: spec_fn(i32, i32) -> bool,
    b2: spec_fn(i32, i32) -> bool,
    end: Slope,
    d: int,
    start: Slope,
    in_wall: bool,
    next: Slope,
    x: int,
    dd: int,
)
    requires
        o1.wf(),
        o2.wf(),
        scan_room(ox, oy, radius),
        same_sight(o1, o2, ox, oy, radius, b1, b2),
        1 <= d <= dd <= radius,
        -dd <= x <= 0,
        reports(o1, radius, x, -dd) == reports(o2, radius, x, -dd),
        start.den > 0,
        end.den > 0,
    ensures
        scan_rows(o2, ox, oy, radius, b2, end, d, start, in_wall, next).contains(tile_at(o2, ox, oy, x, dd))
            <==> scan_rows(o1, ox, oy, radius, b1, end, d, start, in_wall, next).contains(tile_at(o1, ox, oy, x, dd)),
    decreases radius + 1 - d, 1int, 0int,
{
    if !in_wall {
        lemma_same_cells(o1, o2, ox, oy, radius, b1, b2, end, d, -d - 1, start, false, next, x, dd);
    }
}

/// [`lemma_same_cells`] for a whole scan from row `row`.
proof fn lemma_same_octant(
    o1: Octant,
    o2: Octant,
    ox: int,
    oy: int,
    radius: int,
    b1: spec_fn(i32, i32) -> bool,
    b2: spec_fn(i32, i32) -> bool,
    row: int,
    start: Slope,
    end: Slope,
    x: int,
    dd: int,
)
    requires
        o1.wf(),
        o2.wf(),
        scan_room(ox, oy, radius),
        same_sight(o1, o2, ox, oy, radius, b1, b2),
        1 <= row <= dd <= radius,
        -dd <= x <= 0,
        reports(o1, radius, x, -dd) == reports(o2, radius, x, -dd),
        start.den > 0,
        end.den > 0,
    ensures
        scan_octant(o2, ox, oy, radius, b2, row, start, end).contains(tile_at(o2, ox, oy, x, dd))
            <==> scan_octant(o1, ox, oy, radius, b1, row, start, end).contains(tile_at(o1, ox, oy, x, dd)),
    decreases radius + 1 - row, 2int, 0int,
{
    if !steeper(end, start) {
        lemma_same_rows(o1, o2, ox, oy, radius, b1, b2, end, row, start, false, start, x, dd);
    }
}

/// The transform `g` applied after octant `o`'s, keeping `o`'s ray flags.
spec fn compose(g: Octant, o: Octant) -> Octant {
    Octant {
        xx: (g.xx * o.xx + g.xy * o.yx) as i32,
        xy: (g.xx * o.xy + g.xy * o.yy) as i32,
        yx: (g.yx * o.xx + g.yy * o.yx) as i32,
        yy: (g.yx * o.xy + g.yy * o.yy) as i32,
        skip_axis: o.skip_axis,
        skip_diagonal: o.skip_diagonal,
    }
}

/// Two transforms are the same map.
spec fn same_turn(a: Octant, b: Octant) -> bool {
    a.xx == b.xx && a.xy == b.xy && a.yx == b.yx && a.yy == b.yy
}

/// Composing two of the eight transforms gives one of them, and applies
/// one after the other.
proof fn lemma_compose(g: Octant, o: Octant, a: int, b: int)
    requires
        g.wf(),
        o.wf(),
    ensures
        compose(g, o).wf(),
        world_off(compose(g, o), a, b) == world_off(g, world_off(o, a, b).0, world_off(o, a, b).1),
{
}

/// Two different transforms place tiles of the fundamental octant on the
/// same spot only along a ray they share: both on their axis or both on
/// their diagonal, at the same distance, and then the whole ray coincides.
proof fn lemma_shared_ray(a: Octant, b: Octant, x1: int, d1: int, x2: int, d2: int, e: int)
    requires
        a.wf(),
        b.wf(),
        !same_turn(a, b),
        1 <= d1,
        1 <= d2,
        -d1 <= x1 <= 0,
        -d2 <= x2 <= 0,
        world_off(a, x1, -d1) == world_off(b, x2, -d2),
    ensures
        d1 == d2,
        (x1 == 0 && x2 == 0 && world_off(a, 0, -e) == world_off(b, 0, -e)) || (x1 == -d1 && x2 == -d2 && world_off(a,
            -e, -e) == world_off(b, -e, -e)),
{
}

/// Octant `k`'s whole scan around `(ox, oy)`.
spec fn octant_scan(ox: int, oy: int, radius: int, blocked: spec_fn(i32, i32) -> bool, k: int) -> Seq<(i32, i32)> {
    scan_octant(octant_spec(k), ox, oy, radius, blocked, 1, steep_slope(), flat_slope())
}

/// A tile is among the first `i` octants' scans exactly when one of them
/// reports it.
proof fn lemma_scans_contain(ox: int, oy: int, radius: int, blocked: spec_fn(i32, i32) -> bool, i: int, t: (i32, i32))
    requires
        0 <= i <= 8,
    ensures
        octant_scans(ox, oy, radius, blocked, i).contains(t) <==> exists|k: int|
            0 <= k < i && #[trigger] octant_scan(ox, oy, radius, blocked, k).contains(t),
    decreases i,
{
    if i > 0 {
        lemma_scans_contain(ox, oy, radius, blocked, i - 1, t);
        let a = octant_scans(ox, oy, radius, blocked, i - 1);
        let b = octant_scan(ox, oy, radius, blocked, i - 1);
        lemma_contains_concat(a, b, t);
        assert(octant_scans(ox, oy, radius, blocked, i) == a + b);
        if b.contains(t) {
            assert(octant_scan(ox, oy, radius, blocked, i - 1).contains(t));
        }
        if exists|k: int| 0 <= k < i && #[trigger] octant_scan(ox, oy, radius, blocked, k).contains(t) {
            let k = choose|k: int| 0 <= k < i && #[trigger] octant_scan(ox, oy, radius, blocked, k).contains(t);
            if k < i - 1 {
                assert(a.contains(t));
            }
        }
    }
}

/// World tile `t` moved by transform `g` about `(ox, oy)`.
spec fn turn_tile(g: Octant, ox: int, oy: int, t: (i32, i32)) -> (i32, i32) {
    (
        (ox + world_off(g, t.0 - ox, t.1 - oy).0) as i32,
        (oy + world_off(g, t.0 - ox, t.1 - oy).1) as i32,
    )
}

/// `g` undoes itself.
spec fn involutive(g: Octant) -> bool {
    forall|a: int, b: int| #[trigger] world_off(g, world_off(g, a, b).0, world_off(g, a, b).1) == (a, b)
}

/// `p` lies in the square of `radius` around `(ox, oy)`.
spec fn in_square(ox: int, oy: int, radius: int, p: (i32, i32)) -> bool {
    ox - radius <= p.0 <= ox + radius && oy - radius <= p.1 <= oy + radius
}

/// A transform keeps an offset's length and its square around the origin.
proof fn lemma_turn_len(g: Octant, a: int, b: int)
    requires
        g.wf(),
    ensures
        world_off(g, a, b).0 * world_off(g, a, b).0 + world_off(g, a, b).1 * world_off(g, a, b).1 == a * a + b * b,
        abs_le(world_off(g, a, b).0, a, b),
        abs_le(world_off(g, a, b).1, a, b),
{
    assert((-a) * (-a) == a * a) by (nonlinear_arith);
    assert((-b) * (-b) == b * b) by (nonlinear_arith);
}

/// `v` is one of `a`, `-a`, `b`, `-b`.
spec fn abs_le(v: int, a: int, b: int) -> bool {
    v == a || v == -a || v == b || v == -b
}

/// Seen through transform `g`, octant `o2`'s scan area around `(ox, oy)`
/// is the area of the composed transform, and a blocking map that answers
/// for each tile what `blk` answers for its image gives the same sight.
proof fn lemma_mirror_sight(
    ox: int,
    oy: int,
    radius: int,
    g: Octant,
    o2: Octant,
    blk: spec_fn(i32, i32) -> bool,
    blk2: spec_fn(i32, i32) -> bool,
)
    requires
        scan_room(ox, oy, radius),
        g.wf(),
        o2.wf(),
        forall|p: (i32, i32)| in_square(ox, oy, radius, p) ==> #[trigger] blk2(p.0, p.1) == blk(turn_tile(g, ox, oy,
            p).0, turn_tile(g, ox, oy, p).1),
    ensures
        same_sight(compose(g, o2), o2, ox, oy, radius, blk, blk2),
{
    let o1 = compose(g, o2);
    assert forall|xx: int, e: int| 1 <= e <= radius && -e <= xx <= 0 implies blk2(
        #[trigger] tile_at(o2, ox, oy, xx, e).0, tile_at(o2, ox, oy, xx, e).1) == blk(tile_at(o1, ox, oy, xx, e).0,
        tile_at(o1, ox, oy, xx, e).1) by {
        let p = tile_at(o2, ox, oy, xx, e);
        let w = world_off(o2, xx, -e);
        lemma_compose(g, o2, xx, -e);
        lemma_turn_len(o2, xx, -e);
        lemma_turn_len(g, w.0, w.1);
        assert(p.0 == ox + w.0 && p.1 == oy + w.1);
        assert(in_square(ox, oy, radius, p));
        assert(turn_tile(g, ox, oy, p) == tile_at(o1, ox, oy, xx, e));
    }
}

/// Two transforms that both report the same tile, one of whose scans
/// reports it, both report it when the blocking map is the same: either
/// they are the same map, or the tile lies on a ray they share, and then
/// so does every tile that could shade it.
#[verifier::spinoff_prover]
proof fn lemma_same_tile(
    o: Octant,
    o1: Octant,
    ox: int,
    oy: int,
    radius: int,
    blk: spec_fn(i32, i32) -> bool,
    x: int,
    d: int,
    x2: int,
    d2: int,
)
    requires
        o.wf(),
        o1.wf(),
        scan_room(ox, oy, radius),
        1 <= d <= radius,
        -d <= x <= 0,
        1 <= d2 <= radius,
        -d2 <= x2 <= 0,
        reports(o, radius, x, -d),
        reports(o1, radius, x2, -d2),
        world_off(o1, x2, -d2) == world_off(o, x, -d),
        scan_octant(o, ox, oy, radius, blk, 1, steep_slope(), flat_slope()).contains(tile_at(o, ox, oy, x, d)),
    ensures
        scan_octant(o1, ox, oy, radius, blk, 1, steep_slope(), flat_slope()).contains(tile_at(o, ox, oy, x, d)),
{
    let one = steep_slope();
    let zero = flat_slope();
    let t = tile_at(o, ox, oy, x, d);
    assert(tile_at(o1, ox, oy, x2, d2) == t);
    if same_turn(o1, o) {
        assert(world_off(o1, x2, -d2) == world_off(o, x2, -d2));
        lemma_local_world(o, x2, -d2);
        lemma_local_world(o, x, -d);
        assert(x2 == x && d2 == d);
        assert forall|xx: int, e: int| 1 <= e <= radius && -e <= xx <= 0 implies blk(
            #[trigger] tile_at(o1, ox, oy, xx, e).0, tile_at(o1, ox, oy, xx, e).1) == blk(tile_at(o, ox, oy, xx,
            e).0, tile_at(o, ox, oy, xx, e).1) by {
            assert(world_off(o1, xx, -e) == world_off(o, xx, -e));
        }
        lemma_same_octant(o, o1, ox, oy, radius, blk, blk, 1, one, zero, x, d);
    } else {
        lemma_shared_ray(o, o1, x, d, x2, d2, 1);
        if x == 0 {
            assert forall|e: int|
                #![trigger axis_tile(o, ox, oy, e)]
                #![trigger axis_tile(o1, ox, oy, e)]
                1 <= e < d implies axis_tile(o, ox, oy, e) == axis_tile(o1, ox, oy, e) by {
                lemma_shared_ray(o, o1, x, d, x2, d2, e);
            }
            assert(axis_clear(o, ox, oy, blk, 1, d) == axis_clear(o1, ox, oy, blk, 1, d));
            lemma_axis_rows(o, ox, oy, radius, blk, 1, one, false, one, d);
            lemma_axis_rows(o1, ox, oy, radius, blk, 1, one, false, one, d);
            assert(axis_tile(o, ox, oy, d) == t);
            assert(axis_tile(o1, ox, oy, d) == t);
        } else {
            assert forall|e: int|
                #![trigger diag_tile(o, ox, oy, e)]
                #![trigger diag_tile(o1, ox, oy, e)]
                1 <= e < d implies diag_tile(o, ox, oy, e) == diag_tile(o1, ox, oy, e) by {
                lemma_shared_ray(o, o1, x, d, x2, d2, e);
            }
            assert(diag_clear(o, ox, oy, blk, 1, d) == diag_clear(o1, ox, oy, blk, 1, d));
            assert(x * x + (-d) * (-d) == 2 * d * d) by (nonlinear_arith)
                requires
                    x == -d,
            ;
            lemma_diag_octant(o, ox, oy, radius, blk, 1, zero, d);
            lemma_diag_octant(o1, ox, oy, radius, blk, 1, zero, d);
            assert(diag_tile(o, ox, oy, d) == t);
            assert(diag_tile(o1, ox, oy, d) == t);
        }
    }
}

/// A tile that some octant reports, mirrored by an involutive transform, is
/// reported for the mirrored blocking map.
#[verifier::spinoff_prover]
proof fn lemma_mirror_one(
    ox: int,
    oy: int,
    radius: int,
    g: Octant,
    blk: spec_fn(i32, i32) -> bool,
    blk2: spec_fn(i32, i32) -> bool,
    t: (i32, i32),
)
    requires
        scan_room(ox, oy, radius),
        g.wf(),
        involutive(g),
        forall|p: (i32, i32)| in_square(ox, oy, radius, p) ==> #[trigger] blk2(p.0, p.1) == blk(turn_tile(g, ox, oy,
            p).0, turn_tile(g, ox, oy, p).1),
        octant_scans(ox, oy, radius, blk, 8).contains(t),
    ensures
        octant_scans(ox, oy, radius, blk2, 8).contains(turn_tile(g, ox, oy, t)),
{
    let one = steep_slope();
    let zero = flat_slope();
    lemma_scans_contain(ox, oy, radius, blk, 8, t);
    let k = choose|k: int| 0 <= k < 8 && #[trigger] octant_scan(ox, oy, radius, blk, k).contains(t);
    let o = octant_spec(k);
    assert(o.wf());
    let sk = octant_scan(ox, oy, radius, blk, k);
    lemma_scan_octant_once(o, ox, oy, radius, blk, 1, one, zero);
    let j = choose|j: int| 0 <= j < sk.len() && sk[j] == t;
    assert(in_scan(o, ox, oy, radius, sk[j], 1, one, zero));
    let (bx, by) = (t.0 - ox, t.1 - oy);
    let x = loc_x(o, ox, oy, t);
    let d = loc_d(o, ox, oy, t);
    lemma_local_world(o, bx, by);
    assert(world_off(o, x, -d) == (bx, by));
    assert(t == tile_at(o, ox, oy, x, d));
    // The mirrored tile, and the octant that owns it.
    let w2 = world_off(g, bx, by);
    lemma_turn_len(g, bx, by);
    lemma_turn_len(o, x, -d);
    assert((-d) * (-d) == d * d) by (nonlinear_arith);
    let t2 = turn_tile(g, ox, oy, t);
    let k2 = owner(w2.0, w2.1);
    assert(0 <= k2 < 8);
    lemma_octants_partition(radius, w2.0, w2.1, k2);
    let o2 = octant_spec(k2);
    assert(o2.wf());
    lemma_local_world(o2, w2.0, w2.1);
    let x2 = local_off(o2, w2.0, w2.1).0;
    let d2 = -local_off(o2, w2.0, w2.1).1;
    assert(reports(o2, radius, x2, -d2));
    assert(t2 == tile_at(o2, ox, oy, x2, d2));
    // The same scan, seen through the mirror.
    let o1 = compose(g, o2);
    lemma_compose(g, o2, x2, -d2);
    assert(world_off(o1, x2, -d2) == (bx, by));
    lemma_mirror_sight(ox, oy, radius, g, o2, blk, blk2);
    lemma_same_octant(o1, o2, ox, oy, radius, blk, blk2, 1, one, zero, x2, d2);
    lemma_same_tile(o, o1, ox, oy, radius, blk, x, d, x2, d2);
    assert(tile_at(o1, ox, oy, x2, d2) == t);
    assert(octant_scan(ox, oy, radius, blk2, k2).contains(t2));
    lemma_scans_contain(ox, oy, radius, blk2, 8, t2);
}

/// A line through the origin of a scan, to mirror the grid about.
#[derive(Debug, Clone, Copy, PartialEq, Eq, Structural)]
pub enum Mirror {
    /// The vertical line `x == origin_x`.
    AcrossVertical,
    /// The horizontal line `y == origin_y`.
    AcrossHorizontal,
    /// The diagonal `x - origin_x == y - origin_y`.
    AcrossDiagonal,
    /// The anti-diagonal `x - origin_x == origin_y - y`.
    AcrossAntiDiagonal,
}

/// Tile `t` mirrored by `m` about the origin `(ox, oy)`.
pub open spec fn mirror_tile(m: Mirror, ox: i32, oy: i32, t: (i32, i32)) -> (i32, i32) {
    match m {
        Mirror::AcrossVertical => ((2 * ox - t.0) as i32, t.1),
        Mirror::AcrossHorizontal => (t.0, (2 * oy - t.1) as i32),
        Mirror::AcrossDiagonal => ((ox + (t.1 - oy)) as i32, (oy + (t.0 - ox)) as i32),
        Mirror::AcrossAntiDiagonal => ((ox - (t.1 - oy)) as i32, (oy - (t.0 - ox)) as i32),
    }
}

/// The transform of offsets that `m` performs.
spec fn mirror_turn(m: Mirror) -> Octant {
    match m {
        Mirror::AcrossVertical => Octant {
            xx: -1i32,
            xy: 0i32,
            yx: 0i32,
            yy: 1i32,
            skip_axis: false,
            skip_diagonal: false,
        },
        Mirror::AcrossHorizontal => Octant {
            xx: 1i32,
            xy: 0i32,
            yx: 0i32,
            yy: -1i32,
            skip_axis: false,
            skip_diagonal: false,
        },
        Mirror::AcrossDiagonal => Octant {
            xx: 0i32,
            xy: 1i32,
            yx: 1i32,
            yy: 0i32,
            skip_axis: false,
            skip_diagonal: false,
        },
        Mirror::AcrossAntiDiagonal => Octant {
            xx: 0i32,
            xy: -1i32,
            yx: -1i32,
            yy: 0i32,
            skip_axis: false,
            skip_diagonal: false,
        },
    }
}

/// A mirror is one of the eight transforms, undoes itself, and moves tiles
/// as [`mirror_tile`] says, keeping the square around the origin.
proof fn lemma_mirror_turn(m: Mirror, ox: i32, oy: i32, radius: int, t: (i32, i32))
    requires
        scan_room(ox as int, oy as int, radius),
    ensures
        mirror_turn(m).wf(),
        involutive(mirror_turn(m)),
        in_square(ox as int, oy as int, radius, t) ==> {
            &&& mirror_tile(m, ox, oy, t) == turn_tile(mirror_turn(m), ox as int, oy as int, t)
            &&& in_square(ox as int, oy as int, radius, mirror_tile(m, ox, oy, t))
            &&& mirror_tile(m, ox, oy, mirror_tile(m, ox, oy, t)) == t
        },
{
}

/// Mirroring the blocking map about a line through the origin mirrors what
/// a scan sees: a tile is seen with `blocked` exactly when its mirror image
/// is seen with the mirrored map `mirrored`. Only the tiles of the square of
/// `radius` around the origin matter, since a scan asks about no others.
pub proof fn lemma_shadow_mirror(
    ox: i32,
    oy: i32,
    radius: i32,
    m: Mirror,
    blocked: spec_fn(i32, i32) -> bool,
    mirrored: spec_fn(i32, i32) -> bool,
    t: (i32, i32),
)
    requires
        scan_fits(ox as int, oy as int, radius as int),
        forall|x: i32, y: i32|
            ox - radius <= x <= ox + radius && oy - radius <= y <= oy + radius ==> #[trigger] mirrored(x, y)
                == blocked(mirror_tile(m, ox, oy, (x, y)).0, mirror_tile(m, ox, oy, (x, y)).1),
    ensures
        shadow_view(ox, oy, radius, blocked).contains(t) ==> shadow_view(ox, oy, radius, mirrored).contains(
            mirror_tile(m, ox, oy, t)),
        shadow_view(ox, oy, radius, mirrored).contains(t) ==> shadow_view(ox, oy, radius, blocked).contains(
            mirror_tile(m, ox, oy, t)),
{
    let o = (ox, oy);
    if radius <= 0 {
        if shadow_view(ox, oy, radius, blocked).contains(t) || shadow_view(ox, oy, radius, mirrored).contains(t) {
            assert(t == o);
        }
        assert(mirror_tile(m, ox, oy, o) == o);
        assert(shadow_view(ox, oy, radius, blocked)[0] == o);
        assert(shadow_view(ox, oy, radius, mirrored)[0] == o);
    } else {
        lemma_radius_bound(radius as int);
        let (x0, y0, r) = (ox as int, oy as int, radius as int);
        let g = mirror_turn(m);
        lemma_mirror_turn(m, ox, oy, r, t);
        lemma_mirror_turn(m, ox, oy, r, o);
        assert(in_square(x0, y0, r, o));
        assert(mirror_tile(m, ox, oy, o) == o);
        assert forall|p: (i32, i32)| in_square(x0, y0, r, p) implies #[trigger] mirrored(p.0, p.1) == blocked(
            turn_tile(g, x0, y0, p).0, turn_tile(g, x0, y0, p).1) by {
            lemma_mirror_turn(m, ox, oy, r, p);
            assert(mirrored(p.0, p.1) == blocked(mirror_tile(m, ox, oy, (p.0, p.1)).0, mirror_tile(m, ox, oy, (p.0,
                p.1)).1));
        }
        assert forall|p: (i32, i32)| in_square(x0, y0, r, p) implies #[trigger] blocked(p.0, p.1) == mirrored(
            turn_tile(g, x0, y0, p).0, turn_tile(g, x0, y0, p).1) by {
            lemma_mirror_turn(m, ox, oy, r, p);
            let q = mirror_tile(m, ox, oy, p);
            lemma_mirror_turn(m, ox, oy, r, q);
            assert(mirrored(q.0, q.1) == blocked(mirror_tile(m, ox, oy, (q.0, q.1)).0, mirror_tile(m, ox, oy, (q.0,
                q.1)).1));
        }
        let scans_b = octant_scans(x0, y0, r, blocked, 8);
        let scans_m = octant_scans(x0, y0, r, mirrored, 8);
        assert(shadow_view(ox, oy, radius, blocked) == seq![o] + scans_b);
        assert(shadow_view(ox, oy, radius, mirrored) == seq![o] + scans_m);
        lemma_contains_concat(seq![o], scans_b, t);
        lemma_contains_concat(seq![o], scans_m, t);
        let u = mirror_tile(m, ox, oy, t);
        lemma_contains_concat(seq![o], scans_b, u);
        lemma_contains_concat(seq![o], scans_m, u);
        if t == o {
            assert(seq![o].contains(o)) by {
                assert(seq![o][0] == o);
            }
        } else {
            if seq![o].contains(t) {
                assert(seq![o][0] == t);
            }
            if scans_b.contains(t) {
                lemma_mirror_one(x0, y0, r, g, blocked, mirrored, t);
                lemma_octant_scans_in_square(x0, y0, r, blocked, t);
            }
            if scans_m.contains(t) {
                lemma_mirror_one(x0, y0, r, g, mirrored, blocked, t);
                lemma_octant_scans_in_square(x0, y0, r, mirrored, t);
            }
        }
    }
}

/// Every tile an octant scan reports lies in the square of the radius.
proof fn lemma_octant_scans_in_square(ox: int, oy: int, radius: int, blk: spec_fn(i32, i32) -> bool, t: (i32, i32))
    requires
        scan_room(ox, oy, radius),
        octant_scans(ox, oy, radius, blk, 8).contains(t),
    ensures
        in_square(ox, oy, radius, t),
{
    lemma_scans_contain(ox, oy, radius, blk, 8, t);
    let k = choose|k: int| 0 <= k < 8 && #[trigger] octant_scan(ox, oy, radius, blk, k).contains(t);
    let o = octant_spec(k);
    assert(o.wf());
    let sk = octant_scan(ox, oy, radius, blk, k);
    lemma_scan_octant_once(o, ox, oy, radius, blk, 1, steep_slope(), flat_slope());
    let j = choose|j: int| 0 <= j < sk.len() && sk[j] == t;
    assert(in_scan(o, ox, oy, radius, sk[j], 1, steep_slope(), flat_slope()));
    let x = loc_x(o, ox, oy, t);
    let d = loc_d(o, ox, oy, t);
    lemma_local_world(o, t.0 - ox, t.1 - oy);
    lemma_turn_len(o, x, -d);
}

// ── Hex field of view ───────────────────────────────────────────────────────

/// Whether the caller's blocking test may answer yes for `t`. For a
/// [`blocks_deterministic`] test this is exactly the answer it gives.
pub open spec fn blocked_at<B: Fn(Tile) -> bool>(blocks: B, t: Tile) -> bool {
    call_ensures(blocks, (t,), true)
}

/// A blocking test that answers the same for the same tile.
pub open spec fn blocks_deterministic<B: Fn(Tile) -> bool>(blocks: B) -> bool {
    forall|t: Tile, b1: bool, b2: bool|
        call_ensures(blocks, (t,), b1) && call_ensures(blocks, (t,), b2) ==> b1 == b2
}

/// Whether a line reaches `target` without meeting a blocker first: every
/// step after the start and before the first arrival at `target` is clear.
pub open spec fn line_clear<B: Fn(Tile) -> bool>(blocks: B, line: Seq<Tile>, target: Tile) -> bool {
    forall|j: int|
        1 <= j < line.len() && (forall|k: int| 1 <= k <= j ==> line[k] != target)
            ==> !blocked_at(blocks, #[trigger] line[j])
}

/// Whether `target` is seen from `center`: not the center itself, and the
/// hex line to it is clear.
pub open spec fn sighted<B: Fn(Tile) -> bool>(layout: HexLayout, center: Tile, blocks: B, target: Tile) -> bool {
    target != center && line_clear(blocks, line_tiles(layout, center, target), target)
}

/// Whether every ring and line a field of view of `radius` walks stays
/// within `i32`.
pub open spec fn fov_converts(layout: HexLayout, center: Tile, radius: int) -> bool {
    &&& forall|r: int| 1 <= r <= radius ==> #[trigger] ring_converts(layout, center, r)
    &&& forall|t: Tile| spiral_tiles(layout, center, radius).contains(t) ==> #[trigger] line_converts(layout, center, t)
}

/// What [`hex_fov`] reports: the center, then, for a positive radius, every
/// hex of the spiral around it that is [`sighted`], in spiral order.
pub open spec fn hex_view<B: Fn(Tile) -> bool>(layout: HexLayout, center: Tile, radius: int, blocks: B) -> Seq<Tile> {
    if radius <= 0 {
        seq![center]
    } else {
        seq![center] + spiral_tiles(layout, center, radius).filter(
            |t: Tile| sighted(layout, center, blocks, t))
    }
}

/// Whether the line to `target` is clear, asking `blocks` about each step
/// until the target or a blocker is reached.
fn line_is_clear<B: Fn(Tile) -> bool>(blocks: &B, line: &Vec<Tile>, target: Tile) -> (clear: bool)
    requires
        line@.len() >= 1,
        forall|j: int| 1 <= j < line@.len() ==> #[trigger] line@[j] != line@[0],
        forall|t: Tile| t != line@[0] ==> call_requires(*blocks, (t,)),
        blocks_deterministic(*blocks),
    ensures
        clear == line_clear(*blocks, line@, target),
{
    let mut j: usize = 1;
    while j < line.len()
        invariant
            line@.len() >= 1,
            forall|j2: int| 1 <= j2 < line@.len() ==> #[trigger] line@[j2] != line@[0],
            forall|t: Tile| t != line@[0] ==> call_requires(*blocks, (t,)),
            blocks_deterministic(*blocks),
            1 <= j,
            forall|k: int| 1 <= k < j && k < line@.len() ==> line@[k] != target && !blocked_at(*blocks, #[trigger] line@[k]),
        decreases line@.len() - j,
    {
        let step = line[j];
        assert(step != line@[0]);
        if step == target {
            proof {
                assert forall|j2: int|
                    1 <= j2 < line@.len() && (forall|k: int| 1 <= k <= j2 ==> line@[k] != target)
                    implies !blocked_at(*blocks, #[trigger] line@[j2]) by {
                    if j2 >= j {
                        assert(line@[j as int] == target);
                    }
                }
            }
            return true;
        }
        let b = (*blocks)(step);
        if b {
            proof {
                assert(blocked_at(*blocks, step));
                assert(forall|k: int| 1 <= k <= j ==> line@[k] != target);
            }
            return false;
        }
        proof {
            assert(!blocked_at(*blocks, step));
        }
        j += 1;
    }
    true
}

/// Field of view on a hex grid, by line-of-sight tracing.
///
/// Returns the center, then every hex within `radius` of it (in spiral
/// order) whose hex line from the center meets no blocker before reaching
/// it. The blocker itself is seen: you can see the wall, just not past it.
/// `blocks` is never asked about the center.
pub fn hex_fov<B: Fn(Tile) -> bool>(layout: HexLayout, center: Tile, radius: i32, blocks: B) -> (seen: Vec<Tile>)
    requires
        forall|t: Tile| t != center ==> call_requires(blocks, (t,)),
        blocks_deterministic(blocks),
        radius > 0 ==> fov_converts(layout, center, radius as int),
    ensures
        seen@ == hex_view(layout, center, radius as int, blocks),
{
    let mut seen: Vec<Tile> = Vec::new();
    seen.push(center);
    if radius <= 0 {
        return seen;
    }
    let targets = hex_spiral(layout, center, radius);
    let ghost keep = |t: Tile| sighted(layout, center, blocks, t);
    let mut k: usize = 0;
    while k < targets.len()
        invariant
            forall|t: Tile| t != center ==> call_requires(blocks, (t,)),
            blocks_deterministic(blocks),
            radius > 0,
            fov_converts(layout, center, radius as int),
            targets@ == spiral_tiles(layout, center, radius as int),
            keep == (|t: Tile| sighted(layout, center, blocks, t)),
            k <= targets@.len(),
            seen@ == seq![center] + targets@.take(k as int).filter(keep),
        decreases targets@.len() - k,
    {
        let target = targets[k];
        proof {
            let s1 = targets@.take(k as int + 1);
            assert(s1.drop_last() =~= targets@.take(k as int));
            assert(s1.last() == target);
            reveal(Seq::filter);
            assert(targets@.contains(target));
        }
        if target != center {
            let line = hex_line(layout, center, target);
            proof {
                assert(line_converts(layout, center, target));
                crate::geom::hex::lemma_line_ends(layout, center, target);
                assert forall|j: int| 1 <= j < line@.len() implies #[trigger] line@[j] != line@[0] by {
                    crate::geom::hex::lemma_line_tiles_steps(layout, center, target, 0, j);
                }
            }
            if line_is_clear(&blocks, &line, target) {
                seen.push(target);
                proof {
                    assert(seen@ =~= seq![center] + targets@.take(k as int + 1).filter(keep));
                }
            }
        }
        k += 1;
    }
    proof {
        assert(targets@.take(k as int) =~= targets@);
    }
    seen
}

/// A sequence without repeats keeps none after filtering.
proof fn lemma_filter_distinct<T>(s: Seq<T>, p: spec_fn(T) -> bool)
    requires
        s.no_duplicates(),
    ensures
        s.filter(p).no_duplicates(),
    decreases s.len(),
{
    if s.len() > 0 {
        let rest = s.drop_last();
        let e = s.last();
        assert(rest.no_duplicates());
        lemma_filter_distinct(rest, p);
        assert(rest.push(e) =~= s);
        rest.lemma_filter_push(e, p);
        if p(e) && rest.filter(p).contains(e) {
            rest.lemma_filter_contains_rev(p, e);
            let i = choose|i: int| 0 <= i < rest.len() && rest[i] == e;
            assert(s[i] == s[s.len() - 1]);
        }
    }
}

/// Hex field of view never reports a hex beyond its radius (the center, at
/// distance zero, is always reported), whatever blocks the view.
pub proof fn lemma_hex_view_within_radius<B: Fn(Tile) -> bool>(
    layout: HexLayout,
    center: Tile,
    radius: int,
    blocks: B,
)
    requires
        layout.converts(center),
        forall|r: int| 1 <= r <= radius ==> #[trigger] ring_converts(layout, center, r),
    ensures
        forall|i: int| 0 <= i < hex_view(layout, center, radius, blocks).len()
            ==> layout.hex_distance(center, #[trigger] hex_view(layout, center, radius, blocks)[i])
                <= if radius < 0 { 0 } else { radius },
{
    let v = hex_view(layout, center, radius, blocks);
    let h = to_axial(layout.orientation, center.col as int, center.row as int);
    lemma_distance_is_metric(h.0, h.1, h.0, h.1, h.0, h.1);
    if radius > 0 {
        let sp = spiral_tiles(layout, center, radius);
        let keep = |t: Tile| sighted(layout, center, blocks, t);
        lemma_spiral_covers_once(layout, center, radius);
        sp.filter_lemma(keep);
        assert forall|i: int| 0 <= i < v.len() implies layout.hex_distance(center, #[trigger] v[i])
            <= radius by {
            if i > 0 {
                assert(v[i] == sp.filter(keep)[i - 1]);
                assert(sp.filter(keep).contains(v[i]));
                sp.lemma_filter_contains_rev(keep, v[i]);
            }
        }
    }
}

/// On open ground (a blocking test that never answers yes) hex field of
/// view sees every hex within the radius, and reports each once.
pub proof fn lemma_hex_view_open_ground<B: Fn(Tile) -> bool>(
    layout: HexLayout,
    center: Tile,
    radius: int,
    blocks: B,
)
    requires
        layout.converts(center),
        forall|r: int| 1 <= r <= radius ==> #[trigger] ring_converts(layout, center, r),
        forall|t: Tile| !call_ensures(blocks, (t,), true),
    ensures
        forall|t: Tile| layout.converts(t) && #[trigger] layout.hex_distance(center, t) <= radius
            ==> hex_view(layout, center, radius, blocks).contains(t),
        hex_view(layout, center, radius, blocks).no_duplicates(),
{
    let v = hex_view(layout, center, radius, blocks);
    let h = to_axial(layout.orientation, center.col as int, center.row as int);
    assert(v[0] == center);
    if radius <= 0 {
        assert forall|t: Tile| layout.converts(t) && #[trigger] layout.hex_distance(center, t) <= radius
            implies v.contains(t) by {
            let ht = to_axial(layout.orientation, t.col as int, t.row as int);
            lemma_distance_is_metric(h.0, h.1, ht.0, ht.1, h.0, h.1);
            crate::geom::hex::lemma_to_axial_injective(layout.orientation, center, t);
        }
    } else {
        let sp = spiral_tiles(layout, center, radius);
        let keep = |t: Tile| sighted(layout, center, blocks, t);
        let f = sp.filter(keep);
        lemma_spiral_covers_once(layout, center, radius);
        sp.filter_lemma(keep);
        assert(v == seq![center] + f);
        assert forall|t: Tile| layout.converts(t) && #[trigger] layout.hex_distance(center, t) <= radius
            implies v.contains(t) by {
            if t != center {
                assert(sp.contains(t));
                let i = choose|i: int| 0 <= i < sp.len() && sp[i] == t;
                assert(keep(sp[i]));
                assert(f.contains(sp[i]));
                let j = choose|j: int| 0 <= j < f.len() && f[j] == t;
                assert(v[j + 1] == t);
            }
        }
        assert(sp.no_duplicates());
        lemma_filter_distinct(sp, keep);
        assert forall|i: int, j: int| 0 <= i < v.len() && 0 <= j < v.len() && i != j
            implies v[i] != v[j] by {
            if i > 0 && j > 0 {
                assert(v[i] == f[i - 1] && v[j] == f[j - 1]);
            } else if i == 0 {
                assert(v[j] == f[j - 1]);
                assert(keep(f[j - 1]));
            } else {
                assert(v[i] == f[i - 1]);
                assert(keep(f[i - 1]));
            }
        }
    }
}

} // verus!
