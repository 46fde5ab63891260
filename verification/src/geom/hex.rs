//! Hex grids laid out in character cells, with the hex algorithms (offset
//! and axial conversions, distance, neighbours, rings) taken from `hexal`.
//!
//! The rule is: store and draw in offset coordinates, reason in axial ones.

use vstd::prelude::*;

use crate::geom::{abs, div_euclid, fits, rem_euclid, Cell, Tile};

verus! {

/// An axial hex coordinate `(q, r)`; the third cube coordinate is
/// `s = -q - r`.
#[derive(Debug, Clone, Copy, PartialEq, Eq, Structural, Hash, Default)]
pub struct AxialHex {
    /// Column axis (runs northeast-southwest).
    pub q: i32,
    /// Row axis (runs north-south).
    pub r: i32,
}

impl AxialHex {
    /// The hex at `(q, r)`.
    pub fn new(q: i32, r: i32) -> (h: Self)
        ensures
            h.q == q && h.r == r,
    {
        AxialHex { q, r }
    }

    /// The derived cube coordinate `-q - r`.
    pub fn s(self) -> (s: i32)
        requires
            fits_abs(self.q as int),
            fits(-self.q - self.r),
        ensures
            s == -self.q - self.r,
    {
        -self.q - self.r
    }
}

// ── Offset <-> axial, as `hexal` defines them ───────────────────────────────

/// `odd-r` offset (pointy-top, odd rows shifted right) to axial.
pub open spec fn odd_r_to_axial(col: int, row: int) -> (int, int) {
    (col - (row - row % 2) / 2, row)
}

/// Axial to `odd-r` offset.
pub open spec fn axial_to_odd_r(q: int, r: int) -> (int, int) {
    (q + (r - r % 2) / 2, r)
}

/// `odd-q` offset (flat-top, odd columns shifted down) to axial.
pub open spec fn odd_q_to_axial(col: int, row: int) -> (int, int) {
    (col, row - (col - col % 2) / 2)
}

/// Axial to `odd-q` offset.
pub open spec fn axial_to_odd_q(q: int, r: int) -> (int, int) {
    (q, r + (q - q % 2) / 2)
}

/// `even-q` offset (flat-top, odd columns shifted up) to axial.
pub open spec fn even_q_to_axial(col: int, row: int) -> (int, int) {
    (col, row - (col + col % 2) / 2)
}

/// Hex distance in cube coordinates: `max(|dq|, |dr|, |ds|)`.
pub open spec fn axial_distance(aq: int, ar: int, bq: int, br: int) -> int {
    let dq = abs(aq - bq);
    let dr = abs(ar - br);
    let ds = abs((-aq - ar) - (-bq - br));
    if dq >= dr && dq >= ds {
        dq
    } else if dr >= ds {
        dr
    } else {
        ds
    }
}

/// Whether `v` fits in an `i32` and has an absolute value that does too.
pub open spec fn fits_abs(v: int) -> bool {
    i32::MIN < v <= i32::MAX
}

/// Whether `hexal` can measure the distance between two `i32` hexes
/// without overflow.
pub open spec fn distance_fits(a: AxialHex, b: AxialHex) -> bool {
    axial_distance_fits(a.q as int, a.r as int, b.q as int, b.r as int)
}

/// Whether `hexal` can measure the distance between `(aq, ar)` and
/// `(bq, br)` without overflow.
pub open spec fn axial_distance_fits(aq: int, ar: int, bq: int, br: int) -> bool {
    &&& fits_abs(aq) && fits(-aq - ar)
    &&& fits_abs(bq) && fits(-bq - br)
    &&& fits_abs(aq - bq) && fits_abs(ar - br)
    &&& fits_abs((-aq - ar) - (-bq - br))
}

/// The `q` step of axial direction `i`, in `hexal`'s order E, NE, NW, W,
/// SW, SE.
pub open spec fn dir_q(i: int) -> int {
    if i == 0 || i == 1 { 1 } else if i == 3 || i == 4 { -1 } else { 0 }
}

/// The `r` step of axial direction `i`.
pub open spec fn dir_r(i: int) -> int {
    if i == 4 || i == 5 { 1 } else if i == 1 || i == 2 { -1 } else { 0 }
}

/// The corner of the radius-`r` ring where its `i`th edge starts, relative
/// to the center.
pub open spec fn ring_corner(i: int, r: int) -> (int, int) {
    if i == 0 {
        (-r, r)
    } else if i == 1 {
        (0, r)
    } else if i == 2 {
        (r, 0)
    } else if i == 3 {
        (r, -r)
    } else if i == 4 {
        (0, -r)
    } else {
        (-r, 0)
    }
}

/// The `k`th hex of the radius-`r` ring around `(cq, cr)`, in the order
/// `hexal` walks it: from the south-west corner, `r` steps along each of
/// the six directions in turn.
pub open spec fn ring_hex(cq: int, cr: int, r: int, k: int) -> (int, int) {
    let i = k / r;
    let j = k % r;
    (cq + ring_corner(i, r).0 + dir_q(i) * j, cr + ring_corner(i, r).1 + dir_r(i) * j)
}

/// Whether every hex of the radius-`r` ring around `c` fits in `i32`.
pub open spec fn ring_fits(c: AxialHex, r: int) -> bool {
    fits(c.q - r) && fits(c.q + r) && fits(c.r - r) && fits(c.r + r)
}

/// Calls `hexal`'s `odd-r` conversion to axial.
#[verifier::external_body]
fn odd_r_offset_to_axial(col: i32, row: i32) -> (h: AxialHex)
    requires
        fits(odd_r_to_axial(col as int, row as int).0),
    ensures
        h.q == odd_r_to_axial(col as int, row as int).0,
        h.r == row,
{
    let h = hexal::OffsetHex::<i32, hexal::OddR>::new(col, row).to_hex();
    AxialHex { q: h.q, r: h.r }
}

/// Calls `hexal`'s `odd-q` conversion to axial.
#[verifier::external_body]
fn odd_q_offset_to_axial(col: i32, row: i32) -> (h: AxialHex)
    requires
        fits(odd_q_to_axial(col as int, row as int).1),
    ensures
        h.q == col,
        h.r == odd_q_to_axial(col as int, row as int).1,
{
    let h = hexal::OffsetHex::<i32, hexal::OddQ>::new(col, row).to_hex();
    AxialHex { q: h.q, r: h.r }
}

/// Calls `hexal`'s `even-q` conversion to axial; `hexal` computes
/// `col + (col & 1)` on the way, which must not overflow.
#[verifier::external_body]
fn even_q_offset_to_axial(col: i32, row: i32) -> (h: AxialHex)
    requires
        fits(col + col % 2),
        fits(even_q_to_axial(col as int, row as int).1),
    ensures
        h.q == col,
        h.r == even_q_to_axial(col as int, row as int).1,
{
    let h = hexal::OffsetHex::<i32, hexal::EvenQ>::new(col, row).to_hex();
    AxialHex { q: h.q, r: h.r }
}

/// Calls `hexal`'s axial to `odd-r` conversion.
#[verifier::external_body]
fn axial_to_odd_r_offset(h: AxialHex) -> (t: Tile)
    requires
        fits(axial_to_odd_r(h.q as int, h.r as int).0),
    ensures
        t.col == axial_to_odd_r(h.q as int, h.r as int).0,
        t.row == h.r,
{
    let o = hexal::Hex::new(h.q, h.r).to_offset::<hexal::OddR>();
    Tile { col: o.col, row: o.row }
}

/// Calls `hexal`'s axial to `odd-q` conversion.
#[verifier::external_body]
fn axial_to_odd_q_offset(h: AxialHex) -> (t: Tile)
    requires
        fits(axial_to_odd_q(h.q as int, h.r as int).1),
    ensures
        t.col == h.q,
        t.row == axial_to_odd_q(h.q as int, h.r as int).1,
{
    let o = hexal::Hex::new(h.q, h.r).to_offset::<hexal::OddQ>();
    Tile { col: o.col, row: o.row }
}

/// Calls `hexal`'s `Hex::distance`: `max(|dq|, |dr|, |ds|)`.
#[verifier::external_body]
fn axial_hex_distance(a: AxialHex, b: AxialHex) -> (d: i32)
    requires
        distance_fits(a, b),
    ensures
        d == axial_distance(a.q as int, a.r as int, b.q as int, b.r as int),
{
    hexal::Hex::new(a.q, a.r).distance(hexal::Hex::new(b.q, b.r))
}

/// Calls `hexal`'s `Hex::neighbors`: the hex plus each of the six unit
/// directions, in `hexal`'s order E, NE, NW, W, SW, SE.
#[verifier::external_body]
fn axial_hex_neighbors(h: AxialHex) -> (n: [AxialHex; 6])
    requires
        fits(h.q - 1) && fits(h.q + 1) && fits(h.r - 1) && fits(h.r + 1),
    ensures
        forall|i: int| 0 <= i < 6 ==> (#[trigger] n@[i]).q == h.q + dir_q(i) && n@[i].r == h.r + dir_r(i),
{
    hexal::Hex::new(h.q, h.r).neighbors().map(|n| AxialHex { q: n.q, r: n.r })
}

/// Calls `hexal`'s `Hex::ring` for a positive radius and collects the ring:
/// `6 * radius` hexes from the south-west corner, `radius` steps along each
/// direction in turn.
#[verifier::external_body]
fn axial_hex_ring(center: AxialHex, radius: i32) -> (v: Vec<AxialHex>)
    requires
        radius > 0,
        ring_fits(center, radius as int),
    ensures
        v@.len() == 6 * radius,
        forall|k: int| 0 <= k < 6 * radius ==> {
            let p = ring_hex(center.q as int, center.r as int, radius as int, k);
            (#[trigger] v@[k]).q == p.0 && v@[k].r == p.1
        },
{
    hexal::Hex::new(center.q, center.r).ring(radius).map(|h| AxialHex { q: h.q, r: h.r }).collect()
}

// ── Layout ──────────────────────────────────────────────────────────────────

/// Hex orientation.
#[derive(Debug, Clone, Copy, PartialEq, Eq, Structural)]
pub enum HexOrientation {
    /// Point up. Rows run horizontally, odd rows shifted right (`odd-r`).
    Pointy,
    /// Flat edge up. Columns run vertically, odd columns shifted down
    /// (`odd-q`).
    Flat,
}

/// A hex grid laid out in character cells, by the exact cell pitch between
/// neighbouring hex centers.
#[derive(Debug, Clone, Copy, PartialEq, Eq, Structural)]
pub struct HexLayout {
    /// Which way up the hexes sit.
    pub orientation: HexOrientation,
    /// Horizontal distance between adjacent hex centers in the same row
    /// (pointy) or between columns (flat), in cells.
    pub pitch_x: i32,
    /// Vertical distance between hex rows (pointy) or between adjacent hexes
    /// in a column (flat), in cells.
    pub pitch_y: i32,
}

/// Squared distance between two cells with the horizontal axis counted
/// once and the vertical axis twice, for the 1:2 character aspect.
pub open spec fn aspect_sq(ax: int, ay: int, bx: int, by: int) -> int {
    (ax - bx) * (ax - bx) + ((ay - by) * 2) * ((ay - by) * 2)
}

/// `m` is the first index in `0..n` at which `d` is least.
pub open spec fn first_min(d: spec_fn(int) -> int, n: int, m: int) -> bool {
    &&& 0 <= m < n
    &&& forall|k: int| 0 <= k < m ==> #[trigger] d(k) > d(m)
    &&& forall|k: int| 0 <= k < n ==> #[trigger] d(k) >= d(m)
}

/// The offset coordinate of a hex in a layout's own scheme.
pub open spec fn to_axial(o: HexOrientation, col: int, row: int) -> (int, int) {
    match o {
        HexOrientation::Pointy => odd_r_to_axial(col, row),
        HexOrientation::Flat => odd_q_to_axial(col, row),
    }
}

/// An axial coordinate in a layout's own offset scheme.
pub open spec fn from_axial(o: HexOrientation, q: int, r: int) -> (int, int) {
    match o {
        HexOrientation::Pointy => axial_to_odd_r(q, r),
        HexOrientation::Flat => axial_to_odd_q(q, r),
    }
}

impl HexLayout {
    /// Positive pitches, and an even pitch along the staggered axis.
    pub open spec fn wf(self) -> bool {
        &&& self.pitch_x > 0
        &&& self.pitch_y > 0
        &&& self.orientation == HexOrientation::Pointy ==> self.pitch_x % 2 == 0
        &&& self.orientation == HexOrientation::Flat ==> self.pitch_y % 2 == 0
    }

    /// Pointy-top hexes on an 8x2 cell pitch.
    pub fn pointy() -> (l: Self)
        ensures
            l == (HexLayout { orientation: HexOrientation::Pointy, pitch_x: 8, pitch_y: 2 }),
    {
        HexLayout { orientation: HexOrientation::Pointy, pitch_x: 8, pitch_y: 2 }
    }

    /// Flat-top hexes on a 6x4 cell pitch.
    pub fn flat() -> (l: Self)
        ensures
            l == (HexLayout { orientation: HexOrientation::Flat, pitch_x: 6, pitch_y: 4 }),
    {
        HexLayout { orientation: HexOrientation::Flat, pitch_x: 6, pitch_y: 4 }
    }

    /// Pointy-top hexes at double [`pointy`](Self::pointy)'s scale.
    pub fn pointy_large() -> (l: Self)
        ensures
            l == (HexLayout { orientation: HexOrientation::Pointy, pitch_x: 12, pitch_y: 4 }),
    {
        HexLayout { orientation: HexOrientation::Pointy, pitch_x: 12, pitch_y: 4 }
    }

    /// A layout with the given orientation and cell pitch: both pitches
    /// positive, and the staggered axis' pitch even.
    pub fn new(orientation: HexOrientation, pitch_x: i32, pitch_y: i32) -> (l: Self)
        requires
            pitch_x > 0 && pitch_y > 0,
            orientation == HexOrientation::Pointy ==> pitch_x % 2 == 0,
            orientation == HexOrientation::Flat ==> pitch_y % 2 == 0,
        ensures
            l == (HexLayout { orientation, pitch_x, pitch_y }),
            l.wf(),
    {
        HexLayout { orientation, pitch_x, pitch_y }
    }

    /// The stagger shift of `tile`: half a pitch right on odd rows (pointy)
    /// or down on odd columns (flat).
    pub open spec fn shift(self, col: int, row: int) -> (int, int) {
        match self.orientation {
            HexOrientation::Pointy => if row % 2 == 1 { (self.pitch_x / 2, 0) } else { (0, 0) },
            HexOrientation::Flat => if col % 2 == 1 { (0, self.pitch_y / 2) } else { (0, 0) },
        }
    }

    /// Top-left cell of a tile's bounding box.
    pub open spec fn origin(self, col: int, row: int) -> (int, int) {
        (col * self.pitch_x + self.shift(col, row).0, row * self.pitch_y + self.shift(col, row).1)
    }

    /// Center cell of a tile.
    pub open spec fn center(self, col: int, row: int) -> (int, int) {
        (self.origin(col, row).0 + self.pitch_x / 2, self.origin(col, row).1 + self.pitch_y / 2)
    }

    /// Whether locating a tile's center stays within `i32`.
    pub open spec fn center_fits(self, col: int, row: int) -> bool {
        &&& fits(col * self.pitch_x)
        &&& fits(row * self.pitch_y)
        &&& fits(self.origin(col, row).0)
        &&& fits(self.origin(col, row).1)
        &&& fits(self.center(col, row).0)
        &&& fits(self.center(col, row).1)
    }

    /// Stagger offset of `tile`.
    pub fn stagger(self, tile: Tile) -> (s: (i32, i32))
        requires
            self.wf(),
        ensures
            s.0 == self.shift(tile.col as int, tile.row as int).0,
            s.1 == self.shift(tile.col as int, tile.row as int).1,
    {
        match self.orientation {
            HexOrientation::Pointy => {
                if rem_euclid(tile.row, 2) == 1 {
                    (div_euclid(self.pitch_x, 2), 0)
                } else {
                    (0, 0)
                }
            },
            HexOrientation::Flat => {
                if rem_euclid(tile.col, 2) == 1 {
                    (0, div_euclid(self.pitch_y, 2))
                } else {
                    (0, 0)
                }
            },
        }
    }

    /// Top-left cell of `tile`'s bounding box.
    pub fn tile_to_cell(self, tile: Tile) -> (c: Cell)
        requires
            self.wf(),
            fits(tile.col * self.pitch_x),
            fits(tile.row * self.pitch_y),
            fits(self.origin(tile.col as int, tile.row as int).0),
            fits(self.origin(tile.col as int, tile.row as int).1),
        ensures
            c.x == self.origin(tile.col as int, tile.row as int).0,
            c.y == self.origin(tile.col as int, tile.row as int).1,
    {
        let (sx, sy) = self.stagger(tile);
        Cell::new(tile.col * self.pitch_x + sx, tile.row * self.pitch_y + sy)
    }

    /// Center cell of `tile`.
    pub fn center_cell(self, tile: Tile) -> (c: Cell)
        requires
            self.wf(),
            self.center_fits(tile.col as int, tile.row as int),
        ensures
            c.x == self.center(tile.col as int, tile.row as int).0,
            c.y == self.center(tile.col as int, tile.row as int).1,
    {
        let origin = self.tile_to_cell(tile);
        Cell::new(origin.x + div_euclid(self.pitch_x, 2), origin.y + div_euclid(self.pitch_y, 2))
    }

    /// Converts an offset coordinate to axial, using the offset scheme that
    /// matches this layout's orientation (`odd-r` or `odd-q`).
    pub fn to_hex(self, tile: Tile) -> (h: AxialHex)
        requires
            fits(to_axial(self.orientation, tile.col as int, tile.row as int).0),
            fits(to_axial(self.orientation, tile.col as int, tile.row as int).1),
        ensures
            h.q == to_axial(self.orientation, tile.col as int, tile.row as int).0,
            h.r == to_axial(self.orientation, tile.col as int, tile.row as int).1,
    {
        match self.orientation {
            HexOrientation::Pointy => odd_r_offset_to_axial(tile.col, tile.row),
            HexOrientation::Flat => odd_q_offset_to_axial(tile.col, tile.row),
        }
    }

    /// Converts an axial coordinate back to this layout's offset scheme.
    pub fn from_hex(self, hex: AxialHex) -> (t: Tile)
        requires
            fits(from_axial(self.orientation, hex.q as int, hex.r as int).0),
            fits(from_axial(self.orientation, hex.q as int, hex.r as int).1),
        ensures
            t.col == from_axial(self.orientation, hex.q as int, hex.r as int).0,
            t.row == from_axial(self.orientation, hex.q as int, hex.r as int).1,
    {
        match self.orientation {
            HexOrientation::Pointy => axial_to_odd_r_offset(hex),
            HexOrientation::Flat => axial_to_odd_q_offset(hex),
        }
    }
}

/// Offset to axial and back is the identity, in either orientation.
pub proof fn lemma_offset_round_trip(o: HexOrientation, col: int, row: int)
    ensures
        ({
            let h = to_axial(o, col, row);
            from_axial(o, h.0, h.1) == (col, row)
        }),
{
}

/// Axial to offset and back is the identity, in either orientation.
pub proof fn lemma_axial_round_trip(o: HexOrientation, q: int, r: int)
    ensures
        ({
            let t = from_axial(o, q, r);
            to_axial(o, t.0, t.1) == (q, r)
        }),
{
}

/// Squared aspect-corrected distance between two cells, in `i64`.
fn aspect_distance_sq(a: Cell, b: Cell) -> (d: i64)
    requires
        fits(a.x - b.x),
        fits(a.y - b.y),
        fits((a.y - b.y) * 2),
        aspect_sq(a.x as int, a.y as int, b.x as int, b.y as int) <= i64::MAX,
    ensures
        d == aspect_sq(a.x as int, a.y as int, b.x as int, b.y as int),
{
    let dx = (a.x - b.x) as i64;
    let dy = ((a.y - b.y) * 2) as i64;
    proof {
        assert(0 <= dx * dx <= 0x4000_0000_0000_0000) by (nonlinear_arith)
            requires fits(dx as int);
        assert(0 <= dy * dy <= 0x4000_0000_0000_0000) by (nonlinear_arith)
            requires fits(dy as int);
    }
    dx * dx + dy * dy
}

impl HexLayout {
    /// The row band (pointy) or column band (flat) that `cell` falls in.
    pub open spec fn band(self, cell: Cell) -> int {
        match self.orientation {
            HexOrientation::Pointy => (cell.y as int) / (self.pitch_y as int),
            HexOrientation::Flat => (cell.x as int) / (self.pitch_x as int),
        }
    }

    /// Where the `k`th candidate's column (pointy) or row (flat) search
    /// starts: the nearest lattice line after backing out the stagger.
    pub open spec fn nearest_line(self, cell: Cell, k: int) -> int {
        let line = self.band(cell) - 1 + k / 3;
        match self.orientation {
            HexOrientation::Pointy => {
                let shift = if line % 2 == 1 { self.pitch_x / 2 } else { 0 };
                (cell.x - shift + self.pitch_x / 2) / (self.pitch_x as int)
            },
            HexOrientation::Flat => {
                let shift = if line % 2 == 1 { self.pitch_y / 2 } else { 0 };
                (cell.y - shift + self.pitch_y / 2) / (self.pitch_y as int)
            },
        }
    }

    /// The `k`th of the nine tiles that could own `cell`: the three rows
    /// (pointy) or columns (flat) around its band, and in each the three
    /// tiles around the nearest lattice point, in that order.
    pub open spec fn candidate(self, cell: Cell, k: int) -> (int, int) {
        let line = self.band(cell) - 1 + k / 3;
        let across = self.nearest_line(cell, k) - 1 + k % 3;
        match self.orientation {
            HexOrientation::Pointy => (across, line),
            HexOrientation::Flat => (line, across),
        }
    }

    /// Aspect-corrected squared distance from `cell` to the `k`th
    /// candidate's center.
    pub open spec fn candidate_distance(self, cell: Cell, k: int) -> int {
        let c = self.candidate(cell, k);
        let m = self.center(c.0, c.1);
        aspect_sq(cell.x as int, cell.y as int, m.0, m.1)
    }

    /// Whether weighing the `k`th candidate stays within `i32` and `i64`.
    pub open spec fn candidate_fits(self, cell: Cell, k: int) -> bool {
        let line = self.band(cell) - 1 + k / 3;
        let c = self.candidate(cell, k);
        let m = self.center(c.0, c.1);
        let (v, p) = match self.orientation {
            HexOrientation::Pointy => (cell.x as int, self.pitch_x as int),
            HexOrientation::Flat => (cell.y as int, self.pitch_y as int),
        };
        let shift = if line % 2 == 1 { p / 2 } else { 0 };
        &&& fits(v - shift)
        &&& fits(v - shift + p / 2)
        &&& fits(self.nearest_line(cell, k) - 1)
        &&& fits(self.nearest_line(cell, k) + 1)
        &&& self.center_fits(c.0, c.1)
        &&& fits(cell.x - m.0)
        &&& fits(cell.y - m.1)
        &&& fits((cell.y - m.1) * 2)
        &&& self.candidate_distance(cell, k) < i64::MAX
    }

    /// Whether picking the tile under `cell` stays within `i32` and `i64`.
    pub open spec fn picks(self, cell: Cell) -> bool {
        &&& fits(self.band(cell) - 1)
        &&& fits(self.band(cell) + 1)
        &&& forall|k: int| 0 <= k < 9 ==> #[trigger] self.candidate_fits(cell, k)
    }

    fn candidate_at(self, cell: Cell, band: i32, k: usize) -> (t: Tile)
        requires
            self.wf(),
            k < 9,
            band == self.band(cell),
            self.picks(cell),
        ensures
            (t.col as int, t.row as int) == self.candidate(cell, k as int),
    {
        proof {
            assert(self.candidate_fits(cell, k as int));
        }
        let a = (k / 3) as i32;
        let b = (k % 3) as i32;
        let line = band - 1 + a;
        match self.orientation {
            HexOrientation::Pointy => {
                let shift = if rem_euclid(line, 2) == 1 { div_euclid(self.pitch_x, 2) } else { 0 };
                let near = div_euclid(cell.x - shift + div_euclid(self.pitch_x, 2), self.pitch_x);
                Tile::new(near - 1 + b, line)
            },
            HexOrientation::Flat => {
                let shift = if rem_euclid(line, 2) == 1 { div_euclid(self.pitch_y, 2) } else { 0 };
                let near = div_euclid(cell.y - shift + div_euclid(self.pitch_y, 2), self.pitch_y);
                Tile::new(line, near - 1 + b)
            },
        }
    }

    /// The hex containing `cell`: of the nine tiles that could own it, the
    /// one whose center is nearest by aspect-corrected distance, the first
    /// in candidate order on a tie.
    pub fn cell_to_tile(self, cell: Cell) -> (t: Tile)
        requires
            self.wf(),
            self.picks(cell),
        ensures
            exists|m: int|
                first_min(|k: int| self.candidate_distance(cell, k), 9, m)
                    && (t.col as int, t.row as int) == #[trigger] self.candidate(cell, m),
    {
        let band = match self.orientation {
            HexOrientation::Pointy => div_euclid(cell.y, self.pitch_y),
            HexOrientation::Flat => div_euclid(cell.x, self.pitch_x),
        };
        let ghost d = |k: int| self.candidate_distance(cell, k);
        let mut best = self.candidate_at(cell, band, 0);
        proof {
            assert(self.candidate_fits(cell, 0));
        }
        let mut best_d = aspect_distance_sq(cell, self.center_cell(best));
        assert(best_d == d(0));
        let ghost mut m: int = 0;
        let mut k: usize = 1;
        while k < 9
            invariant
                self.wf(),
                self.picks(cell),
                band == self.band(cell),
                1 <= k <= 9,
                0 <= m < k,
                (best.col as int, best.row as int) == self.candidate(cell, m),
                best_d == self.candidate_distance(cell, m),
                forall|j: int| 0 <= j < m ==> #[trigger] self.candidate_distance(cell, j)
                    > self.candidate_distance(cell, m),
                forall|j: int| 0 <= j < k ==> #[trigger] self.candidate_distance(cell, j)
                    >= self.candidate_distance(cell, m),
            decreases 9 - k,
        {
            let cand = self.candidate_at(cell, band, k);
            proof {
                assert(self.candidate_fits(cell, k as int));
            }
            let dk = aspect_distance_sq(cell, self.center_cell(cand));
            if dk < best_d {
                best = cand;
                best_d = dk;
                proof {
                    m = k as int;
                }
            }
            k += 1;
        }
        proof {
            assert(first_min(d, 9, m));
        }
        best
    }

    /// Stepping `e` (nonzero) whole pitches `p` away moves the squared
/// distance from an offset `y` (under half a pitch) by at least
/// `p * (p - 2|y|)`.
proof fn lemma_off_line(e: int, p: int, y: int)
    requires
        e != 0,
        p > 0,
        2 * abs(y) < p,
    ensures
        (e * p) * (e * p) - 2 * y * (e * p) >= p * (p - 2 * abs(y)),
{
    let ay = abs(y);
    if e > 0 {
        assert((e * p) * (e * p) - 2 * y * (e * p) >= p * (p - 2 * ay)) by (nonlinear_arith)
            requires e >= 1, p > 0, ay >= y, 2 * ay < p, ay >= 0;
    } else {
        assert((e * p) * (e * p) - 2 * y * (e * p) >= p * (p - 2 * ay)) by (nonlinear_arith)
            requires e <= -1, p > 0, ay >= -y, 2 * ay < p, ay >= 0;
    }
}

/// Distinct tiles have distinct centers.
    proof fn lemma_center_injective(self, a: int, b: int, col: int, row: int)
        requires
            self.wf(),
            self.center(a, b) == self.center(col, row),
        ensures
            a == col && b == row,
    {
        let px = self.pitch_x as int;
        let py = self.pitch_y as int;
        match self.orientation {
            HexOrientation::Pointy => {
                assert(b * py == row * py);
                assert(b == row) by (nonlinear_arith)
                    requires b * py == row * py, py > 0;
                assert(a * px == col * px);
                assert(a == col) by (nonlinear_arith)
                    requires a * px == col * px, px > 0;
            },
            HexOrientation::Flat => {
                assert(a * px == col * px);
                assert(a == col) by (nonlinear_arith)
                    requires a * px == col * px, px > 0;
                assert(b * py == row * py);
                assert(b == row) by (nonlinear_arith)
                    requires b * py == row * py, py > 0;
            },
        }
    }

    /// Whether the offset `(dx, dy)` from a tile's center is close enough
    /// that no other tile's center is as near (by aspect-corrected
    /// distance): along the staggered rows (pointy) or columns (flat) less
    /// than half a pitch, and across them with room to spare.
    pub open spec fn near_center(self, dx: int, dy: int) -> bool {
        match self.orientation {
            HexOrientation::Pointy => 2 * abs(dx) < self.pitch_x && dx * dx < 4 * self.pitch_y * (self.pitch_y
                - 2 * abs(dy)),
            HexOrientation::Flat => 2 * abs(dy) < self.pitch_y && 4 * dy * dy < self.pitch_x * (self.pitch_x - 2
                * abs(dx)),
        }
    }

    /// Every cell [`near_center`](Self::near_center) a tile's center picks
    /// that tile: whichever candidate the nearest-center choice of
    /// [`cell_to_tile`](Self::cell_to_tile) settles on is the tile itself.
    /// For [`pointy_large`](Self::pointy_large) this covers every cell up to
    /// two columns and one row from the center.
    pub proof fn lemma_pick_near_center(self, col: int, row: int, dx: int, dy: int)
        requires
            self.wf(),
            self.center_fits(col, row),
            fits(self.center(col, row).0 + dx),
            fits(self.center(col, row).1 + dy),
            self.near_center(dx, dy),
        ensures
            ({
                let c = (Cell {
                    x: (self.center(col, row).0 + dx) as i32,
                    y: (self.center(col, row).1 + dy) as i32,
                });
                forall|m: int|
                    first_min(|k: int| self.candidate_distance(c, k), 9, m)
                        ==> #[trigger] self.candidate(c, m) == (col, row)
            }),
    {
        let c = Cell { x: (self.center(col, row).0 + dx) as i32, y: (self.center(col, row).1 + dy) as i32 };
        let d = |k: int| self.candidate_distance(c, k);
        let px = self.pitch_x as int;
        let py = self.pitch_y as int;
        let ctr = self.center(col, row);
        assert(c.x == ctr.0 + dx && c.y == ctr.1 + dy);
        let ghost mut k0: int = 0;
        match self.orientation {
            HexOrientation::Pointy => {
                assert(2 * abs(dy) < py) by (nonlinear_arith)
                    requires dx * dx < 4 * py * (py - 2 * abs(dy)), py > 0;
                assert(0 <= py / 2 + dy < py);
                vstd::arithmetic::div_mod::lemma_fundamental_div_mod_converse(c.y as int, py, row, py / 2 + dy);
                assert(self.band(c) == row);
                let s = self.shift(col, row).0;
                assert(px / 2 * 2 == px);
                assert(c.x - s + px / 2 == (col + 1) * px + dx) by (nonlinear_arith)
                    requires c.x == col * px + s + px / 2 + dx, px / 2 * 2 == px;
                if dx >= 0 {
                    vstd::arithmetic::div_mod::lemma_fundamental_div_mod_converse((col + 1) * px + dx, px, col + 1, dx);
                    k0 = 3;
                } else {
                    assert((col + 1) * px + dx == col * px + (px + dx)) by (nonlinear_arith);
                    vstd::arithmetic::div_mod::lemma_fundamental_div_mod_converse(col * px + (px + dx), px, col, px + dx);
                    k0 = 4;
                }
            },
            HexOrientation::Flat => {
                assert(0 <= 4 * dy * dy) by (nonlinear_arith);
                assert(2 * abs(dx) < px) by (nonlinear_arith)
                    requires 4 * dy * dy < px * (px - 2 * abs(dx)), px > 0, 0 <= 4 * dy * dy;
                assert(0 <= px / 2 + dx < px);
                vstd::arithmetic::div_mod::lemma_fundamental_div_mod_converse(c.x as int, px, col, px / 2 + dx);
                assert(self.band(c) == col);
                let s = self.shift(col, row).1;
                assert(py / 2 * 2 == py);
                assert(c.y - s + py / 2 == (row + 1) * py + dy) by (nonlinear_arith)
                    requires c.y == row * py + s + py / 2 + dy, py / 2 * 2 == py;
                if dy >= 0 {
                    vstd::arithmetic::div_mod::lemma_fundamental_div_mod_converse((row + 1) * py + dy, py, row + 1, dy);
                    k0 = 3;
                } else {
                    assert((row + 1) * py + dy == row * py + (py + dy)) by (nonlinear_arith);
                    vstd::arithmetic::div_mod::lemma_fundamental_div_mod_converse(row * py + (py + dy), py, row, py + dy);
                    k0 = 4;
                }
            },
        }
        assert(self.candidate(c, k0) == (col, row));
        assert(d(k0) == dx * dx + (dy * 2) * (dy * 2));
        assert forall|m: int| first_min(d, 9, m) implies #[trigger] self.candidate(c, m) == (col, row) by {
            assert(d(k0) >= d(m));
            let t = self.candidate(c, m);
            if t != (col, row) {
                let mc = self.center(t.0, t.1);
                let ddx = mc.0 - ctr.0;
                let ddy = mc.1 - ctr.1;
                assert(d(m) == (dx - ddx) * (dx - ddx) + ((dy - ddy) * 2) * ((dy - ddy) * 2)) by (nonlinear_arith)
                    requires d(m) == (c.x - mc.0) * (c.x - mc.0) + ((c.y - mc.1) * 2) * ((c.y - mc.1) * 2),
                        c.x == ctr.0 + dx, c.y == ctr.1 + dy, ddx == mc.0 - ctr.0, ddy == mc.1 - ctr.1;
                assert((dx - ddx) * (dx - ddx) - dx * dx == ddx * ddx - 2 * dx * ddx) by (nonlinear_arith);
                assert(((dy - ddy) * 2) * ((dy - ddy) * 2) - (dy * 2) * (dy * 2) == 4 * (ddy * ddy - 2 * dy * ddy))
                    by (nonlinear_arith);
                assert((dx - ddx) * (dx - ddx) >= 0 && ((dy - ddy) * 2) * ((dy - ddy) * 2) >= 0) by (nonlinear_arith);
                assert(4 * py * (py - 2 * abs(dy)) == 4 * (py * (py - 2 * abs(dy)))) by (nonlinear_arith);
                assert(4 * dy * dy == (dy * 2) * (dy * 2)) by (nonlinear_arith);
                match self.orientation {
                    HexOrientation::Pointy => {
                        assert(ddy == (t.1 - row) * py) by (nonlinear_arith)
                            requires ddy == (t.1 * py + self.shift(t.0, t.1).1 + py / 2) - (row * py + self.shift(col,
                                row).1 + py / 2), self.shift(t.0, t.1).1 == 0, self.shift(col, row).1 == 0;
                        if t.1 == row {
                            assert(ddx == (t.0 - col) * px) by (nonlinear_arith)
                                requires ddx == (t.0 * px + self.shift(t.0, t.1).0 + px / 2) - (col * px + self.shift(col,
                                    row).0 + px / 2), self.shift(t.0, t.1).0 == self.shift(col, row).0;
                            Self::lemma_off_line(t.0 - col, px, dx);
                            assert(ddy == 0) by (nonlinear_arith) requires ddy == (t.1 - row) * py, t.1 == row;
                            assert(px * (px - 2 * abs(dx)) > 0) by (nonlinear_arith) requires px > 2 * abs(dx);
                        } else {
                            Self::lemma_off_line(t.1 - row, py, dy);
                        }
                    },
                    HexOrientation::Flat => {
                        assert(ddx == (t.0 - col) * px) by (nonlinear_arith)
                            requires ddx == (t.0 * px + self.shift(t.0, t.1).0 + px / 2) - (col * px + self.shift(col,
                                row).0 + px / 2), self.shift(t.0, t.1).0 == 0, self.shift(col, row).0 == 0;
                        if t.0 == col {
                            assert(ddy == (t.1 - row) * py) by (nonlinear_arith)
                                requires ddy == (t.1 * py + self.shift(t.0, t.1).1 + py / 2) - (row * py + self.shift(col,
                                    row).1 + py / 2), self.shift(t.0, t.1).1 == self.shift(col, row).1;
                            Self::lemma_off_line(t.1 - row, py, dy);
                            assert(ddx == 0) by (nonlinear_arith) requires ddx == (t.0 - col) * px, t.0 == col;
                            assert(py * (py - 2 * abs(dy)) > 0) by (nonlinear_arith) requires py > 2 * abs(dy);
                        } else {
                            Self::lemma_off_line(t.0 - col, px, dx);
                        }
                    },
                }
                assert(false);
            }
        }
    }

    /// Picking at a tile's own center cell gives that tile back: in any
    /// well-formed layout, every candidate that the nearest-center choice of
    /// [`cell_to_tile`](Self::cell_to_tile) can settle on is the tile itself.
    pub proof fn lemma_pick_own_center(self, col: int, row: int)
        requires
            self.wf(),
            self.center_fits(col, row),
        ensures
            ({
                let c = (Cell { x: self.center(col, row).0 as i32, y: self.center(col, row).1 as i32 });
                forall|m: int|
                    first_min(|k: int| self.candidate_distance(c, k), 9, m)
                        ==> #[trigger] self.candidate(c, m) == (col, row)
            }),
    {
        let c = Cell { x: self.center(col, row).0 as i32, y: self.center(col, row).1 as i32 };
        let d = |k: int| self.candidate_distance(c, k);
        let px = self.pitch_x as int;
        let py = self.pitch_y as int;
        assert(c.x == self.center(col, row).0 && c.y == self.center(col, row).1);
        // The fourth candidate (first of the middle line) is the tile itself.
        match self.orientation {
            HexOrientation::Pointy => {
                let s = self.shift(col, row).0;
                vstd::arithmetic::div_mod::lemma_fundamental_div_mod_converse(
                    c.y as int, py, row, py / 2);
                assert(self.band(c) == row);
                assert(px / 2 * 2 == px);
                assert(c.x - s + px / 2 == (col + 1) * px) by (nonlinear_arith)
                    requires c.x == col * px + s + px / 2, px / 2 * 2 == px;
                vstd::arithmetic::div_mod::lemma_fundamental_div_mod_converse(
                    (col + 1) * px, px, col + 1, 0);
                assert(self.nearest_line(c, 3) == col + 1);
            },
            HexOrientation::Flat => {
                let s = self.shift(col, row).1;
                vstd::arithmetic::div_mod::lemma_fundamental_div_mod_converse(
                    c.x as int, px, col, px / 2);
                assert(self.band(c) == col);
                assert(py / 2 * 2 == py);
                assert(c.y - s + py / 2 == (row + 1) * py) by (nonlinear_arith)
                    requires c.y == row * py + s + py / 2, py / 2 * 2 == py;
                vstd::arithmetic::div_mod::lemma_fundamental_div_mod_converse(
                    (row + 1) * py, py, row + 1, 0);
                assert(self.nearest_line(c, 3) == row + 1);
            },
        }
        assert(self.candidate(c, 3) == (col, row));
        assert(d(3) == 0);
        assert forall|m: int| first_min(d, 9, m) implies #[trigger] self.candidate(c, m) == (col, row) by {
            assert(d(3) >= d(m));
            let t = self.candidate(c, m);
            let ctr = self.center(t.0, t.1);
            let dx = c.x - ctr.0;
            let dy = (c.y - ctr.1) * 2;
            assert(d(m) == dx * dx + dy * dy);
            assert(dx == 0 && dy == 0) by (nonlinear_arith)
                requires dx * dx + dy * dy <= 0;
            self.lemma_center_injective(t.0, t.1, col, row);
        }
    }
}

/// The tile of an integer pair.
pub open spec fn tile_of(p: (int, int)) -> Tile {
    Tile { col: p.0 as i32, row: p.1 as i32 }
}

impl HexLayout {
    /// Hex distance between two offset tiles, in steps.
    pub open spec fn hex_distance(self, a: Tile, b: Tile) -> int {
        let ha = to_axial(self.orientation, a.col as int, a.row as int);
        let hb = to_axial(self.orientation, b.col as int, b.row as int);
        axial_distance(ha.0, ha.1, hb.0, hb.1)
    }

    /// Whether `tile`'s axial coordinate fits in `i32`.
    pub open spec fn converts(self, tile: Tile) -> bool {
        fits(to_axial(self.orientation, tile.col as int, tile.row as int).0)
            && fits(to_axial(self.orientation, tile.col as int, tile.row as int).1)
    }

    /// Whether the axial `(q, r)` has an offset coordinate that fits in `i32`.
    pub open spec fn converts_back(self, q: int, r: int) -> bool {
        fits(from_axial(self.orientation, q, r).0) && fits(from_axial(self.orientation, q, r).1)
    }

    /// Hex distance between two offset tiles, in steps.
    pub fn distance(self, a: Tile, b: Tile) -> (d: i32)
        requires
            self.converts(a),
            self.converts(b),
            ({
                let ha = to_axial(self.orientation, a.col as int, a.row as int);
                let hb = to_axial(self.orientation, b.col as int, b.row as int);
                axial_distance_fits(ha.0, ha.1, hb.0, hb.1)
            }),
        ensures
            d == self.hex_distance(a, b),
    {
        axial_hex_distance(self.to_hex(a), self.to_hex(b))
    }

    /// The six neighbours of `tile`, in `hexal`'s direction order E, NE, NW,
    /// W, SW, SE.
    pub fn neighbors(self, tile: Tile) -> (n: [Tile; 6])
        requires
            self.converts(tile),
            ({
                let h = to_axial(self.orientation, tile.col as int, tile.row as int);
                &&& fits(h.0 - 1) && fits(h.0 + 1) && fits(h.1 - 1) && fits(h.1 + 1)
                &&& forall|i: int| 0 <= i < 6 ==> #[trigger] self.converts_back(h.0 + dir_q(i), h.1 + dir_r(i))
            }),
        ensures
            forall|i: int| 0 <= i < 6 ==> {
                let h = to_axial(self.orientation, tile.col as int, tile.row as int);
                #[trigger] n@[i] == tile_of(from_axial(self.orientation, h.0 + dir_q(i), h.1 + dir_r(i)))
            },
    {
        let ghost h = to_axial(self.orientation, tile.col as int, tile.row as int);
        let ns = axial_hex_neighbors(self.to_hex(tile));
        proof {
            assert(self.converts_back(h.0 + dir_q(0), h.1 + dir_r(0)));
            assert(self.converts_back(h.0 + dir_q(1), h.1 + dir_r(1)));
            assert(self.converts_back(h.0 + dir_q(2), h.1 + dir_r(2)));
            assert(self.converts_back(h.0 + dir_q(3), h.1 + dir_r(3)));
            assert(self.converts_back(h.0 + dir_q(4), h.1 + dir_r(4)));
            assert(self.converts_back(h.0 + dir_q(5), h.1 + dir_r(5)));
            assert(ns@[0] == ns[0]);
        }
        let n = [
            self.from_hex(ns[0]),
            self.from_hex(ns[1]),
            self.from_hex(ns[2]),
            self.from_hex(ns[3]),
            self.from_hex(ns[4]),
            self.from_hex(ns[5]),
        ];
        proof {
            assert forall|i: int| 0 <= i < 6 implies #[trigger] n@[i] == tile_of(
                from_axial(self.orientation, h.0 + dir_q(i), h.1 + dir_r(i))) by {
                assert(ns@[i].q == h.0 + dir_q(i));
            }
        }
        n
    }
}

/// Converts an offset tile to axial using the `even-q` scheme (flat-top,
/// odd columns shifted up), the convention some map editors default to.
pub fn even_q_to_hex(tile: Tile) -> (h: AxialHex)
    requires
        fits(tile.col + tile.col % 2),
        fits(even_q_to_axial(tile.col as int, tile.row as int).1),
    ensures
        h.q == tile.col,
        h.r == even_q_to_axial(tile.col as int, tile.row as int).1,
{
    even_q_offset_to_axial(tile.col, tile.row)
}

/// The tiles of the ring at `radius` around `center`, in `hexal`'s order;
/// the center itself for radius 0, nothing for a negative radius.
pub open spec fn ring_tiles(layout: HexLayout, center: Tile, radius: int) -> Seq<Tile> {
    let h = to_axial(layout.orientation, center.col as int, center.row as int);
    if radius < 0 {
        Seq::empty()
    } else if radius == 0 {
        seq![center]
    } else {
        Seq::new((6 * radius) as nat, |k: int| {
            let p = ring_hex(h.0, h.1, radius, k);
            tile_of(from_axial(layout.orientation, p.0, p.1))
        })
    }
}

/// Whether listing the ring at `radius` around `center` stays within `i32`.
pub open spec fn ring_converts(layout: HexLayout, center: Tile, radius: int) -> bool {
    let h = to_axial(layout.orientation, center.col as int, center.row as int);
    radius > 0 ==> {
        &&& layout.converts(center)
        &&& ring_fits(AxialHex { q: h.0 as i32, r: h.1 as i32 }, radius)
        &&& forall|k: int| 0 <= k < 6 * radius ==> {
            let p = #[trigger] ring_hex(h.0, h.1, radius, k);
            layout.converts_back(p.0, p.1)
        }
    }
}

/// The hex ring at `radius` around `center`, as offset tiles: the center
/// alone for radius 0, and empty for a negative radius.
pub fn hex_ring(layout: HexLayout, center: Tile, radius: i32) -> (v: Vec<Tile>)
    requires
        ring_converts(layout, center, radius as int),
    ensures
        v@ == ring_tiles(layout, center, radius as int),
{
    if radius < 0 {
        return Vec::new();
    }
    if radius == 0 {
        let mut v = Vec::new();
        v.push(center);
        return v;
    }
    let ghost h = to_axial(layout.orientation, center.col as int, center.row as int);
    let hex = layout.to_hex(center);
    let ring = axial_hex_ring(hex, radius);
    let mut v: Vec<Tile> = Vec::new();
    let mut k: usize = 0;
    while k < ring.len()
        invariant
            ring@.len() == 6 * radius,
            radius > 0,
            h == to_axial(layout.orientation, center.col as int, center.row as int),
            hex.q == h.0 && hex.r == h.1,
            ring_converts(layout, center, radius as int),
            forall|j: int| 0 <= j < 6 * radius ==> {
                let p = ring_hex(h.0, h.1, radius as int, j);
                (#[trigger] ring@[j]).q == p.0 && ring@[j].r == p.1
            },
            k <= ring@.len(),
            v@.len() == k,
            forall|j: int| 0 <= j < k ==> #[trigger] v@[j] == ring_tiles(layout, center, radius as int)[j],
        decreases ring@.len() - k,
    {
        let ghost p = ring_hex(h.0, h.1, radius as int, k as int);
        proof {
            assert(ring@[k as int].q == p.0);
            assert(0 <= k < 6 * radius);
            assert(layout.converts_back(p.0, p.1));
        }
        let t = layout.from_hex(ring[k]);
        v.push(t);
        proof {
            assert(v@[k as int] == ring_tiles(layout, center, radius as int)[k as int]);
        }
        k += 1;
    }
    proof {
        assert(v@ =~= ring_tiles(layout, center, radius as int));
    }
    v
}

/// Every hex within `radius` of `center`: the center, then each ring
/// outward in turn.
pub open spec fn spiral_tiles(layout: HexLayout, center: Tile, radius: int) -> Seq<Tile>
    decreases radius,
{
    if radius <= 0 {
        seq![center]
    } else {
        spiral_tiles(layout, center, radius - 1) + ring_tiles(layout, center, radius)
    }
}

/// Every hex within `radius` of `center`, center first, then outward by
/// ring.
pub fn hex_spiral(layout: HexLayout, center: Tile, radius: i32) -> (v: Vec<Tile>)
    requires
        forall|r: int| 1 <= r <= radius ==> #[trigger] ring_converts(layout, center, r),
    ensures
        v@ == spiral_tiles(layout, center, radius as int),
{
    let mut v: Vec<Tile> = Vec::new();
    v.push(center);
    let mut r: i32 = 0;
    let top = if radius > 0 { radius } else { 0 };
    assert(v@ =~= spiral_tiles(layout, center, 0));
    while r < top
        invariant
            0 <= r <= top,
            top == (if radius > 0 { radius } else { 0 }),
            forall|r2: int| 1 <= r2 <= radius ==> #[trigger] ring_converts(layout, center, r2),
            v@ == spiral_tiles(layout, center, r as int),
        decreases top - r,
    {
        r += 1;
        proof {
            assert(ring_converts(layout, center, r as int));
        }
        let mut ring = hex_ring(layout, center, r);
        v.append(&mut ring);
    }
    proof {
        if radius <= 0 {
            assert(spiral_tiles(layout, center, radius as int) == spiral_tiles(layout, center, 0));
        }
    }
    v
}

// ── Laws ────────────────────────────────────────────────────────────────────

/// Hex distance is a metric: zero exactly on equal hexes, symmetric, and
/// obeying the triangle inequality.
pub proof fn lemma_distance_is_metric(aq: int, ar: int, bq: int, br: int, cq: int, cr: int)
    ensures
        axial_distance(aq, ar, aq, ar) == 0,
        axial_distance(aq, ar, bq, br) >= 0,
        axial_distance(aq, ar, bq, br) == 0 <==> (aq == bq && ar == br),
        axial_distance(aq, ar, bq, br) == axial_distance(bq, br, aq, ar),
        axial_distance(aq, ar, cq, cr) <= axial_distance(aq, ar, bq, br) + axial_distance(bq, br, cq, cr),
{
}

/// Each of a hex's six neighbours is one step away, and they are six
/// different hexes.
pub proof fn lemma_neighbors_are_adjacent(q: int, r: int, i: int, j: int)
    requires
        0 <= i < 6,
        0 <= j < 6,
    ensures
        axial_distance(q, r, q + dir_q(i), r + dir_r(i)) == 1,
        i != j ==> (q + dir_q(i), r + dir_r(i)) != (q + dir_q(j), r + dir_r(j)),
{
}

/// The neighbours a layout lists for a tile are one step away from it in
/// that layout, distinct, and never the tile itself.
pub proof fn lemma_layout_neighbors(layout: HexLayout, tile: Tile, i: int, j: int)
    requires
        0 <= i < 6,
        0 <= j < 6,
        ({
            let h = to_axial(layout.orientation, tile.col as int, tile.row as int);
            &&& layout.converts_back(h.0 + dir_q(i), h.1 + dir_r(i))
            &&& layout.converts_back(h.0 + dir_q(j), h.1 + dir_r(j))
        }),
    ensures
        ({
            let h = to_axial(layout.orientation, tile.col as int, tile.row as int);
            let ni = tile_of(from_axial(layout.orientation, h.0 + dir_q(i), h.1 + dir_r(i)));
            let nj = tile_of(from_axial(layout.orientation, h.0 + dir_q(j), h.1 + dir_r(j)));
            &&& layout.hex_distance(tile, ni) == 1
            &&& ni != tile
            &&& i != j ==> ni != nj
        }),
{
    let h = to_axial(layout.orientation, tile.col as int, tile.row as int);
    let pi = (h.0 + dir_q(i), h.1 + dir_r(i));
    let pj = (h.0 + dir_q(j), h.1 + dir_r(j));
    lemma_axial_round_trip(layout.orientation, pi.0, pi.1);
    lemma_axial_round_trip(layout.orientation, pj.0, pj.1);
    lemma_offset_round_trip(layout.orientation, tile.col as int, tile.row as int);
    lemma_neighbors_are_adjacent(h.0, h.1, i, j);
}

/// The position along the radius-`r` ring of a hex on it: the inverse of
/// [`ring_hex`].
pub open spec fn ring_index(r: int, x: int, y: int) -> int {
    if y == r && -r <= x < 0 {
        x + r
    } else if x + y == r && 0 <= x < r {
        r + x
    } else if x == r && -r < y <= 0 {
        2 * r - y
    } else if y == -r && 0 < x <= r {
        3 * r + (r - x)
    } else if x + y == -r && -r < x <= 0 {
        4 * r - x
    } else {
        5 * r + y
    }
}

proof fn lemma_ring_split(r: int, k: int)
    requires
        r > 0,
        0 <= k < 6 * r,
    ensures
        0 <= k / r < 6,
        0 <= k % r < r,
        k == (k / r) * r + k % r,
{
    vstd::arithmetic::div_mod::lemma_fundamental_div_mod(k, r);
    vstd::arithmetic::div_mod::lemma_mod_bound(k, r);
    vstd::arithmetic::div_mod::lemma_div_pos_is_pos(k, r);
    assert(k / r < 6) by {
        vstd::arithmetic::div_mod::lemma_div_by_multiple_is_strongly_ordered(k, 6 * r, 6, r);
        vstd::arithmetic::div_mod::lemma_div_multiples_vanish(6, r);
        assert(6 * r == r * 6) by (nonlinear_arith);
    }
    assert(r * (k / r) == (k / r) * r) by (nonlinear_arith);
}

/// Every hex of a ring lies exactly `r` steps from its center, and the ring
/// visits it once: [`ring_index`] recovers its position.
pub proof fn lemma_ring_hex(cq: int, cr: int, r: int, k: int)
    requires
        r > 0,
        0 <= k < 6 * r,
    ensures
        ({
            let p = ring_hex(cq, cr, r, k);
            &&& axial_distance(cq, cr, p.0, p.1) == r
            &&& ring_index(r, p.0 - cq, p.1 - cr) == k
        }),
{
    lemma_ring_split(r, k);
    let i = k / r;
    let j = k % r;
    assert(k == i * r + j);
    let p = ring_hex(cq, cr, r, k);
    assert(p == (cq + ring_corner(i, r).0 + dir_q(i) * j, cr + ring_corner(i, r).1 + dir_r(i) * j));
    assert(dir_q(i) * j == (if dir_q(i) == 1 { j } else if dir_q(i) == -1 { -j } else { 0 })) by (nonlinear_arith)
        requires dir_q(i) == 1 || dir_q(i) == -1 || dir_q(i) == 0;
    assert(dir_r(i) * j == (if dir_r(i) == 1 { j } else if dir_r(i) == -1 { -j } else { 0 })) by (nonlinear_arith)
        requires dir_r(i) == 1 || dir_r(i) == -1 || dir_r(i) == 0;
    assert(i * r == (if i == 0 { 0 } else if i == 1 { r } else if i == 2 { 2 * r } else if i == 3 { 3 * r } else if i == 4 {
        4 * r
    } else {
        5 * r
    })) by (nonlinear_arith)
        requires 0 <= i < 6;
    if i == 0 {
        assert(p == (cq - r + j, cr + r));
    } else if i == 1 {
        assert(p == (cq + j, cr + r - j));
    } else if i == 2 {
        assert(p == (cq + r, cr - j));
    } else if i == 3 {
        assert(p == (cq + r - j, cr - r));
    } else if i == 4 {
        assert(p == (cq - j, cr - r + j));
    } else {
        assert(p == (cq - r, cr + j));
    }
}

/// Every hex exactly `r` steps from a center lies on its radius-`r` ring,
/// at the position [`ring_index`] gives.
#[verifier::spinoff_prover]
pub proof fn lemma_ring_covers(cq: int, cr: int, r: int, q: int, s: int)
    requires
        r > 0,
        axial_distance(cq, cr, q, s) == r,
    ensures
        0 <= ring_index(r, q - cq, s - cr) < 6 * r,
        ring_hex(cq, cr, r, ring_index(r, q - cq, s - cr)) == (q, s),
{
    let x = q - cq;
    let y = s - cr;
    let k = ring_index(r, x, y);
    let i: int = if y == r && -r <= x < 0 {
        0
    } else if x + y == r && 0 <= x < r {
        1
    } else if x == r && -r < y <= 0 {
        2
    } else if y == -r && 0 < x <= r {
        3
    } else if x + y == -r && -r < x <= 0 {
        4
    } else {
        5
    };
    let j = k - i * r;
    assert(0 <= j < r);
    assert(i * r == r * i) by (nonlinear_arith);
    vstd::arithmetic::div_mod::lemma_fundamental_div_mod_converse(k, r, i, j);
    assert(k / r == i && k % r == j);
    let p = ring_hex(cq, cr, r, k);
    if i == 0 {
        assert(p == (cq - r + j, cr + r));
    } else if i == 1 {
        assert(p == (cq + j, cr + r - j));
    } else if i == 2 {
        assert(p == (cq + r, cr - j));
    } else if i == 3 {
        assert(p == (cq + r - j, cr - r));
    } else if i == 4 {
        assert(p == (cq - j, cr - r + j));
    } else {
        assert(p == (cq - r, cr + j));
    }
}

/// A ring never repeats a hex.
pub proof fn lemma_ring_distinct(cq: int, cr: int, r: int, k1: int, k2: int)
    requires
        r > 0,
        0 <= k1 < 6 * r,
        0 <= k2 < 6 * r,
        k1 != k2,
    ensures
        ring_hex(cq, cr, r, k1) != ring_hex(cq, cr, r, k2),
{
    lemma_ring_hex(cq, cr, r, k1);
    lemma_ring_hex(cq, cr, r, k2);
}

/// The `k`th tile of a ring lies exactly `radius` steps from the center.
proof fn lemma_ring_tile_distance(layout: HexLayout, center: Tile, radius: int, k: int)
    requires
        radius > 0,
        0 <= k < 6 * radius,
        ring_converts(layout, center, radius),
    ensures
        layout.hex_distance(center, ring_tiles(layout, center, radius)[k]) == radius,
        ({
            let h = to_axial(layout.orientation, center.col as int, center.row as int);
            let t = ring_tiles(layout, center, radius)[k];
            to_axial(layout.orientation, t.col as int, t.row as int) == ring_hex(h.0, h.1, radius, k)
        }),
{
    let h = to_axial(layout.orientation, center.col as int, center.row as int);
    let p = ring_hex(h.0, h.1, radius, k);
    assert(layout.converts_back(p.0, p.1));
    lemma_axial_round_trip(layout.orientation, p.0, p.1);
    lemma_ring_hex(h.0, h.1, radius, k);
}

/// A tile is determined by its axial coordinate.
pub(crate) proof fn lemma_to_axial_injective(o: HexOrientation, a: Tile, b: Tile)
    requires
        to_axial(o, a.col as int, a.row as int) == to_axial(o, b.col as int, b.row as int),
    ensures
        a == b,
{
    lemma_offset_round_trip(o, a.col as int, a.row as int);
    lemma_offset_round_trip(o, b.col as int, b.row as int);
}

/// [`hex_spiral`] lists every hex within `radius` of the center exactly
/// once: nothing beyond the radius, no repeats, and no hex in range left
/// out.
pub proof fn lemma_spiral_covers_once(layout: HexLayout, center: Tile, radius: int)
    requires
        layout.converts(center),
        forall|r: int| 1 <= r <= radius ==> #[trigger] ring_converts(layout, center, r),
    ensures
        ({
            let sp = spiral_tiles(layout, center, radius);
            &&& forall|i: int| 0 <= i < sp.len() ==> layout.hex_distance(center, #[trigger] sp[i]) <= radius
                || (radius < 0 && sp[i] == center)
            &&& forall|i: int, j: int| 0 <= i < j < sp.len() ==> #[trigger] sp[i] != #[trigger] sp[j]
            &&& forall|t: Tile| layout.converts(t) && #[trigger] layout.hex_distance(center, t) <= radius
                ==> sp.contains(t)
        }),
    decreases radius,
{
    let sp = spiral_tiles(layout, center, radius);
    let h = to_axial(layout.orientation, center.col as int, center.row as int);
    if radius <= 0 {
        assert(sp == seq![center]);
        assert forall|t: Tile| layout.converts(t) && #[trigger] layout.hex_distance(center, t) <= radius
            implies sp.contains(t) by {
            let ht = to_axial(layout.orientation, t.col as int, t.row as int);
            lemma_distance_is_metric(h.0, h.1, ht.0, ht.1, h.0, h.1);
            lemma_to_axial_injective(layout.orientation, center, t);
            assert(sp[0] == t);
        }
        assert forall|i: int| 0 <= i < sp.len() implies layout.hex_distance(center, #[trigger] sp[i]) <= radius
            || (radius < 0 && sp[i] == center) by {
            lemma_distance_is_metric(h.0, h.1, h.0, h.1, h.0, h.1);
        }
    } else {
        lemma_spiral_covers_once(layout, center, radius - 1);
        let prev = spiral_tiles(layout, center, radius - 1);
        let ring = ring_tiles(layout, center, radius);
        assert(ring_converts(layout, center, radius));
        assert(sp == prev + ring);
        assert forall|i: int| 0 <= i < sp.len() implies layout.hex_distance(center, #[trigger] sp[i]) <= radius
            || (radius < 0 && sp[i] == center) by {
            if i < prev.len() {
                assert(sp[i] == prev[i]);
                if radius - 1 < 0 {
                    lemma_distance_is_metric(h.0, h.1, h.0, h.1, h.0, h.1);
                }
            } else {
                assert(sp[i] == ring[i - prev.len()]);
                lemma_ring_tile_distance(layout, center, radius, i - prev.len());
            }
        }
        assert forall|i: int, j: int| 0 <= i < j < sp.len() implies #[trigger] sp[i] != #[trigger] sp[j] by {
            if j < prev.len() {
                assert(sp[i] == prev[i] && sp[j] == prev[j]);
            } else if i < prev.len() {
                assert(sp[i] == prev[i]);
                assert(sp[j] == ring[j - prev.len()]);
                lemma_ring_tile_distance(layout, center, radius, j - prev.len());
                if radius - 1 < 0 {
                    lemma_distance_is_metric(h.0, h.1, h.0, h.1, h.0, h.1);
                }
                assert(layout.hex_distance(center, prev[i]) <= radius - 1);
            } else {
                let ki = i - prev.len();
                let kj = j - prev.len();
                assert(sp[i] == ring[ki]);
                assert(sp[j] == ring[kj]);
                lemma_ring_tile_distance(layout, center, radius, ki);
                lemma_ring_tile_distance(layout, center, radius, kj);
                lemma_ring_distinct(h.0, h.1, radius, ki, kj);
            }
        }
        assert forall|t: Tile| layout.converts(t) && #[trigger] layout.hex_distance(center, t) <= radius
            implies sp.contains(t) by {
            if layout.hex_distance(center, t) <= radius - 1 {
                assert(prev.contains(t));
                let i = choose|i: int| 0 <= i < prev.len() && prev[i] == t;
                assert(sp[i] == t);
            } else {
                let ht = to_axial(layout.orientation, t.col as int, t.row as int);
                lemma_ring_covers(h.0, h.1, radius, ht.0, ht.1);
                let k = ring_index(radius, ht.0 - h.0, ht.1 - h.1);
                lemma_ring_tile_distance(layout, center, radius, k);
                lemma_to_axial_injective(layout.orientation, ring[k], t);
                assert(sp[prev.len() + k] == t);
            }
        }
    }
}

// ── Lines ───────────────────────────────────────────────────────────────────

/// `num / den` plus an infinitesimal, rounded to the nearest integer (so an
/// exact half rounds up).
pub open spec fn round_nudged_up(num: int, den: int) -> int {
    (2 * num + den) / (2 * den)
}

/// `num / den` minus an infinitesimal, rounded to the nearest integer (so an
/// exact half rounds down).
pub open spec fn round_nudged_down(num: int, den: int) -> int {
    -((den - 2 * num) / (2 * den))
}

/// How far a rounded coordinate moved, as a pair ordered lexicographically:
/// the distance in units of `1/den`, then the infinitesimal part, whose
/// coefficient is `nudge` (so `moved - value - nudge * eps` in absolute
/// value).
pub open spec fn deviation(rounded: int, num: int, den: int, nudge: int) -> (int, int) {
    let d = rounded * den - num;
    if d > 0 {
        (d, -nudge)
    } else if d < 0 {
        (-d, nudge)
    } else {
        (0, abs(nudge))
    }
}

/// Strictly greater, lexicographically.
pub open spec fn dev_gt(a: (int, int), b: (int, int)) -> bool {
    a.0 > b.0 || (a.0 == b.0 && a.1 > b.1)
}

/// The hex nearest the point `(qn / n, rn / n)`, nudged by an
/// infinitesimal `+eps` on `q` and `r` (so `-2 eps` on `s`) so that a line
/// running exactly along a hex edge resolves its ties consistently to one
/// side: each cube coordinate is rounded, and the one that moved furthest
/// is recomputed from the other two.
pub open spec fn cube_round(qn: int, rn: int, n: int) -> (int, int) {
    let sn = -qn - rn;
    let rq = round_nudged_up(qn, n);
    let rr = round_nudged_up(rn, n);
    let rs = round_nudged_down(sn, n);
    let dq = deviation(rq, qn, n, 1);
    let dr = deviation(rr, rn, n, 1);
    let ds = deviation(rs, sn, n, -2);
    if dev_gt(dq, dr) && dev_gt(dq, ds) {
        (-rr - rs, rr)
    } else if dev_gt(dr, ds) {
        (rq, -rq - rs)
    } else {
        (rq, rr)
    }
}

/// The `i`th of `n + 1` evenly spaced samples from `(aq, ar)` to `(bq, br)`,
/// rounded to a hex with [`cube_round`].
pub open spec fn line_hex(aq: int, ar: int, bq: int, br: int, n: int, i: int) -> (int, int) {
    cube_round(aq * n + (bq - aq) * i, ar * n + (br - ar) * i, n)
}

/// The tiles of the hex line from `from` to `to`.
pub open spec fn line_tiles(layout: HexLayout, from: Tile, to: Tile) -> Seq<Tile> {
    let a = to_axial(layout.orientation, from.col as int, from.row as int);
    let b = to_axial(layout.orientation, to.col as int, to.row as int);
    let n = axial_distance(a.0, a.1, b.0, b.1);
    if n <= 0 {
        seq![from]
    } else {
        Seq::new((n + 1) as nat, |i: int| tile_of(from_axial(layout.orientation, line_hex(a.0, a.1, b.0, b.1, n, i).0,
            line_hex(a.0, a.1, b.0, b.1, n, i).1)))
    }
}

/// Whether drawing the line from `from` to `to` stays within `i32`.
pub open spec fn line_converts(layout: HexLayout, from: Tile, to: Tile) -> bool {
    let a = to_axial(layout.orientation, from.col as int, from.row as int);
    let b = to_axial(layout.orientation, to.col as int, to.row as int);
    let n = axial_distance(a.0, a.1, b.0, b.1);
    &&& layout.converts(from)
    &&& layout.converts(to)
    &&& axial_distance_fits(a.0, a.1, b.0, b.1)
    &&& forall|i: int| 0 <= i <= n ==> {
        let p = #[trigger] line_hex(a.0, a.1, b.0, b.1, n, i);
        fits(p.0) && fits(p.1) && layout.converts_back(p.0, p.1)
    }
}

fn deviation_exec(rounded: i128, num: i128, den: i128, nudge: i128) -> (d: (i128, i128))
    requires
        -0x4_0000_0000 < rounded < 0x4_0000_0000,
        0 < den < 0x1_0000_0000,
        -0x4_0000_0000_0000_0000 < num < 0x4_0000_0000_0000_0000,
        nudge == 1 || nudge == -2,
    ensures
        (d.0 as int, d.1 as int) == deviation(rounded as int, num as int, den as int, nudge as int),
{
    proof {
        assert(-0x4_0000_0000_0000_0000 < rounded * den < 0x4_0000_0000_0000_0000) by (nonlinear_arith)
            requires
                -0x4_0000_0000 < rounded < 0x4_0000_0000,
                0 < den < 0x1_0000_0000;
    }
    let d = rounded * den - num;
    if d > 0 {
        (d, -nudge)
    } else if d < 0 {
        (-d, nudge)
    } else {
        (0, if nudge < 0 { -nudge } else { nudge })
    }
}

fn dev_gt_exec(a: (i128, i128), b: (i128, i128)) -> (g: bool)
    ensures
        g == dev_gt((a.0 as int, a.1 as int), (b.0 as int, b.1 as int)),
{
    a.0 > b.0 || (a.0 == b.0 && a.1 > b.1)
}

proof fn lemma_round_bounds(num: int, den: int)
    requires
        0 < den,
    ensures
        num / den - 1 <= round_nudged_up(num, den) <= num / den + 1,
        num / den - 1 <= round_nudged_down(num, den) <= num / den + 1,
{
    vstd::arithmetic::div_mod::lemma_fundamental_div_mod(num, den);
    vstd::arithmetic::div_mod::lemma_mod_bound(num, den);
    vstd::arithmetic::div_mod::lemma_fundamental_div_mod(2 * num + den, 2 * den);
    vstd::arithmetic::div_mod::lemma_mod_bound(2 * num + den, 2 * den);
    vstd::arithmetic::div_mod::lemma_fundamental_div_mod(den - 2 * num, 2 * den);
    vstd::arithmetic::div_mod::lemma_mod_bound(den - 2 * num, 2 * den);
    let q = num / den;
    let u = (2 * num + den) / (2 * den);
    let w = (den - 2 * num) / (2 * den);
    assert(q - 1 <= u <= q + 1) by (nonlinear_arith)
        requires
            num == den * q + num % den,
            0 <= num % den < den,
            2 * num + den == 2 * den * u + (2 * num + den) % (2 * den),
            0 <= (2 * num + den) % (2 * den) < 2 * den,
            den > 0,
    {
        if u > q + 1 {
            assert(2 * den * u >= 2 * den * (q + 2));
        }
        if u < q - 1 {
            assert(2 * den * u <= 2 * den * (q - 2));
        }
    }
    assert(q - 1 <= -w <= q + 1) by (nonlinear_arith)
        requires
            num == den * q + num % den,
            0 <= num % den < den,
            den - 2 * num == 2 * den * w + (den - 2 * num) % (2 * den),
            0 <= (den - 2 * num) % (2 * den) < 2 * den,
            den > 0,
    {
        if -w > q + 1 {
            assert(2 * den * w <= 2 * den * (-q - 2));
        }
        if -w < q - 1 {
            assert(2 * den * w >= 2 * den * (-q + 2));
        }
    }
}

/// Euclidean division of wide integers by a positive divisor.
fn div_euclid_wide(a: i128, b: i128) -> (q: i128)
    requires
        b > 0,
        -0x10_0000_0000_0000_0000 < a < 0x10_0000_0000_0000_0000,
    ensures
        q == a as int / b as int,
{
    proof {
        lemma_quotient_bound(a as int, b as int, 0x10_0000_0000_0000_0000);
    }
    a.checked_div_euclid(b).unwrap()
}

/// A quotient by a positive divisor is no bigger than the bound its
/// dividend obeys per unit of divisor.
proof fn lemma_quotient_bound(x: int, n: int, m: int)
    requires
        n > 0,
        m >= 0,
        -m * n <= x <= m * n,
    ensures
        -m <= x / n <= m,
{
    vstd::arithmetic::div_mod::lemma_div_is_ordered(x, m * n, n);
    vstd::arithmetic::div_mod::lemma_div_is_ordered(-m * n, x, n);
    vstd::arithmetic::div_mod::lemma_div_multiples_vanish(m, n);
    vstd::arithmetic::div_mod::lemma_div_multiples_vanish(-m, n);
    assert(m * n == n * m) by (nonlinear_arith);
    assert(-m * n == n * (-m)) by (nonlinear_arith);
}

/// The rounded `i`th sample of a line of `n` steps, computed exactly in
/// `i128`.
fn line_point(aq: i32, ar: i32, bq: i32, br: i32, n: i32, i: i32) -> (h: (i32, i32))
    requires
        n > 0,
        0 <= i <= n,
        fits(line_hex(aq as int, ar as int, bq as int, br as int, n as int, i as int).0),
        fits(line_hex(aq as int, ar as int, bq as int, br as int, n as int, i as int).1),
    ensures
        (h.0 as int, h.1 as int) == line_hex(aq as int, ar as int, bq as int, br as int, n as int, i as int),
{
    let ghost g = line_hex(aq as int, ar as int, bq as int, br as int, n as int, i as int);
    let n128 = n as i128;
    proof {
        assert(-0x1_0000_0000_0000_0000 < aq * n < 0x1_0000_0000_0000_0000) by (nonlinear_arith)
            requires fits(aq as int), fits(n as int);
        assert(-0x1_0000_0000_0000_0000 < ar * n < 0x1_0000_0000_0000_0000) by (nonlinear_arith)
            requires fits(ar as int), fits(n as int);
        assert(-0x2_0000_0000_0000_0000 < (bq - aq) * i < 0x2_0000_0000_0000_0000) by (nonlinear_arith)
            requires fits(aq as int), fits(bq as int), 0 <= i <= n, fits(n as int);
        assert(-0x2_0000_0000_0000_0000 < (br - ar) * i < 0x2_0000_0000_0000_0000) by (nonlinear_arith)
            requires fits(ar as int), fits(br as int), 0 <= i <= n, fits(n as int);
    }
    let qn = (aq as i128) * n128 + ((bq as i128) - (aq as i128)) * (i as i128);
    let rn = (ar as i128) * n128 + ((br as i128) - (ar as i128)) * (i as i128);
    let sn = -qn - rn;
    proof {
        let m = 0x1_0000_0000int;
        assert(-m * n <= qn <= m * n) by (nonlinear_arith)
            requires
                qn == aq * n + (bq - aq) * i,
                fits(aq as int), fits(bq as int), 0 <= i <= n,
                m == 0x1_0000_0000int;
        assert(-m * n <= rn <= m * n) by (nonlinear_arith)
            requires
                rn == ar * n + (br - ar) * i,
                fits(ar as int), fits(br as int), 0 <= i <= n,
                m == 0x1_0000_0000int;
        lemma_quotient_bound(qn as int, n as int, m);
        lemma_quotient_bound(rn as int, n as int, m);
        lemma_quotient_bound(sn as int, n as int, 2 * m);
        lemma_round_bounds(qn as int, n as int);
        lemma_round_bounds(rn as int, n as int);
        lemma_round_bounds(sn as int, n as int);
    }
    let rq = div_euclid_wide(2 * qn + n128, 2 * n128);
    let rr = div_euclid_wide(2 * rn + n128, 2 * n128);
    let rs = -div_euclid_wide(n128 - 2 * sn, 2 * n128);
    let dq = deviation_exec(rq, qn, n128, 1);
    let dr = deviation_exec(rr, rn, n128, 1);
    let ds = deviation_exec(rs, sn, n128, -2);
    if dev_gt_exec(dq, dr) && dev_gt_exec(dq, ds) {
        ((-rr - rs) as i32, rr as i32)
    } else if dev_gt_exec(dr, ds) {
        (rq as i32, (-rq - rs) as i32)
    } else {
        (rq as i32, rr as i32)
    }
}

/// The hex line from `from` to `to` inclusive, as offset tiles: one sample
/// per step of the hex distance, each the cube rounding of the exact point
/// that far along the line.
pub fn hex_line(layout: HexLayout, from: Tile, to: Tile) -> (v: Vec<Tile>)
    requires
        line_converts(layout, from, to),
    ensures
        v@ == line_tiles(layout, from, to),
{
    let ghost a = to_axial(layout.orientation, from.col as int, from.row as int);
    let ghost b = to_axial(layout.orientation, to.col as int, to.row as int);
    let hf = layout.to_hex(from);
    let ht = layout.to_hex(to);
    let steps = axial_hex_distance(hf, ht);
    if steps <= 0 {
        let mut v = Vec::new();
        v.push(from);
        return v;
    }
    let mut v: Vec<Tile> = Vec::new();
    let mut i: i64 = 0;
    while i <= steps as i64
        invariant
            hf.q == a.0 && hf.r == a.1 && ht.q == b.0 && ht.r == b.1,
            a == to_axial(layout.orientation, from.col as int, from.row as int),
            b == to_axial(layout.orientation, to.col as int, to.row as int),
            steps == axial_distance(a.0, a.1, b.0, b.1),
            steps > 0,
            line_converts(layout, from, to),
            0 <= i <= steps + 1,
            v@.len() == i,
            forall|j: int| 0 <= j < i ==> #[trigger] v@[j] == line_tiles(layout, from, to)[j],
        decreases steps + 1 - i,
    {
        let ghost p = line_hex(a.0, a.1, b.0, b.1, steps as int, i as int);
        proof {
            assert(layout.converts_back(p.0, p.1));
        }
        let (q, r) = line_point(hf.q, hf.r, ht.q, ht.r, steps, i as i32);
        let t = layout.from_hex(AxialHex { q, r });
        v.push(t);
        proof {
            assert(v@[i as int] == line_tiles(layout, from, to)[i as int]);
        }
        i += 1;
    }
    proof {
        assert(v@ =~= line_tiles(layout, from, to));
    }
    v
}

proof fn lemma_round_exact(x: int, n: int)
    requires
        n > 0,
    ensures
        round_nudged_up(x * n, n) == x,
        round_nudged_down(x * n, n) == x,
{
    assert(2 * (x * n) + n == x * (2 * n) + n) by (nonlinear_arith);
    vstd::arithmetic::div_mod::lemma_fundamental_div_mod_converse(2 * (x * n) + n, 2 * n, x, n);
    assert(n - 2 * (x * n) == (-x) * (2 * n) + n) by (nonlinear_arith);
    vstd::arithmetic::div_mod::lemma_fundamental_div_mod_converse(n - 2 * (x * n), 2 * n, -x, n);
}

/// A sample that lands exactly on a hex center rounds to that hex.
proof fn lemma_line_exact(aq: int, ar: int, bq: int, br: int, n: int, i: int, x: int, y: int)
    requires
        n > 0,
        aq * n + (bq - aq) * i == x * n,
        ar * n + (br - ar) * i == y * n,
    ensures
        line_hex(aq, ar, bq, br, n, i) == (x, y),
{
    lemma_round_exact(x, n);
    lemma_round_exact(y, n);
    lemma_round_exact(-x - y, n);
    assert(-(x * n) - y * n == (-x - y) * n) by (nonlinear_arith);
}

/// Rounding with ties up gives the one integer `x` with
/// `-den < 2 (x den - num) <= den`.
proof fn lemma_round_up_char(num: int, den: int, x: int)
    requires
        den > 0,
    ensures
        (x == round_nudged_up(num, den)) <==> (-den < 2 * (x * den - num) <= den),
{
    let u = round_nudged_up(num, den);
    vstd::arithmetic::div_mod::lemma_fundamental_div_mod(2 * num + den, 2 * den);
    let m = (2 * num + den) % (2 * den);
    assert(2 * num + den == (2 * den) * u + m);
    assert(0 <= m < 2 * den);
    assert(2 * (u * den - num) == den - m) by (nonlinear_arith)
        requires 2 * num + den == (2 * den) * u + m;
    if -den < 2 * (x * den - num) <= den {
        assert(2 * num + den == x * (2 * den) + (2 * num + den - 2 * den * x)) by (nonlinear_arith);
        assert(0 <= 2 * num + den - 2 * den * x < 2 * den) by (nonlinear_arith)
            requires -den < 2 * (x * den - num) <= den;
        vstd::arithmetic::div_mod::lemma_fundamental_div_mod_converse(2 * num + den, 2 * den, x, 2 * num + den - 2 * den * x);
    }
}

/// Rounding with ties down gives the one integer `x` with
/// `-den <= 2 (x den - num) < den`.
proof fn lemma_round_down_char(num: int, den: int, x: int)
    requires
        den > 0,
    ensures
        (x == round_nudged_down(num, den)) <==> (-den <= 2 * (x * den - num) < den),
{
    let w = (den - 2 * num) / (2 * den);
    vstd::arithmetic::div_mod::lemma_fundamental_div_mod(den - 2 * num, 2 * den);
    let m = (den - 2 * num) % (2 * den);
    assert(den - 2 * num == (2 * den) * w + m);
    assert(0 <= m < 2 * den);
    assert(2 * ((-w) * den - num) == m - den) by (nonlinear_arith)
        requires den - 2 * num == (2 * den) * w + m;
    if -den <= 2 * (x * den - num) < den {
        assert(den - 2 * num == (-x) * (2 * den) + (den - 2 * num + 2 * den * x)) by (nonlinear_arith);
        assert(0 <= den - 2 * num + 2 * den * x < 2 * den) by (nonlinear_arith)
            requires -den <= 2 * (x * den - num) < den;
        vstd::arithmetic::div_mod::lemma_fundamental_div_mod_converse(den - 2 * num, 2 * den, -x, den - 2 * num + 2 * den * x);
    }
}

/// Moving the numerator by at most one denominator, in either direction,
/// moves either rounding by at most one, the same way.
proof fn lemma_round_step(num: int, d: int, den: int)
    requires
        den > 0,
        -den <= d <= den,
    ensures
        0 <= d ==> 0 <= round_nudged_up(num + d, den) - round_nudged_up(num, den) <= 1,
        d <= 0 ==> -1 <= round_nudged_up(num + d, den) - round_nudged_up(num, den) <= 0,
        0 <= d ==> 0 <= round_nudged_down(num + d, den) - round_nudged_down(num, den) <= 1,
        d <= 0 ==> -1 <= round_nudged_down(num + d, den) - round_nudged_down(num, den) <= 0,
{
    let u = round_nudged_up(num, den);
    let u2 = round_nudged_up(num + d, den);
    lemma_round_up_char(num, den, u);
    lemma_round_up_char(num + d, den, u2);
    assert(-2 * den + 2 * d < 2 * den * (u2 - u) < 2 * den + 2 * d) by (nonlinear_arith)
        requires -den < 2 * (u * den - num) <= den, -den < 2 * (u2 * den - (num + d)) <= den;
    assert(0 <= d ==> 0 <= u2 - u <= 1) by (nonlinear_arith)
        requires -2 * den + 2 * d < 2 * den * (u2 - u) < 2 * den + 2 * d, den > 0, d <= den;
    assert(d <= 0 ==> -1 <= u2 - u <= 0) by (nonlinear_arith)
        requires -2 * den + 2 * d < 2 * den * (u2 - u) < 2 * den + 2 * d, den > 0, -den <= d;
    let w = round_nudged_down(num, den);
    let w2 = round_nudged_down(num + d, den);
    lemma_round_down_char(num, den, w);
    lemma_round_down_char(num + d, den, w2);
    assert(-2 * den + 2 * d < 2 * den * (w2 - w) < 2 * den + 2 * d) by (nonlinear_arith)
        requires -den <= 2 * (w * den - num) < den, -den <= 2 * (w2 * den - (num + d)) < den;
    assert(0 <= d ==> 0 <= w2 - w <= 1) by (nonlinear_arith)
        requires -2 * den + 2 * d < 2 * den * (w2 - w) < 2 * den + 2 * d, den > 0, d <= den;
    assert(d <= 0 ==> -1 <= w2 - w <= 0) by (nonlinear_arith)
        requires -2 * den + 2 * d < 2 * den * (w2 - w) < 2 * den + 2 * d, den > 0, -den <= d;
}

/// Of two numerators that sum to a multiple `k` of the denominator,
/// rounding one with ties up and the other with ties down gives roundings
/// that sum to `k`.
proof fn lemma_round_complement(x: int, y: int, den: int, k: int)
    requires
        den > 0,
        x + y == k * den,
    ensures
        round_nudged_up(x, den) + round_nudged_down(y, den) == k,
{
    let u = round_nudged_up(x, den);
    lemma_round_up_char(x, den, u);
    assert(-den <= 2 * ((k - u) * den - y) < den) by (nonlinear_arith)
        requires -den < 2 * (u * den - x) <= den, x + y == k * den;
    lemma_round_down_char(y, den, k - u);
}

/// Where the `s` numerator is a multiple `k` of the denominator, cube
/// rounding rounds `q` with ties up and `r` with ties down.
proof fn lemma_cube_round_s_exact(qn: int, rn: int, n: int, k: int)
    requires
        n > 0,
        qn + rn == -(k * n),
    ensures
        cube_round(qn, rn, n) == (round_nudged_up(qn, n), round_nudged_down(rn, n)),
        round_nudged_up(qn, n) + round_nudged_down(rn, n) == -k,
{
    let sn = -qn - rn;
    assert(sn == k * n);
    lemma_round_exact(k, n);
    let rq = round_nudged_up(qn, n);
    let rr = round_nudged_up(rn, n);
    let rs = round_nudged_down(sn, n);
    let r2 = round_nudged_down(rn, n);
    assert(rs == k);
    assert((-k) * n == -(k * n)) by (nonlinear_arith);
    lemma_round_complement(qn, rn, n, -k);
    assert(rq + r2 == -k);
    lemma_round_up_char(rn, n, rr);
    lemma_round_down_char(rn, n, rr);
    if rr != r2 {
        assert(2 * (rr * n - rn) == n);
        lemma_round_down_char(rn, n, rr - 1);
        assert(2 * ((rr - 1) * n - rn) == -n) by (nonlinear_arith)
            requires 2 * (rr * n - rn) == n;
        assert(r2 == rr - 1);
        assert(2 * (rq * n - qn) == n) by (nonlinear_arith)
            requires
                rq == -k - (rr - 1),
                qn + rn == -(k * n),
                2 * (rr * n - rn) == n;
        assert(rs * n - sn == 0) by (nonlinear_arith)
            requires rs == k, sn == k * n;
    }
}

/// Where the `q` numerator is a multiple `k` of the denominator, cube
/// rounding keeps `q` and rounds `r` with ties up.
proof fn lemma_cube_round_q_exact(qn: int, rn: int, n: int, k: int)
    requires
        n > 0,
        qn == k * n,
    ensures
        cube_round(qn, rn, n) == (k, round_nudged_up(rn, n)),
        round_nudged_up(rn, n) + round_nudged_down(-qn - rn, n) == -k,
{
    lemma_round_exact(k, n);
    assert((-k) * n == -(k * n)) by (nonlinear_arith);
    lemma_round_complement(rn, -qn - rn, n, -k);
}

/// Where the `r` numerator is a multiple `k` of the denominator, cube
/// rounding rounds `q` with ties up and keeps `r`.
proof fn lemma_cube_round_r_exact(qn: int, rn: int, n: int, k: int)
    requires
        n > 0,
        rn == k * n,
    ensures
        cube_round(qn, rn, n) == (round_nudged_up(qn, n), k),
        round_nudged_up(qn, n) + round_nudged_down(-qn - rn, n) == -k,
{
    lemma_round_exact(k, n);
    assert((-k) * n == -(k * n)) by (nonlinear_arith);
    lemma_round_complement(qn, -qn - rn, n, -k);
}

/// Consecutive samples of a hex line are neighbours: exactly one step
/// apart, so the line has no gaps and no repeats.
pub proof fn lemma_line_contiguous(aq: int, ar: int, bq: int, br: int, i: int)
    requires
        axial_distance(aq, ar, bq, br) > 0,
        0 <= i < axial_distance(aq, ar, bq, br),
    ensures
        ({
            let n = axial_distance(aq, ar, bq, br);
            let h = line_hex(aq, ar, bq, br, n, i);
            let g = line_hex(aq, ar, bq, br, n, i + 1);
            axial_distance(h.0, h.1, g.0, g.1) == 1
        }),
{
    let n = axial_distance(aq, ar, bq, br);
    let (dq, dr) = (bq - aq, br - ar);
    let ds = -dq - dr;
    let qn = aq * n + dq * i;
    let rn = ar * n + dr * i;
    let sn = -qn - rn;
    let qn2 = aq * n + dq * (i + 1);
    let rn2 = ar * n + dr * (i + 1);
    let sn2 = -qn2 - rn2;
    assert(qn2 == qn + dq && rn2 == rn + dr) by (nonlinear_arith)
        requires qn == aq * n + dq * i, rn == ar * n + dr * i, qn2 == aq * n + dq * (i + 1), rn2 == ar * n + dr * (i + 1);
    assert(sn2 == sn + ds);
    assert(-n <= dq <= n && -n <= dr <= n && -n <= ds <= n);
    let h = line_hex(aq, ar, bq, br, n, i);
    let g = line_hex(aq, ar, bq, br, n, i + 1);
    if abs(dq) == n {
        let sg = if dq > 0 { 1int } else { -1int };
        assert(dq == sg * n) by (nonlinear_arith)
            requires sg == (if dq > 0 { 1int } else { -1int }), abs(dq) == n, n > 0;
        assert(qn == (aq + sg * i) * n && qn2 == (aq + sg * (i + 1)) * n) by (nonlinear_arith)
            requires qn == aq * n + dq * i, qn2 == aq * n + dq * (i + 1), dq == sg * n;
        lemma_cube_round_q_exact(qn, rn, n, aq + sg * i);
        lemma_cube_round_q_exact(qn2, rn2, n, aq + sg * (i + 1));
        lemma_round_step(rn, dr, n);
        lemma_round_step(sn, ds, n);
        assert(h == (aq + sg * i, round_nudged_up(rn, n)));
        assert(g == (aq + sg * (i + 1), round_nudged_up(rn2, n)));
        assert(sg == 1 ==> dr <= 0 && ds <= 0);
        assert(sg == -1 ==> dr >= 0 && ds >= 0);
        let (e0, e1, e2) = (g.0 - h.0, g.1 - h.1, (-g.0 - g.1) - (-h.0 - h.1));
        assert(sg * (i + 1) == sg * i + sg) by (nonlinear_arith);
        assert(e0 == sg);
        assert(e1 == round_nudged_up(rn2, n) - round_nudged_up(rn, n));
        assert(-h.0 - h.1 == round_nudged_down(sn, n));
        assert(-g.0 - g.1 == round_nudged_down(sn2, n));
        assert(e0 + e1 + e2 == 0);
    } else if abs(dr) == n {
        let sg = if dr > 0 { 1int } else { -1int };
        assert(dr == sg * n) by (nonlinear_arith)
            requires sg == (if dr > 0 { 1int } else { -1int }), abs(dr) == n, n > 0;
        assert(rn == (ar + sg * i) * n && rn2 == (ar + sg * (i + 1)) * n) by (nonlinear_arith)
            requires rn == ar * n + dr * i, rn2 == ar * n + dr * (i + 1), dr == sg * n;
        assert(sg * (i + 1) == sg * i + sg) by (nonlinear_arith);
        lemma_cube_round_r_exact(qn, rn, n, ar + sg * i);
        lemma_cube_round_r_exact(qn2, rn2, n, ar + sg * (i + 1));
        lemma_round_step(qn, dq, n);
        lemma_round_step(sn, ds, n);
    } else {
        assert(abs(ds) == n);
        let sg = if ds > 0 { 1int } else { -1int };
        assert(ds == sg * n) by (nonlinear_arith)
            requires sg == (if ds > 0 { 1int } else { -1int }), abs(ds) == n, n > 0;
        let k = (-aq - ar) + sg * i;
        let k2 = (-aq - ar) + sg * (i + 1);
        assert(qn + rn == -(k * n) && qn2 + rn2 == -(k2 * n)) by (nonlinear_arith)
            requires
                qn == aq * n + dq * i,
                rn == ar * n + dr * i,
                qn2 == aq * n + dq * (i + 1),
                rn2 == ar * n + dr * (i + 1),
                -dq - dr == sg * n,
                k == (-aq - ar) + sg * i,
                k2 == (-aq - ar) + sg * (i + 1);
        assert(sg * (i + 1) == sg * i + sg) by (nonlinear_arith);
        lemma_cube_round_s_exact(qn, rn, n, k);
        lemma_cube_round_s_exact(qn2, rn2, n, k2);
        lemma_round_step(qn, dq, n);
        lemma_round_step(rn, dr, n);
    }
}

/// Rounding `x + d / n` for `|d| <= i n` lands within `i` of `x`.
proof fn lemma_round_within(x: int, d: int, n: int, i: int)
    requires
        n > 0,
        i >= 0,
        -(i * n) <= d <= i * n,
    ensures
        x - i <= round_nudged_up(x * n + d, n) <= x + i,
        x - i <= round_nudged_down(x * n + d, n) <= x + i,
{
    let u = round_nudged_up(x * n + d, n);
    let w = round_nudged_down(x * n + d, n);
    lemma_round_up_char(x * n + d, n, u);
    lemma_round_down_char(x * n + d, n, w);
    assert(x - i <= u <= x + i) by (nonlinear_arith)
        requires -n < 2 * (u * n - (x * n + d)) <= n, -(i * n) <= d <= i * n, n > 0, i >= 0;
    assert(x - i <= w <= x + i) by (nonlinear_arith)
        requires -n <= 2 * (w * n - (x * n + d)) < n, -(i * n) <= d <= i * n, n > 0, i >= 0;
}

/// The `i`th sample of a hex line is exactly `i` steps from its start.
proof fn lemma_line_sample_distance(aq: int, ar: int, bq: int, br: int, i: int)
    requires
        axial_distance(aq, ar, bq, br) > 0,
        0 <= i <= axial_distance(aq, ar, bq, br),
    ensures
        ({
            let h = line_hex(aq, ar, bq, br, axial_distance(aq, ar, bq, br), i);
            axial_distance(aq, ar, h.0, h.1) == i
        }),
{
    let n = axial_distance(aq, ar, bq, br);
    let (dq, dr) = (bq - aq, br - ar);
    let ds = -dq - dr;
    let as_ = -aq - ar;
    let qn = aq * n + dq * i;
    let rn = ar * n + dr * i;
    let sn = -qn - rn;
    assert(sn == as_ * n + ds * i) by (nonlinear_arith)
        requires qn == aq * n + dq * i, rn == ar * n + dr * i, sn == -qn - rn, as_ == -aq - ar, ds == -dq - dr;
    assert(-n <= dq <= n && -n <= dr <= n && -n <= ds <= n);
    assert(-(i * n) <= dq * i <= i * n && -(i * n) <= dr * i <= i * n && -(i * n) <= ds * i <= i * n) by (nonlinear_arith)
        requires -n <= dq <= n, -n <= dr <= n, -n <= ds <= n, i >= 0;
    let h = line_hex(aq, ar, bq, br, n, i);
    if abs(dq) == n {
        let sg = if dq > 0 { 1int } else { -1int };
        assert(qn == (aq + sg * i) * n) by (nonlinear_arith)
            requires qn == aq * n + dq * i, sg == (if dq > 0 { 1int } else { -1int }), abs(dq) == n;
        assert(sg * i == i || sg * i == -i) by (nonlinear_arith)
            requires sg == 1 || sg == -1;
        lemma_cube_round_q_exact(qn, rn, n, aq + sg * i);
        lemma_round_within(ar, dr * i, n, i);
        lemma_round_within(as_, ds * i, n, i);
        assert(h == (aq + sg * i, round_nudged_up(rn, n)));
        assert(-h.0 - h.1 == round_nudged_down(sn, n));
    } else if abs(dr) == n {
        let sg = if dr > 0 { 1int } else { -1int };
        assert(rn == (ar + sg * i) * n) by (nonlinear_arith)
            requires rn == ar * n + dr * i, sg == (if dr > 0 { 1int } else { -1int }), abs(dr) == n;
        assert(sg * i == i || sg * i == -i) by (nonlinear_arith)
            requires sg == 1 || sg == -1;
        lemma_cube_round_r_exact(qn, rn, n, ar + sg * i);
        lemma_round_within(aq, dq * i, n, i);
        lemma_round_within(as_, ds * i, n, i);
        assert(h == (round_nudged_up(qn, n), ar + sg * i));
        assert(-h.0 - h.1 == round_nudged_down(sn, n));
    } else {
        assert(abs(ds) == n);
        let sg = if ds > 0 { 1int } else { -1int };
        let k = as_ + sg * i;
        assert(qn + rn == -(k * n)) by (nonlinear_arith)
            requires
                qn == aq * n + dq * i,
                rn == ar * n + dr * i,
                ds == -dq - dr,
                sg == (if ds > 0 { 1int } else { -1int }),
                abs(ds) == n,
                k == as_ + sg * i,
                as_ == -aq - ar;
        assert(sg * i == i || sg * i == -i) by (nonlinear_arith)
            requires sg == 1 || sg == -1;
        lemma_cube_round_s_exact(qn, rn, n, k);
        lemma_round_within(aq, dq * i, n, i);
        lemma_round_within(ar, dr * i, n, i);
        assert(h == (round_nudged_up(qn, n), round_nudged_down(rn, n)));
    }
}

/// The samples of a hex line are all different: the `i`th is `i` steps
/// from the start.
pub proof fn lemma_line_distinct(aq: int, ar: int, bq: int, br: int, i: int, j: int)
    requires
        0 <= i < j <= axial_distance(aq, ar, bq, br),
    ensures
        line_hex(aq, ar, bq, br, axial_distance(aq, ar, bq, br), i) != line_hex(
            aq,
            ar,
            bq,
            br,
            axial_distance(aq, ar, bq, br),
            j,
        ),
{
    lemma_line_sample_distance(aq, ar, bq, br, i);
    lemma_line_sample_distance(aq, ar, bq, br, j);
}

/// Consecutive tiles of a hex line are neighbours, no tile repeats, and
/// the `i`th tile is `i` steps from the start, so the line crosses every
/// ring around it once and has no gaps for a blocker to slip through.
pub proof fn lemma_line_tiles_steps(layout: HexLayout, from: Tile, to: Tile, i: int, j: int)
    requires
        line_converts(layout, from, to),
        0 <= i < j < line_tiles(layout, from, to).len(),
    ensures
        j == i + 1 ==> layout.hex_distance(line_tiles(layout, from, to)[i], line_tiles(layout, from, to)[j]) == 1,
        line_tiles(layout, from, to)[i] != line_tiles(layout, from, to)[j],
        layout.hex_distance(from, line_tiles(layout, from, to)[i]) == i,
        layout.hex_distance(from, line_tiles(layout, from, to)[j]) == j,
{
    let a = to_axial(layout.orientation, from.col as int, from.row as int);
    let b = to_axial(layout.orientation, to.col as int, to.row as int);
    let n = axial_distance(a.0, a.1, b.0, b.1);
    let line = line_tiles(layout, from, to);
    let hi = line_hex(a.0, a.1, b.0, b.1, n, i);
    let hj = line_hex(a.0, a.1, b.0, b.1, n, j);
    assert(n > 0);
    assert(layout.converts_back(hi.0, hi.1) && layout.converts_back(hj.0, hj.1));
    lemma_axial_round_trip(layout.orientation, hi.0, hi.1);
    lemma_axial_round_trip(layout.orientation, hj.0, hj.1);
    assert(to_axial(layout.orientation, line[i].col as int, line[i].row as int) == hi);
    assert(to_axial(layout.orientation, line[j].col as int, line[j].row as int) == hj);
    lemma_line_distinct(a.0, a.1, b.0, b.1, i, j);
    lemma_line_sample_distance(a.0, a.1, b.0, b.1, i);
    lemma_line_sample_distance(a.0, a.1, b.0, b.1, j);
    if j == i + 1 {
        lemma_line_contiguous(a.0, a.1, b.0, b.1, i);
    }
}

/// A hex line has one tile per step of the distance plus one, starts at
/// `from` and ends at `to`.
pub proof fn lemma_line_ends(layout: HexLayout, from: Tile, to: Tile)
    ensures
        ({
            let a = to_axial(layout.orientation, from.col as int, from.row as int);
            let b = to_axial(layout.orientation, to.col as int, to.row as int);
            let line = line_tiles(layout, from, to);
            &&& line.len() == layout.hex_distance(from, to) + 1
            &&& line[0] == from
            &&& line.last() == to
        }),
{
    let a = to_axial(layout.orientation, from.col as int, from.row as int);
    let b = to_axial(layout.orientation, to.col as int, to.row as int);
    let n = axial_distance(a.0, a.1, b.0, b.1);
    lemma_distance_is_metric(a.0, a.1, b.0, b.1, a.0, a.1);
    lemma_offset_round_trip(layout.orientation, from.col as int, from.row as int);
    lemma_offset_round_trip(layout.orientation, to.col as int, to.row as int);
    if n > 0 {
        assert(a.0 * n + (b.0 - a.0) * 0 == a.0 * n) by (nonlinear_arith);
        assert(a.1 * n + (b.1 - a.1) * 0 == a.1 * n) by (nonlinear_arith);
        lemma_line_exact(a.0, a.1, b.0, b.1, n, 0, a.0, a.1);
        assert(a.0 * n + (b.0 - a.0) * n == b.0 * n) by (nonlinear_arith);
        assert(a.1 * n + (b.1 - a.1) * n == b.1 * n) by (nonlinear_arith);
        lemma_line_exact(a.0, a.1, b.0, b.1, n, n, b.0, b.1);
    } else {
        lemma_to_axial_injective(layout.orientation, from, to);
    }
}

} // verus!
