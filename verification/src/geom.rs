//! Tile geometry: square, isometric, staggered and hex projections between
//! map coordinates and character-cell coordinates, in both directions.
//!
//! Every projection is a pair of functions, `tile -> cell` for drawing and
//! `cell -> tile` for picking. Terminal cells are about twice as tall as they
//! are wide, so every layout constant here is chosen in cells with that
//! aspect already accounted for.

use vstd::prelude::*;

pub mod hex;

pub use self::hex::{even_q_to_hex, hex_line, hex_ring, hex_spiral, AxialHex, HexLayout, HexOrientation};

verus! {

/// A point in screen-cell space, signed so that tiles partly off the top or
/// left edge of the viewport still have a well-defined position.
#[derive(Debug, Clone, Copy, PartialEq, Eq, Structural, Default)]
pub struct Cell {
    /// Column, in character cells.
    pub x: i32,
    /// Row, in character cells.
    pub y: i32,
}

impl Cell {
    /// A cell at `(x, y)`.
    pub fn new(x: i32, y: i32) -> (c: Self)
        ensures
            c.x == x,
            c.y == y,
    {
        Self { x, y }
    }

    /// Translates by `(dx, dy)`.
    pub fn offset(self, dx: i32, dy: i32) -> (c: Self)
        requires
            i32::MIN <= self.x + dx <= i32::MAX,
            i32::MIN <= self.y + dy <= i32::MAX,
        ensures
            c.x == self.x + dx,
            c.y == self.y + dy,
    {
        Self::new(self.x + dx, self.y + dy)
    }
}

/// An integer tile coordinate on the map: `(col, row)`, or offset hex
/// coordinates for a [`HexLayout`].
#[derive(Debug, Clone, Copy, PartialEq, Eq, Structural, Default, Hash, PartialOrd, Ord)]
pub struct Tile {
    /// Column.
    pub col: i32,
    /// Row.
    pub row: i32,
}

impl Tile {
    /// A tile at `(col, row)`.
    pub fn new(col: i32, row: i32) -> (t: Self)
        ensures
            t.col == col,
            t.row == row,
    {
        Self { col, row }
    }
}

/// Whether `v` fits in an `i32`.
pub open spec fn fits(v: int) -> bool {
    i32::MIN <= v <= i32::MAX
}

/// Euclidean division by a positive divisor.
pub fn div_euclid(a: i32, b: i32) -> (q: i32)
    requires
        b > 0,
    ensures
        q == a as int / b as int,
{
    proof {
        let q = a as int / b as int;
        let r = a as int % b as int;
        vstd::arithmetic::div_mod::lemma_fundamental_div_mod(a as int, b as int);
        vstd::arithmetic::div_mod::lemma_mod_bound(a as int, b as int);
        assert(fits(q)) by (nonlinear_arith)
            requires
                a == b * q + r,
                0 <= r < b,
                fits(a as int),
        {
            if a >= 0 {
                assert(q >= 0);
                assert(q <= a);
            } else {
                assert(q < 0);
                assert(q >= a);
            }
        }
    }
    a.checked_div_euclid(b).unwrap()
}

/// Euclidean remainder by a positive divisor.
pub fn rem_euclid(a: i32, b: i32) -> (r: i32)
    requires
        b > 0,
    ensures
        r == a as int % b as int,
        0 <= r < b,
{
    proof {
        vstd::arithmetic::div_mod::lemma_mod_bound(a as int, b as int);
    }
    a.checked_rem_euclid(b).unwrap()
}

// ── Square ──────────────────────────────────────────────────────────────────

/// An axis-aligned grid of `w` x `h` cell tiles.
#[derive(Debug, Clone, Copy, PartialEq, Eq, Structural)]
pub struct SquareLayout {
    /// Tile width, in character cells.
    pub w: i32,
    /// Tile height, in character cells.
    pub h: i32,
}

impl SquareLayout {
    /// Whether both tile dimensions are positive.
    pub open spec fn wf(self) -> bool {
        self.w > 0 && self.h > 0
    }

    /// One tile per character cell: the classic terminal roguelike map.
    pub fn fine() -> (l: Self)
        ensures
            l.w == 1 && l.h == 1,
    {
        SquareLayout { w: 1, h: 1 }
    }

    /// 8x4 cells per tile, roughly square on screen at the usual 1:2
    /// character aspect.
    pub fn chunky() -> (l: Self)
        ensures
            l.w == 8 && l.h == 4,
    {
        SquareLayout { w: 8, h: 4 }
    }

    /// 4x2 cells: half of [`chunky`](Self::chunky).
    pub fn medium() -> (l: Self)
        ensures
            l.w == 4 && l.h == 2,
    {
        SquareLayout { w: 4, h: 2 }
    }

    /// A layout with the given (positive) tile size in cells.
    pub fn new(w: i32, h: i32) -> (l: Self)
        requires
            w > 0 && h > 0,
        ensures
            l.w == w && l.h == h,
            l.wf(),
    {
        SquareLayout { w, h }
    }

    /// Top-left cell of `tile`, relative to the tile grid's origin.
    pub fn tile_to_cell(self, tile: Tile) -> (c: Cell)
        requires
            fits(tile.col * self.w),
            fits(tile.row * self.h),
        ensures
            c.x == tile.col * self.w,
            c.y == tile.row * self.h,
    {
        Cell::new(tile.col * self.w, tile.row * self.h)
    }

    /// The tile containing `cell`, by Euclidean division, so cells left of or
    /// above the origin map to the tile that visually contains them.
    pub fn cell_to_tile(self, cell: Cell) -> (t: Tile)
        requires
            self.wf(),
        ensures
            t.col == cell.x as int / self.w as int,
            t.row == cell.y as int / self.h as int,
    {
        Tile::new(div_euclid(cell.x, self.w), div_euclid(cell.y, self.h))
    }

    /// Position of `cell` within its tile, as `(dx, dy)` in `0..w`, `0..h`.
    pub fn cell_within(self, cell: Cell) -> (d: (i32, i32))
        requires
            self.wf(),
        ensures
            d.0 == cell.x as int % self.w as int,
            d.1 == cell.y as int % self.h as int,
    {
        (rem_euclid(cell.x, self.w), rem_euclid(cell.y, self.h))
    }

    /// How many whole tiles fit in a `cols` x `rows` viewport.
    pub fn tiles_visible(self, cols: u16, rows: u16) -> (n: (i32, i32))
        requires
            self.wf(),
        ensures
            n.0 == cols as int / self.w as int,
            n.1 == rows as int / self.h as int,
    {
        (div_euclid(cols as i32, self.w), div_euclid(rows as i32, self.h))
    }
}

/// Every tile's top-left cell maps back to that tile.
pub proof fn lemma_square_round_trip(layout: SquareLayout, tile: Tile)
    requires
        layout.wf(),
    ensures
        (tile.col * layout.w) / (layout.w as int) == tile.col,
        (tile.row * layout.h) / (layout.h as int) == tile.row,
{
    vstd::arithmetic::div_mod::lemma_div_multiples_vanish(tile.col as int, layout.w as int);
    vstd::arithmetic::div_mod::lemma_div_multiples_vanish(tile.row as int, layout.h as int);
    assert(tile.col * layout.w == layout.w * tile.col) by (nonlinear_arith);
    assert(tile.row * layout.h == layout.h * tile.row) by (nonlinear_arith);
}

/// Every cell of a tile's `w` x `h` block maps back to that tile, at the
/// offset it lies at within the block.
pub proof fn lemma_square_block(layout: SquareLayout, tile: Tile, dx: int, dy: int)
    requires
        layout.wf(),
        0 <= dx < layout.w,
        0 <= dy < layout.h,
    ensures
        (tile.col * layout.w + dx) / (layout.w as int) == tile.col,
        (tile.row * layout.h + dy) / (layout.h as int) == tile.row,
        (tile.col * layout.w + dx) % (layout.w as int) == dx,
        (tile.row * layout.h + dy) % (layout.h as int) == dy,
{
    vstd::arithmetic::div_mod::lemma_fundamental_div_mod_converse(
        tile.col * layout.w + dx, layout.w as int, tile.col as int, dx);
    vstd::arithmetic::div_mod::lemma_fundamental_div_mod_converse(
        tile.row * layout.h + dy, layout.h as int, tile.row as int, dy);
    assert(tile.col * layout.w == layout.w * tile.col) by (nonlinear_arith);
    assert(tile.row * layout.h == layout.h * tile.row) by (nonlinear_arith);
}

// ── Isometric ───────────────────────────────────────────────────────────────

/// A diamond (rotated-square) isometric grid of tiles `2 * half_w` cells wide
/// and `2 * half_h` cells tall. One step along `+col` goes right and down on
/// screen, one step along `+row` goes left and down.
#[derive(Debug, Clone, Copy, PartialEq, Eq, Structural)]
pub struct IsoLayout {
    /// Half the diamond's width, in cells.
    pub half_w: i32,
    /// Half the diamond's height, in cells.
    pub half_h: i32,
}

/// Absolute value.
pub open spec fn abs(v: int) -> int {
    if v < 0 { -v } else { v }
}

/// The half-width of a `half_w` x `half_h` diamond at vertical offset `dy`
/// from its center, or `None` past its tips.
pub open spec fn diamond_span(half_w: int, half_h: int, dy: int) -> Option<int> {
    if abs(dy) > half_h {
        None
    } else {
        Some(half_w * (half_h - abs(dy)) / half_h)
    }
}

impl IsoLayout {
    /// Whether both half-extents are positive, and their product (a
    /// quarter of the diamond's bounding box) fits in an `i32`.
    pub open spec fn wf(self) -> bool {
        self.half_w > 0 && self.half_h > 0 && self.half_w * self.half_h <= i32::MAX
    }

    /// 8x2 cells per diamond: the standard, readable isometric tile.
    pub fn standard() -> (l: Self)
        ensures
            l.half_w == 4 && l.half_h == 1,
    {
        IsoLayout { half_w: 4, half_h: 1 }
    }

    /// 4x2 cells per diamond, for dense maps.
    pub fn small() -> (l: Self)
        ensures
            l.half_w == 2 && l.half_h == 1,
    {
        IsoLayout { half_w: 2, half_h: 1 }
    }

    /// 16x4 cells per diamond: a chunky, close-up view.
    pub fn large() -> (l: Self)
        ensures
            l.half_w == 8 && l.half_h == 2,
    {
        IsoLayout { half_w: 8, half_h: 2 }
    }

    /// A layout with the given (positive) half-extents.
    pub fn new(half_w: i32, half_h: i32) -> (l: Self)
        requires
            half_w > 0 && half_h > 0,
        ensures
            l.half_w == half_w && l.half_h == half_h,
    {
        IsoLayout { half_w, half_h }
    }

    /// Full diamond width in cells.
    pub fn width(self) -> (w: i32)
        requires
            fits(self.half_w * 2),
        ensures
            w == self.half_w * 2,
    {
        self.half_w * 2
    }

    /// Full diamond height in cells.
    pub fn height(self) -> (h: i32)
        requires
            fits(self.half_h * 2),
        ensures
            h == self.half_h * 2,
    {
        self.half_h * 2
    }

    /// Whether projecting `tile` stays within `i32`.
    pub open spec fn projects(self, tile: Tile) -> bool {
        &&& fits(tile.col - tile.row)
        &&& fits(tile.col + tile.row)
        &&& fits((tile.col - tile.row) * self.half_w)
        &&& fits((tile.col + tile.row) * self.half_h)
    }

    /// Center cell of `tile`, before any elevation offset:
    /// `((col - row) * half_w, (col + row) * half_h)`.
    pub fn tile_to_cell(self, tile: Tile) -> (c: Cell)
        requires
            self.projects(tile),
        ensures
            c.x == (tile.col - tile.row) * self.half_w,
            c.y == (tile.col + tile.row) * self.half_h,
    {
        Cell::new((tile.col - tile.row) * self.half_w, (tile.col + tile.row) * self.half_h)
    }

    /// Center cell of `tile` raised by `elevation` levels of `per_level`
    /// rows each.
    pub fn tile_to_cell_elevated(self, tile: Tile, elevation: i32, per_level: i32) -> (c: Cell)
        requires
            self.projects(tile),
            fits(elevation * per_level),
            fits((tile.col + tile.row) * self.half_h - elevation * per_level),
        ensures
            c.x == (tile.col - tile.row) * self.half_w,
            c.y == (tile.col + tile.row) * self.half_h - elevation * per_level,
    {
        let base = self.tile_to_cell(tile);
        Cell::new(base.x, base.y - elevation * per_level)
    }

    /// Painter's-algorithm sort key: `col + row`, drawn in ascending order.
    pub fn depth(tile: Tile) -> (d: i32)
        requires
            fits(tile.col + tile.row),
        ensures
            d == tile.col + tile.row,
    {
        tile.col + tile.row
    }

    /// Whether picking `cell` stays within `i32`.
    pub open spec fn picks(self, cell: Cell) -> bool {
        &&& fits(2 * self.half_w * self.half_h)
        &&& fits(cell.x * self.half_h)
        &&& fits(cell.y * self.half_w)
        &&& fits(cell.x * self.half_h + cell.y * self.half_w)
        &&& fits(cell.y * self.half_w - cell.x * self.half_h)
        &&& fits(cell.x * self.half_h + cell.y * self.half_w + self.half_w * self.half_h)
        &&& fits(cell.y * self.half_w - cell.x * self.half_h + self.half_w * self.half_h)
    }

    /// The tile whose diamond contains `cell`. In doubled integer space the
    /// centre-relative coordinates are rounded to the nearest tile:
    /// `col = floor((x*hh + y*hw + hw*hh) / (2*hw*hh))` and
    /// `row = floor((y*hw - x*hh + hw*hh) / (2*hw*hh))`. A cell strictly
    /// inside a diamond picks that diamond's tile
    /// ([`lemma_iso_pick_inside`]), and every cell picks a tile whose
    /// diamond contains it ([`lemma_iso_pick_contains`]); a cell on the
    /// shared edge of two diamonds goes to the one below or to the right.
    pub fn cell_to_tile(self, cell: Cell) -> (t: Tile)
        requires
            self.wf(),
            self.picks(cell),
        ensures
            t.col == iso_pick(self.half_w as int, self.half_h as int, cell.x as int, cell.y as int).0,
            t.row == iso_pick(self.half_w as int, self.half_h as int, cell.x as int, cell.y as int).1,
    {
        proof {
            assert(2 * self.half_w <= 2 * self.half_w * self.half_h) by (nonlinear_arith)
                requires self.half_w > 0, self.half_h > 0;
        }
        let area = self.half_w * self.half_h;
        proof {
            assert(2 * area == 2 * self.half_w * self.half_h && area > 0) by (nonlinear_arith)
                requires area == self.half_w * self.half_h, self.half_w > 0, self.half_h > 0;
        }
        let denom = 2 * area;
        let col_num = cell.x * self.half_h + cell.y * self.half_w + area;
        let row_num = cell.y * self.half_w - cell.x * self.half_h + area;
        Tile::new(div_euclid(col_num, denom), div_euclid(row_num, denom))
    }

    /// Half-width of the diamond at vertical offset `dy` from its center, or
    /// `None` if that row is entirely outside the diamond. The tip rows give
    /// `Some(0)`: one cell on the spine.
    pub fn span_at(self, dy: i32) -> (s: Option<i32>)
        requires
            self.wf(),
            dy != i32::MIN,
        ensures
            s == (match diamond_span(self.half_w as int, self.half_h as int, dy as int) {
                Some(v) => Some(v as i32),
                None => None,
            }),
            diamond_span(self.half_w as int, self.half_h as int, dy as int) matches Some(v)
                ==> 0 <= v <= self.half_w,
    {
        let from_center = if dy < 0 { -dy } else { dy };
        if from_center > self.half_h {
            return None;
        }
        proof {
            assert(0 <= self.half_w * (self.half_h - from_center) <= self.half_w * self.half_h) by (nonlinear_arith)
                requires self.half_w > 0, 0 <= self.half_h - from_center <= self.half_h;
            assert(self.half_w * self.half_h <= 2 * self.half_w * self.half_h) by (nonlinear_arith)
                requires self.half_w > 0, self.half_h > 0;
            vstd::arithmetic::div_mod::lemma_div_is_ordered(
                self.half_w * (self.half_h - from_center), self.half_w * self.half_h, self.half_h as int);
            vstd::arithmetic::div_mod::lemma_div_multiples_vanish(self.half_w as int, self.half_h as int);
            assert(self.half_w * self.half_h == self.half_h * self.half_w) by (nonlinear_arith);
            vstd::arithmetic::div_mod::lemma_div_pos_is_pos(self.half_w * (self.half_h - from_center), self.half_h as int);
        }
        Some(div_euclid(self.half_w * (self.half_h - from_center), self.half_h))
    }

    /// Whether `(dx, dy)` relative to a tile's center is inside its diamond.
    pub fn contains(self, dx: i32, dy: i32) -> (b: bool)
        requires
            self.wf(),
            dx != i32::MIN,
            dy != i32::MIN,
        ensures
            b == (match diamond_span(self.half_w as int, self.half_h as int, dy as int) {
                Some(v) => abs(dx as int) <= v,
                None => false,
            }),
    {
        let adx = if dx < 0 { -dx } else { dx };
        let s = self.span_at(dy);
        match s {
            Some(span) => {
                proof {
                    let v = diamond_span(self.half_w as int, self.half_h as int, dy as int);
                    assert(v is Some);
                    assert(span == v->0 as i32);
                }
                adx <= span
            },
            None => false,
        }
    }
}

/// Whether the offset `(dx, dy)` from a tile's centre lies in its diamond
/// `|dx| / hw + |dy| / hh <= 1`, in integers.
pub open spec fn in_diamond(hw: int, hh: int, dx: int, dy: int) -> bool {
    hh * abs(dx) + hw * abs(dy) <= hw * hh
}

/// [`in_diamond`] is what [`IsoLayout::contains`] tests through the span of
/// the row.
pub proof fn lemma_in_diamond_span(hw: int, hh: int, dx: int, dy: int)
    requires
        hw > 0,
        hh > 0,
    ensures
        in_diamond(hw, hh, dx, dy) <==> (match diamond_span(hw, hh, dy) {
            Some(v) => abs(dx) <= v,
            None => false,
        }),
{
    let ax = abs(dx);
    let ay = abs(dy);
    if ay > hh {
        assert(hw * ay > hw * hh) by (nonlinear_arith) requires hw > 0, ay > hh;
        assert(hh * ax >= 0) by (nonlinear_arith) requires hh > 0, ax >= 0;
    } else {
        let n = hw * (hh - ay);
        assert(n == hw * hh - hw * ay) by (nonlinear_arith) requires n == hw * (hh - ay);
        vstd::arithmetic::div_mod::lemma_fundamental_div_mod(n, hh);
        vstd::arithmetic::div_mod::lemma_mod_bound(n, hh);
        let q = n / hh;
        let m = n % hh;
        assert(ax <= q <==> hh * ax <= n) by (nonlinear_arith)
            requires n == hh * q + m, 0 <= m < hh, hh > 0;
    }
}

/// Where [`IsoLayout::cell_to_tile`] sends the cell `(x, y)`.
pub open spec fn iso_pick(hw: int, hh: int, x: int, y: int) -> (int, int) {
    ((x * hh + y * hw + hw * hh) / (2 * hw * hh), (y * hw - x * hh + hw * hh) / (2 * hw * hh))
}

/// A cell strictly inside a tile's diamond picks that tile; in particular
/// the centre cell of every tile maps back to it.
pub proof fn lemma_iso_pick_inside(layout: IsoLayout, col: int, row: int, dx: int, dy: int)
    requires
        layout.wf(),
        layout.half_h * abs(dx) + layout.half_w * abs(dy) < layout.half_w * layout.half_h,
    ensures
        iso_pick(layout.half_w as int, layout.half_h as int, (col - row) * layout.half_w + dx,
            (col + row) * layout.half_h + dy) == (col, row),
{
    let hw = layout.half_w as int;
    let hh = layout.half_h as int;
    let x = (col - row) * hw + dx;
    let y = (col + row) * hh + dy;
    let a = hw * hh;
    let d = 2 * a;
    let u = dx * hh + dy * hw;
    let v = dy * hw - dx * hh;
    assert(2 * hw * hh == d) by (nonlinear_arith) requires a == hw * hh, d == 2 * a;
    assert(x * hh + y * hw + a == col * d + (u + a)) by (nonlinear_arith)
        requires x == (col - row) * hw + dx, y == (col + row) * hh + dy, a == hw * hh, d == 2 * a,
            u == dx * hh + dy * hw;
    assert(y * hw - x * hh + a == row * d + (v + a)) by (nonlinear_arith)
        requires x == (col - row) * hw + dx, y == (col + row) * hh + dy, a == hw * hh, d == 2 * a,
            v == dy * hw - dx * hh;
    let ax = abs(dx);
    let ay = abs(dy);
    assert(-(hh * ax) <= dx * hh <= hh * ax) by (nonlinear_arith)
        requires ax == abs(dx), hh > 0, ax == dx || ax == -dx, ax >= 0;
    assert(-(hw * ay) <= dy * hw <= hw * ay) by (nonlinear_arith)
        requires ay == abs(dy), hw > 0, ay == dy || ay == -dy, ay >= 0;
    vstd::arithmetic::div_mod::lemma_fundamental_div_mod_converse(x * hh + y * hw + a, d, col, u + a);
    vstd::arithmetic::div_mod::lemma_fundamental_div_mod_converse(y * hw - x * hh + a, d, row, v + a);
}

/// Every cell picks a tile whose diamond contains it: the offset from the
/// picked tile's centre is in the diamond, so the cell is never resolved to
/// a tile whose diamond misses it.
pub proof fn lemma_iso_pick_contains(layout: IsoLayout, x: int, y: int)
    requires
        layout.wf(),
    ensures
        ({
            let hw = layout.half_w as int;
            let hh = layout.half_h as int;
            let t = iso_pick(hw, hh, x, y);
            in_diamond(hw, hh, x - (t.0 - t.1) * hw, y - (t.0 + t.1) * hh)
        }),
{
    let hw = layout.half_w as int;
    let hh = layout.half_h as int;
    let a = hw * hh;
    let d = 2 * a;
    assert(d > 0) by (nonlinear_arith) requires hw > 0, hh > 0, a == hw * hh, d == 2 * a;
    assert(2 * hw * hh == d) by (nonlinear_arith) requires a == hw * hh, d == 2 * a;
    let na = x * hh + y * hw + a;
    let nb = y * hw - x * hh + a;
    vstd::arithmetic::div_mod::lemma_fundamental_div_mod(na, d);
    vstd::arithmetic::div_mod::lemma_fundamental_div_mod(nb, d);
    vstd::arithmetic::div_mod::lemma_mod_bound(na, d);
    vstd::arithmetic::div_mod::lemma_mod_bound(nb, d);
    let c = na / d;
    let r = nb / d;
    let ra = na % d;
    let rb = nb % d;
    let dx = x - (c - r) * hw;
    let dy = y - (c + r) * hh;
    assert(dx * hh + dy * hw == ra - a) by (nonlinear_arith)
        requires na == d * c + ra, nb == d * r + rb, na == x * hh + y * hw + a, a == hw * hh, d == 2 * a,
            dx == x - (c - r) * hw, dy == y - (c + r) * hh;
    assert(dy * hw - dx * hh == rb - a) by (nonlinear_arith)
        requires na == d * c + ra, nb == d * r + rb, nb == y * hw - x * hh + a, a == hw * hh, d == 2 * a,
            dx == x - (c - r) * hw, dy == y - (c + r) * hh;
    let u = dx * hh + dy * hw;
    let v = dy * hw - dx * hh;
    assert(-a <= u < a && -a <= v < a);
    if dx >= 0 {
        assert(hh * abs(dx) == dx * hh) by (nonlinear_arith) requires dx >= 0;
    } else {
        assert(hh * abs(dx) == -(dx * hh)) by (nonlinear_arith) requires dx < 0;
    }
    if dy >= 0 {
        assert(hw * abs(dy) == dy * hw) by (nonlinear_arith) requires dy >= 0;
    } else {
        assert(hw * abs(dy) == -(dy * hw)) by (nonlinear_arith) requires dy < 0;
    }
    assert(iso_pick(hw, hh, x, y) == (c, r));
}

/// The diamond is widest at its center row, one cell at its tips, nothing
/// beyond them, symmetric about the center row, and narrows strictly row by
/// row away from the center.
pub proof fn lemma_iso_span_shape(layout: IsoLayout, dy: int)
    requires
        layout.wf(),
        0 < dy <= layout.half_h,
    ensures
        diamond_span(layout.half_w as int, layout.half_h as int, 0) == Some(layout.half_w as int),
        diamond_span(layout.half_w as int, layout.half_h as int, layout.half_h as int) == Some(0int),
        diamond_span(layout.half_w as int, layout.half_h as int, layout.half_h + 1) == None::<int>,
        diamond_span(layout.half_w as int, layout.half_h as int, dy)
            == diamond_span(layout.half_w as int, layout.half_h as int, -dy),
        layout.half_w >= layout.half_h ==> diamond_span(layout.half_w as int, layout.half_h as int, dy)->0
            < diamond_span(layout.half_w as int, layout.half_h as int, dy - 1)->0,
{
    let hw = layout.half_w as int;
    let hh = layout.half_h as int;
    vstd::arithmetic::div_mod::lemma_div_multiples_vanish(hw, hh);
    assert(hw * (hh - 0) == hh * hw) by (nonlinear_arith);
    assert(hw * (hh - hh) == 0) by (nonlinear_arith);
    if hw >= hh {
        let lo = hw * (hh - dy);
        let hi = hw * (hh - dy + 1);
        assert(hi == lo + hw) by (nonlinear_arith) requires lo == hw * (hh - dy), hi == hw * (hh - dy + 1);
        assert(lo / hh < hi / hh) by {
            vstd::arithmetic::div_mod::lemma_fundamental_div_mod(lo, hh);
            vstd::arithmetic::div_mod::lemma_fundamental_div_mod(hi, hh);
            vstd::arithmetic::div_mod::lemma_mod_bound(lo, hh);
            vstd::arithmetic::div_mod::lemma_mod_bound(hi, hh);
            assert(lo / hh < hi / hh) by (nonlinear_arith)
                requires
                    lo == hh * (lo / hh) + lo % hh,
                    hi == hh * (hi / hh) + hi % hh,
                    0 <= lo % hh < hh,
                    0 <= hi % hh < hh,
                    hi == lo + hw,
                    hw >= hh,
                    hh > 0,
            ;
        }
    }
}

// ── Staggered ───────────────────────────────────────────────────────────────

/// A staggered isometric grid: rows of tiles where odd rows are shifted half
/// a tile right, filling a rectangular map area.
#[derive(Debug, Clone, Copy, PartialEq, Eq, Structural)]
pub struct StaggeredLayout {
    /// Tile width, in cells.
    pub w: i32,
    /// Vertical pitch between rows, in cells.
    pub row_h: i32,
}

/// The horizontal shift of `row` in a staggered layout of tile width `w`.
pub open spec fn row_stagger(w: int, row: int) -> int {
    if row % 2 == 1 { w / 2 } else { 0 }
}

impl StaggeredLayout {
    /// Positive sizes and an even tile width.
    pub open spec fn wf(self) -> bool {
        self.w > 0 && self.row_h > 0 && self.w % 2 == 0
    }

    /// 8-wide tiles on a 2-cell row pitch.
    pub fn standard() -> (l: Self)
        ensures
            l.w == 8 && l.row_h == 2,
    {
        StaggeredLayout { w: 8, row_h: 2 }
    }

    /// 4-wide tiles on a 1-cell row pitch, for dense maps.
    pub fn small() -> (l: Self)
        ensures
            l.w == 4 && l.row_h == 1,
    {
        StaggeredLayout { w: 4, row_h: 1 }
    }

    /// A layout with the given tile width and row pitch: both positive, and
    /// the width even so that a row shifts by exactly half a tile.
    pub fn new(w: i32, row_h: i32) -> (l: Self)
        requires
            w > 0 && row_h > 0,
            w % 2 == 0,
        ensures
            l.w == w && l.row_h == row_h,
            l.wf(),
    {
        StaggeredLayout { w, row_h }
    }

    /// Horizontal shift of `row`: half a tile on odd rows (above the origin
    /// too), zero on even.
    pub fn stagger(self, row: i32) -> (s: i32)
        requires
            self.wf(),
        ensures
            s == row_stagger(self.w as int, row as int),
    {
        if rem_euclid(row, 2) == 1 {
            div_euclid(self.w, 2)
        } else {
            0
        }
    }

    /// Top-left cell of `tile`.
    pub fn tile_to_cell(self, tile: Tile) -> (c: Cell)
        requires
            self.wf(),
            fits(tile.col * self.w),
            fits(tile.col * self.w + row_stagger(self.w as int, tile.row as int)),
            fits(tile.row * self.row_h),
        ensures
            c.x == tile.col * self.w + row_stagger(self.w as int, tile.row as int),
            c.y == tile.row * self.row_h,
    {
        Cell::new(tile.col * self.w + self.stagger(tile.row), tile.row * self.row_h)
    }

    /// The tile containing `cell`: the row by Euclidean division, then the
    /// column with that row's stagger backed out.
    pub fn cell_to_tile(self, cell: Cell) -> (t: Tile)
        requires
            self.wf(),
            fits(cell.x - row_stagger(self.w as int, cell.y as int / self.row_h as int)),
        ensures
            t.row == cell.y as int / self.row_h as int,
            t.col == (cell.x - row_stagger(self.w as int, t.row as int)) / (self.w as int),
    {
        let row = div_euclid(cell.y, self.row_h);
        let col = div_euclid(cell.x - self.stagger(row), self.w);
        Tile::new(col, row)
    }
}

/// Picking inverts projection for a staggered layout.
pub proof fn lemma_staggered_round_trip(layout: StaggeredLayout, tile: Tile)
    requires
        layout.wf(),
    ensures
        ({
            let x = tile.col * layout.w + row_stagger(layout.w as int, tile.row as int);
            let y = tile.row * layout.row_h;
            &&& y / (layout.row_h as int) == tile.row
            &&& (x - row_stagger(layout.w as int, tile.row as int)) / (layout.w as int) == tile.col
        }),
{
    lemma_square_round_trip(SquareLayout { w: layout.w, h: layout.row_h }, tile);
}

} // verus!
