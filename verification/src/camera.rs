//! A panning viewport over a tile map.
//!
//! The camera works in *cells* (so a pan can stop part way through a tile)
//! and hands back the tile range to draw, leaving the projection itself to
//! [`geom`](crate::geom).

use vstd::prelude::*;

use crate::autotile::half_toward_zero;
use crate::geom::{div_euclid, fits, Cell};

verus! {

/// A viewport over a tile map, positioned by the cell its top-left corner
/// shows.
#[derive(Debug, Clone, Copy, PartialEq, Eq, Structural)]
pub struct TileCamera {
    /// Cell coordinate shown at the viewport's top-left corner.
    origin: Cell,
    /// Viewport width, in cells; at least 1.
    view_w: i32,
    /// Viewport height, in cells; at least 1.
    view_h: i32,
    /// Map width, in cells. Zero means unbounded (no clamping).
    world_w: i32,
    /// Map height, in cells. Zero means unbounded (no clamping).
    world_h: i32,
}

/// `v` limited to `lo..=hi`.
pub open spec fn clamp(v: int, lo: int, hi: int) -> int {
    if v < lo { lo } else if v > hi { hi } else { v }
}

/// Where one axis of the origin ends up after clamping: unchanged on an
/// unbounded axis; centered (halved toward zero) when the view is larger
/// than the world; otherwise held within `0..=world - view`.
pub open spec fn clamp_axis(origin: int, view: int, world: int) -> int {
    if world > 0 {
        let max = world - view;
        if max < 0 { half_toward_zero(max) } else { clamp(origin, 0, max) }
    } else {
        origin
    }
}

/// A requested viewport extent, with non-positive sizes raised to 1.
pub open spec fn view_extent(v: int) -> int {
    if v > 0 { v } else { 1 }
}

/// A requested world extent, with non-positive sizes meaning unbounded (0).
pub open spec fn world_extent(v: int) -> int {
    if v > 0 { v } else { 0 }
}

impl TileCamera {
    /// The cell at the viewport's top-left corner.
    pub closed spec fn spec_origin(&self) -> Cell {
        self.origin
    }

    /// Viewport size in cells.
    pub closed spec fn spec_view(&self) -> (int, int) {
        (self.view_w as int, self.view_h as int)
    }

    /// World size in cells; 0 on an unbounded axis.
    pub closed spec fn spec_world(&self) -> (int, int) {
        (self.world_w as int, self.world_h as int)
    }

    /// The viewport is never empty and the world extents are never negative.
    pub open spec fn wf(&self) -> bool {
        &&& self.spec_view().0 >= 1 && self.spec_view().1 >= 1
        &&& self.spec_world().0 >= 0 && self.spec_world().1 >= 0
    }

    /// Whether the origin is where clamping would put it.
    pub open spec fn clamped(&self) -> bool {
        &&& self.spec_origin().x == clamp_axis(self.spec_origin().x as int, self.spec_view().0, self.spec_world().0)
        &&& self.spec_origin().y == clamp_axis(self.spec_origin().y as int, self.spec_view().1, self.spec_world().1)
    }

    /// A camera over a `world_w` x `world_h` cell map (non-positive means
    /// unbounded), showing `view_w` x `view_h` cells (raised to at least 1),
    /// positioned at the origin.
    pub fn new(view_w: i32, view_h: i32, world_w: i32, world_h: i32) -> (c: Self)
        ensures
            c.wf(),
            c.spec_origin() == (Cell { x: 0, y: 0 }),
            c.spec_view() == (view_extent(view_w as int), view_extent(view_h as int)),
            c.spec_world() == (world_extent(world_w as int), world_extent(world_h as int)),
    {
        TileCamera {
            origin: Cell::new(0, 0),
            view_w: if view_w > 0 { view_w } else { 1 },
            view_h: if view_h > 0 { view_h } else { 1 },
            world_w: if world_w > 0 { world_w } else { 0 },
            world_h: if world_h > 0 { world_h } else { 0 },
        }
    }

    /// An unbounded camera, which never clamps.
    pub fn unbounded(view_w: i32, view_h: i32) -> (c: Self)
        ensures
            c.wf(),
            c.spec_origin() == (Cell { x: 0, y: 0 }),
            c.spec_view() == (view_extent(view_w as int), view_extent(view_h as int)),
            c.spec_world() == (0int, 0int),
    {
        Self::new(view_w, view_h, 0, 0)
    }

    /// The cell at the viewport's top-left corner.
    pub fn origin(&self) -> (o: Cell)
        ensures
            o == self.spec_origin(),
    {
        self.origin
    }

    /// Viewport size in cells.
    pub fn viewport(&self) -> (v: (i32, i32))
        ensures
            (v.0 as int, v.1 as int) == self.spec_view(),
    {
        (self.view_w, self.view_h)
    }

    /// Clamps the origin so the viewport stays over the map, centering the
    /// map when the viewport is larger than it.
    fn clamp(&mut self)
        requires
            old(self).wf(),
        ensures
            final(self).wf(),
            final(self).spec_view() == old(self).spec_view(),
            final(self).spec_world() == old(self).spec_world(),
            final(self).spec_origin().x == clamp_axis(old(self).spec_origin().x as int, old(self).spec_view().0, old(self).spec_world().0),
            final(self).spec_origin().y == clamp_axis(old(self).spec_origin().y as int, old(self).spec_view().1, old(self).spec_world().1),
    {
        if self.world_w > 0 {
            let max = self.world_w - self.view_w;
            self.origin.x = if max < 0 { half_to_zero(max) } else { clamp_i32(self.origin.x, 0, max) };
        }
        if self.world_h > 0 {
            let max = self.world_h - self.view_h;
            self.origin.y = if max < 0 { half_to_zero(max) } else { clamp_i32(self.origin.y, 0, max) };
        }
    }

    /// Resizes the viewport (non-positive sizes become 1), re-clamping the
    /// origin so a shrink can't leave the camera pointing past the map edge.
    pub fn set_viewport(&mut self, view_w: i32, view_h: i32)
        requires
            old(self).wf(),
        ensures
            final(self).wf(),
            final(self).spec_view() == (view_extent(view_w as int), view_extent(view_h as int)),
            final(self).spec_world() == old(self).spec_world(),
            final(self).spec_origin().x == clamp_axis(old(self).spec_origin().x as int, view_extent(view_w as int), old(self).spec_world().0),
            final(self).spec_origin().y == clamp_axis(old(self).spec_origin().y as int, view_extent(view_h as int), old(self).spec_world().1),
    {
        self.view_w = if view_w > 0 { view_w } else { 1 };
        self.view_h = if view_h > 0 { view_h } else { 1 };
        self.clamp();
    }

    /// Replaces the world extent (non-positive means unbounded), re-clamping
    /// the origin.
    pub fn set_world(&mut self, world_w: i32, world_h: i32)
        requires
            old(self).wf(),
        ensures
            final(self).wf(),
            final(self).spec_view() == old(self).spec_view(),
            final(self).spec_world() == (world_extent(world_w as int), world_extent(world_h as int)),
            final(self).spec_origin().x == clamp_axis(old(self).spec_origin().x as int, old(self).spec_view().0, world_extent(world_w as int)),
            final(self).spec_origin().y == clamp_axis(old(self).spec_origin().y as int, old(self).spec_view().1, world_extent(world_h as int)),
    {
        self.world_w = if world_w > 0 { world_w } else { 0 };
        self.world_h = if world_h > 0 { world_h } else { 0 };
        self.clamp();
    }

    /// Moves the viewport by `(dx, dy)` cells, then clamps.
    pub fn pan(&mut self, dx: i32, dy: i32)
        requires
            old(self).wf(),
            fits(old(self).spec_origin().x + dx),
            fits(old(self).spec_origin().y + dy),
        ensures
            final(self).wf(),
            final(self).spec_view() == old(self).spec_view(),
            final(self).spec_world() == old(self).spec_world(),
            final(self).spec_origin().x == clamp_axis(old(self).spec_origin().x + dx, old(self).spec_view().0, old(self).spec_world().0),
            final(self).spec_origin().y == clamp_axis(old(self).spec_origin().y + dy, old(self).spec_view().1, old(self).spec_world().1),
    {
        self.origin = Cell::new(self.origin.x + dx, self.origin.y + dy);
        self.clamp();
    }

    /// Jumps so that `cell` is at the viewport's center (half the viewport,
    /// rounded down, up and left of it), then clamps.
    pub fn center_on(&mut self, cell: Cell)
        requires
            old(self).wf(),
            fits(cell.x - old(self).spec_view().0 / 2),
            fits(cell.y - old(self).spec_view().1 / 2),
        ensures
            final(self).wf(),
            final(self).spec_view() == old(self).spec_view(),
            final(self).spec_world() == old(self).spec_world(),
            final(self).spec_origin().x == clamp_axis(cell.x - old(self).spec_view().0 / 2, old(self).spec_view().0, old(self).spec_world().0),
            final(self).spec_origin().y == clamp_axis(cell.y - old(self).spec_view().1 / 2, old(self).spec_view().1, old(self).spec_world().1),
    {
        self.origin = Cell::new(cell.x - self.view_w / 2, cell.y - self.view_h / 2);
        self.clamp();
    }

    /// Converts a world cell to a viewport-relative cell; always succeeds,
    /// including for cells outside the viewport.
    pub fn world_to_screen(&self, cell: Cell) -> (s: Cell)
        requires
            fits(cell.x - self.spec_origin().x),
            fits(cell.y - self.spec_origin().y),
        ensures
            s.x == cell.x - self.spec_origin().x,
            s.y == cell.y - self.spec_origin().y,
    {
        Cell::new(cell.x - self.origin.x, cell.y - self.origin.y)
    }

    /// Converts a viewport-relative cell back to a world cell.
    pub fn screen_to_world(&self, cell: Cell) -> (w: Cell)
        requires
            fits(cell.x + self.spec_origin().x),
            fits(cell.y + self.spec_origin().y),
        ensures
            w.x == cell.x + self.spec_origin().x,
            w.y == cell.y + self.spec_origin().y,
    {
        Cell::new(cell.x + self.origin.x, cell.y + self.origin.y)
    }

    /// Whether a viewport-relative cell is actually on screen.
    pub fn on_screen(&self, cell: Cell) -> (b: bool)
        ensures
            b == (0 <= cell.x < self.spec_view().0 && 0 <= cell.y < self.spec_view().1),
    {
        cell.x >= 0 && cell.y >= 0 && cell.x < self.view_w && cell.y < self.view_h
    }

    /// The inclusive world-cell bounds the viewport currently shows, as
    /// `(left, top, right, bottom)`.
    pub fn visible_cells(&self) -> (b: (i32, i32, i32, i32))
        requires
            self.wf(),
            fits(self.spec_origin().x + self.spec_view().0),
            fits(self.spec_origin().y + self.spec_view().1),
        ensures
            b.0 == self.spec_origin().x,
            b.1 == self.spec_origin().y,
            b.2 == self.spec_origin().x + self.spec_view().0 - 1,
            b.3 == self.spec_origin().y + self.spec_view().1 - 1,
    {
        (self.origin.x, self.origin.y, self.origin.x + self.view_w - 1, self.origin.y + self.view_h - 1)
    }

    /// The half-open tile range to draw, `(col_start, row_start, col_end,
    /// row_end)`, padded by one tile before and one past the viewport's far
    /// edge tile, for tiles of `tile_w` x `tile_h` cells; all zero for a
    /// non-positive tile size.
    pub fn visible_tiles(&self, tile_w: i32, tile_h: i32) -> (t: (i32, i32, i32, i32))
        requires
            fits(self.spec_origin().x + self.spec_view().0),
            fits(self.spec_origin().y + self.spec_view().1),
            tile_w > 0 && tile_h > 0 ==> {
                &&& fits(self.spec_origin().x as int / tile_w as int - 1)
                &&& fits(self.spec_origin().y as int / tile_h as int - 1)
                &&& fits((self.spec_origin().x + self.spec_view().0) / (tile_w as int) + 2)
                &&& fits((self.spec_origin().y + self.spec_view().1) / (tile_h as int) + 2)
            },
        ensures
            tile_w <= 0 || tile_h <= 0 ==> t == (0i32, 0i32, 0i32, 0i32),
            tile_w > 0 && tile_h > 0 ==> {
                &&& t.0 == self.spec_origin().x as int / tile_w as int - 1
                &&& t.1 == self.spec_origin().y as int / tile_h as int - 1
                &&& t.2 == (self.spec_origin().x + self.spec_view().0) / (tile_w as int) + 2
                &&& t.3 == (self.spec_origin().y + self.spec_view().1) / (tile_h as int) + 2
            },
    {
        if tile_w <= 0 || tile_h <= 0 {
            return (0, 0, 0, 0);
        }
        let col_start = div_euclid(self.origin.x, tile_w) - 1;
        let row_start = div_euclid(self.origin.y, tile_h) - 1;
        let col_end = div_euclid(self.origin.x + self.view_w, tile_w) + 2;
        let row_end = div_euclid(self.origin.y + self.view_h, tile_h) + 2;
        (col_start, row_start, col_end, row_end)
    }
}

/// `v` halved toward zero.
fn half_to_zero(v: i32) -> (h: i32)
    ensures
        h == half_toward_zero(v as int),
{
    if v >= 0 { v / 2 } else { -((-(v as i64)) / 2) as i32 }
}

/// `v` limited to `lo..=hi`.
fn clamp_i32(v: i32, lo: i32, hi: i32) -> (c: i32)
    requires
        lo <= hi,
    ensures
        c == clamp(v as int, lo as int, hi as int),
{
    if v < lo {
        lo
    } else if v > hi {
        hi
    } else {
        v
    }
}

// ── Laws ────────────────────────────────────────────────────────────────────

/// Screen and world conversions undo each other.
pub proof fn lemma_screen_world_round_trip(origin: Cell, cell: Cell)
    ensures
        (cell.x + origin.x) - origin.x == cell.x,
        (cell.y + origin.y) - origin.y == cell.y,
        (cell.x - origin.x) + origin.x == cell.x,
        (cell.y - origin.y) + origin.y == cell.y,
{
}

/// Clamping keeps a bounded axis over the map: the viewport stays within
/// `0..=world - view` when it fits, and is centered on the map (the same
/// margin, halved toward zero, on both sides) when it does not; clamping a
/// clamped origin again changes nothing.
pub proof fn lemma_clamp_keeps_view_over_map(origin: int, view: int, world: int)
    requires
        view >= 1,
        world > 0,
    ensures
        world >= view ==> 0 <= clamp_axis(origin, view, world) <= world - view,
        world < view ==> {
            let o = clamp_axis(origin, view, world);
            &&& o <= 0
            &&& -o <= (o + view) - world <= -o + 1
        },
        clamp_axis(clamp_axis(origin, view, world), view, world) == clamp_axis(origin, view, world),
{
}

/// The padded tile range covers every tile a viewport cell lies in.
pub proof fn lemma_visible_tiles_cover(ox: int, view: int, tile: int, x: int)
    requires
        tile > 0,
        ox <= x < ox + view,
    ensures
        ox / tile - 1 <= x / tile < (ox + view) / tile + 2,
{
    vstd::arithmetic::div_mod::lemma_div_is_ordered(ox, x, tile);
    vstd::arithmetic::div_mod::lemma_div_is_ordered(x, ox + view, tile);
}

} // verus!
