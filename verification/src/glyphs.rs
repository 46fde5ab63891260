//! Glyph banks and sub-cell drawing: getting more resolution out of a
//! character grid than one pixel per cell.
//!
//! | Bank | Sub-cells | Colors | Font requirement |
//! | --- | --- | --- | --- |
//! | [`SHADE`] | 1 (density only) | 2 | CP437, universal |
//! | [`HalfBlockCanvas`] | 1x2 | 2 independent | Block elements |
//! | [`QuadrantCanvas`] | 2x2 | 2 shared | Block elements |
//! | [`SextantCanvas`] | 2x3 | 2 shared | Legacy computing symbols |
//! | [`BrailleCanvas`] | 2x4 | 1 | Braille (U+2800) |

use vstd::prelude::*;

pub mod marker;
pub mod subcell;
pub mod terrain;

pub use self::subcell::{HalfBlockCanvas, QuadrantCanvas, SextantCanvas, SubGlyph};

verus! {

/// Classic density ramp, sparse to solid.
pub const SHADE: [char; 5] = [' ', '░', '▒', '▓', '█'];

/// An ASCII-only brightness ramp, darkest first, ordered by ink coverage.
pub const ASCII_RAMP: [char; 10] = [' ', '.', ':', '-', '=', '+', '*', '#', '%', '@'];

/// The eight partial upper blocks, from empty to full.
pub const UPPER_EIGHTHS: [char; 9] = [' ', '▔', '▔', '▀', '▀', '▆', '▇', '█', '█'];

/// The eight partial left blocks, from empty to full.
pub const LEFT_EIGHTHS: [char; 9] = [' ', '▏', '▎', '▍', '▌', '▋', '▊', '▉', '█'];

// ── Braille ─────────────────────────────────────────────────────────────────

/// The base of the Braille Patterns block.
pub const BRAILLE_BASE: u32 = 0x2800;

/// Bit position of each of the 8 Braille dots, indexed `[x][y]`. Dots 1-6 run
/// down the left column then the right, and dots 7 and 8 were appended
/// underneath, so the bottom row is bits 6 and 7.
pub const BRAILLE_DOTS: [[u8; 4]; 2] = [[0, 1, 2, 6], [3, 4, 5, 7]];

/// The bit of dot `(x, y)` within its cell, for `x < 2`, `y < 4`.
pub open spec fn dot_bit(x: int, y: int) -> u8 {
    if x == 0 {
        if y == 0 { 0 } else if y == 1 { 1 } else if y == 2 { 2 } else { 6 }
    } else {
        if y == 0 { 3 } else if y == 1 { 4 } else if y == 2 { 5 } else { 7 }
    }
}

/// `2^b` as a byte, for `b < 8`.
pub open spec fn bit_mask(b: u8) -> u8 {
    (1u8 << b) as u8
}

/// Calls `char::from_u32`: `Some` of the character with that code for every
/// Unicode scalar value (not a surrogate, at most `0x10FFFF`), `None`
/// otherwise.
#[verifier::external_body]
fn char_from_u32(v: u32) -> (c: Option<char>)
    ensures
        c matches Some(ch) ==> ch as u32 == v,
        c is Some <==> (v <= 0xD7FF || (0xE000 <= v && v <= 0x10FFFF)),
{
    char::from_u32(v)
}

/// One step of a line walk from `a` to `b`: at most one dot along each
/// axis, and exactly one along the major axis.
pub open spec fn line_step(a: (int, int), b: (int, int), x_major: bool) -> bool {
    &&& -1 <= b.0 - a.0 <= 1
    &&& -1 <= b.1 - a.1 <= 1
    &&& if x_major { b.0 - a.0 != 0 } else { b.1 - a.1 != 0 }
}

/// `pts` is a connected chain of dots from `(x0, y0)` to `(x1, y1)`: one dot
/// per step along the longer axis, `n + 1` dots for
/// `n = max(|x1 - x0|, |y1 - y0|)`, consecutive dots one step apart.
pub open spec fn line_chain(pts: Seq<(int, int)>, x0: int, y0: int, x1: int, y1: int) -> bool {
    let ax = if x1 >= x0 { x1 - x0 } else { x0 - x1 };
    let ay = if y1 >= y0 { y1 - y0 } else { y0 - y1 };
    let n = if ax >= ay { ax } else { ay };
    &&& pts.len() == n + 1
    &&& pts[0] == (x0, y0)
    &&& pts[n] == (x1, y1)
    &&& forall|k: int| 0 <= k < n ==> line_step(#[trigger] pts[k], pts[k + 1], ax >= ay)
}

/// A monochrome canvas with 2x4 dots per cell, using Braille patterns.
#[derive(Debug, Clone)]
pub struct BrailleCanvas {
    cols: usize,
    rows: usize,
    /// One byte of dot bits per cell.
    dots: Vec<u8>,
}

impl BrailleCanvas {
    /// One byte per cell, row-major.
    pub closed spec fn wf(&self) -> bool {
        &&& self.dots@.len() == self.cols * self.rows
        &&& self.cols <= u16::MAX
        &&& self.rows <= u16::MAX
    }

    /// Width in cells.
    pub closed spec fn spec_cols(&self) -> int {
        self.cols as int
    }

    /// Height in cells.
    pub closed spec fn spec_rows(&self) -> int {
        self.rows as int
    }

    /// The dot bits of cell `(col, row)`; 0 off the canvas.
    pub closed spec fn cell_bits(&self, col: int, row: int) -> u8 {
        if 0 <= col < self.cols && 0 <= row < self.rows {
            self.dots@[row * self.cols + col]
        } else {
            0
        }
    }

    /// Whether dot `(x, y)` lies on the canvas.
    pub open spec fn on_canvas(&self, x: int, y: int) -> bool {
        0 <= x < 2 * self.spec_cols() && 0 <= y < 4 * self.spec_rows()
    }

    /// Whether dot `(x, y)` is set; off the canvas it never is.
    pub open spec fn dot(&self, x: int, y: int) -> bool {
        self.on_canvas(x, y) && self.cell_bits(x / 2, y / 4) & bit_mask(dot_bit(x % 2, y % 4)) != 0
    }

    /// A canvas covering `cols` x `rows` cells, i.e. `cols * 2` x `rows * 4`
    /// dots, all clear.
    pub fn new(cols: u16, rows: u16) -> (c: Self)
        ensures
            c.wf(),
            c.spec_cols() == cols,
            c.spec_rows() == rows,
            forall|col: int, row: int| #[trigger] c.cell_bits(col, row) == 0,
    {
        let (cols, rows) = (cols as usize, rows as usize);
        proof {
            assert(cols * rows <= 0xFFFF * 0xFFFF) by (nonlinear_arith)
                requires cols <= 0xFFFF, rows <= 0xFFFF;
        }
        let n = cols * rows;
        let mut dots: Vec<u8> = Vec::new();
        let mut k: usize = 0;
        while k < n
            invariant
                k <= n,
                dots@.len() == k,
                forall|j: int| 0 <= j < k ==> dots@[j] == 0,
            decreases n - k,
        {
            dots.push(0);
            k += 1;
        }
        let c = BrailleCanvas { cols, rows, dots };
        proof {
            assert forall|col: int, row: int| #[trigger] c.cell_bits(col, row) == 0 by {
                if 0 <= col < cols && 0 <= row < rows {
                    lemma_cell_index(col, row, cols as int, rows as int);
                }
            }
        }
        c
    }

    /// Plottable size, in dots.
    pub fn size(&self) -> (s: (usize, usize))
        requires
            self.wf(),
        ensures
            s.0 == 2 * self.spec_cols(),
            s.1 == 4 * self.spec_rows(),
    {
        (self.cols * 2, self.rows * 4)
    }

    /// Clears every dot.
    pub fn clear(&mut self)
        requires
            old(self).wf(),
        ensures
            final(self).wf(),
            final(self).spec_cols() == old(self).spec_cols(),
            final(self).spec_rows() == old(self).spec_rows(),
            forall|col: int, row: int| #[trigger] final(self).cell_bits(col, row) == 0,
    {
        let n = self.dots.len();
        let mut k: usize = 0;
        while k < n
            invariant
                n == self.dots@.len(),
                self.cols == old(self).cols,
                self.rows == old(self).rows,
                self.dots@.len() == old(self).dots@.len(),
                k <= n,
                forall|j: int| 0 <= j < k ==> self.dots@[j] == 0,
            decreases n - k,
        {
            self.dots.set(k, 0);
            k += 1;
        }
        proof {
            assert forall|col: int, row: int| #[trigger] self.cell_bits(col, row) == 0 by {
                if 0 <= col < self.cols && 0 <= row < self.rows {
                    lemma_cell_index(col, row, self.cols as int, self.rows as int);
                }
            }
        }
    }

    /// The cell index and bit of dot `(x, y)`, or `None` off the canvas.
    fn locate(&self, x: i32, y: i32) -> (l: Option<(usize, u8)>)
        requires
            self.wf(),
        ensures
            l is Some <==> self.on_canvas(x as int, y as int),
            l matches Some(p) ==> {
                &&& p.0 == (y as int / 4) * self.spec_cols() + x as int / 2
                &&& p.0 < self.dots@.len()
                &&& p.1 == dot_bit(x as int % 2, y as int % 4)
                &&& p.1 < 8
            },
    {
        if x < 0 || y < 0 {
            return None;
        }
        let (ux, uy) = (x as usize, y as usize);
        let (cell_x, cell_y) = (ux / 2, uy / 4);
        if cell_x >= self.cols || cell_y >= self.rows {
            return None;
        }
        proof {
            lemma_cell_index(cell_x as int, cell_y as int, self.cols as int, self.rows as int);
            assert(self.cols * self.rows <= 0xFFFF * 0xFFFF) by (nonlinear_arith)
                requires self.cols <= 0xFFFF, self.rows <= 0xFFFF;
        }
        Some((cell_y * self.cols + cell_x, BRAILLE_DOTS[ux % 2][uy % 4]))
    }

    /// Sets the dot at `(x, y)`; out-of-bounds coordinates are ignored, and
    /// no other dot changes.
    pub fn plot(&mut self, x: i32, y: i32)
        requires
            old(self).wf(),
        ensures
            final(self).wf(),
            final(self).spec_cols() == old(self).spec_cols(),
            final(self).spec_rows() == old(self).spec_rows(),
            forall|x2: int, y2: int| #[trigger] final(self).dot(x2, y2) == (if x2 == x && y2 == y {
                old(self).on_canvas(x2, y2)
            } else {
                old(self).dot(x2, y2)
            }),
    {
        if let Some((index, bit)) = self.locate(x, y) {
            let v = self.dots[index] | (1u8 << bit);
            self.dots.set(index, v);
            proof {
                self.lemma_dot_update(*old(self), x as int, y as int, index as int, bit, v, true);
            }
        }
    }

    /// Clears the dot at `(x, y)`; out-of-bounds coordinates are ignored,
    /// and no other dot changes.
    pub fn unplot(&mut self, x: i32, y: i32)
        requires
            old(self).wf(),
        ensures
            final(self).wf(),
            final(self).spec_cols() == old(self).spec_cols(),
            final(self).spec_rows() == old(self).spec_rows(),
            forall|x2: int, y2: int| #[trigger] final(self).dot(x2, y2) == (if x2 == x && y2 == y {
                false
            } else {
                old(self).dot(x2, y2)
            }),
    {
        if let Some((index, bit)) = self.locate(x, y) {
            let v = self.dots[index] & !(1u8 << bit);
            self.dots.set(index, v);
            proof {
                self.lemma_dot_update(*old(self), x as int, y as int, index as int, bit, v, false);
            }
        }
    }

    /// Whether the dot at `(x, y)` is set.
    pub fn get(&self, x: i32, y: i32) -> (b: bool)
        requires
            self.wf(),
        ensures
            b == self.dot(x as int, y as int),
    {
        match self.locate(x, y) {
            Some((index, bit)) => {
                proof {
                    lemma_cell_of_dot(x as int, y as int, self.cols as int, self.rows as int);
                }
                self.dots[index] & (1u8 << bit) != 0
            },
            None => false,
        }
    }

    /// The only dot a one-bit change to one cell affects is the dot it
    /// stands for.
    proof fn lemma_dot_update(&self, before: Self, x: int, y: int, index: int, bit: u8, v: u8, set: bool)
        requires
            before.wf(),
            before.on_canvas(x, y),
            index == (y / 4) * before.spec_cols() + x / 2,
            0 <= index < before.dots@.len(),
            bit == dot_bit(x % 2, y % 4),
            bit < 8,
            self.cols == before.cols,
            self.rows == before.rows,
            self.dots@ == before.dots@.update(index, v),
            set ==> v == before.dots@[index] | (1u8 << bit),
            !set ==> v == before.dots@[index] & !(1u8 << bit),
        ensures
            self.wf(),
            forall|x2: int, y2: int| #[trigger] self.dot(x2, y2) == (if x2 == x && y2 == y {
                set
            } else {
                before.dot(x2, y2)
            }),
    {
        lemma_cell_of_dot(x, y, before.cols as int, before.rows as int);
        assert forall|x2: int, y2: int| #[trigger] self.dot(x2, y2) == (if x2 == x && y2 == y {
            set
        } else {
            before.dot(x2, y2)
        }) by {
            if self.on_canvas(x2, y2) {
                lemma_cell_of_dot(x2, y2, before.cols as int, before.rows as int);
                let i2 = (y2 / 4) * before.spec_cols() + x2 / 2;
                let b2 = dot_bit(x2 % 2, y2 % 4);
                let old_byte = before.dots@[index];
                if i2 == index {
                    lemma_cell_index(x / 2, y / 4, before.cols as int, before.rows as int);
                    lemma_cell_index(x2 / 2, y2 / 4, before.cols as int, before.rows as int);
                    lemma_row_major_unique(x / 2, y / 4, x2 / 2, y2 / 4, before.cols as int);
                    lemma_dot_bits_distinct(x % 2, y % 4, x2 % 2, y2 % 4);
                    if x2 == x && y2 == y {
                        lemma_one_bit(old_byte, bit, bit, set);
                    } else {
                        assert(x2 % 2 != x % 2 || y2 % 4 != y % 4);
                        lemma_one_bit(old_byte, bit, b2, set);
                    }
                }
            }
        }
    }

    /// Draws a line between two dot coordinates (Bresenham), plotting every
    /// dot on it, both endpoints included. The walk's error term stays
    /// within one and a half times the longer extent, so three times that
    /// extent must fit in an `i32`.
    pub fn line(&mut self, x0: i32, y0: i32, x1: i32, y1: i32)
        requires
            old(self).wf(),
            -0x2AAA_AAAA <= x1 - x0 <= 0x2AAA_AAAA,
            -0x2AAA_AAAA <= y1 - y0 <= 0x2AAA_AAAA,
        ensures
            final(self).wf(),
            final(self).spec_cols() == old(self).spec_cols(),
            final(self).spec_rows() == old(self).spec_rows(),
            exists|pts: Seq<(int, int)>| {
                &&& line_chain(pts, x0 as int, y0 as int, x1 as int, y1 as int)
                &&& forall|x: int, y: int| #[trigger] final(self).dot(x, y) == (old(self).dot(x, y) || (
                    old(self).on_canvas(x, y) && pts.contains((x, y))))
            },
    {
        let dx = if x1 >= x0 { x1 - x0 } else { x0 - x1 };
        let dy = -(if y1 >= y0 { y1 - y0 } else { y0 - y1 });
        let sx: i32 = if x0 < x1 { 1 } else { -1 };
        let sy: i32 = if y0 < y1 { 1 } else { -1 };
        let (mut x, mut y) = (x0, y0);
        let mut err = dx + dy;
        let ghost mut i: int = 0;
        let ghost mut j: int = 0;
        let ghost mut pts: Seq<(int, int)> = seq![];
        let ghost xm: bool = dx >= -dy;
        proof {
            assert(err == (j + 1) * dx + (i + 1) * dy) by (nonlinear_arith)
                requires i == 0, j == 0, err == dx + dy;
        }
        loop
            invariant_except_break
                xm ==> 2 * err >= dy && i == pts.len(),
                !xm ==> 2 * err <= dx && j == pts.len(),
                pts.len() > 0 ==> line_step(pts.last(), (x as int, y as int), xm),
            invariant
                self.wf(),
                self.cols == old(self).cols,
                self.rows == old(self).rows,
                dx == (if x1 >= x0 { x1 - x0 } else { x0 - x1 }),
                dy == -(if y1 >= y0 { y1 - y0 } else { y0 - y1 }),
                0 <= dx <= 0x2AAA_AAAA,
                -0x2AAA_AAAA <= dy <= 0,
                sx == (if x0 < x1 { 1int } else { -1int }),
                sy == (if y0 < y1 { 1int } else { -1int }),
                0 <= i <= dx,
                0 <= j <= -dy,
                x == x0 + sx * i,
                y == y0 + sy * j,
                err == (j + 1) * dx + (i + 1) * dy,
                3 * dy <= 2 * err <= 3 * dx,
                xm == (dx >= -dy),
                pts.len() > 0 ==> pts[0] == (x0 as int, y0 as int),
                pts.len() == 0 ==> i == 0 && j == 0,
                forall|k: int| 0 <= k < pts.len() - 1 ==> line_step(#[trigger] pts[k], pts[k + 1], xm),
                forall|px: int, py: int| #[trigger] self.dot(px, py) == (old(self).dot(px, py) || (
                    old(self).on_canvas(px, py) && pts.contains((px, py)))),
            ensures
                self.wf(),
                self.cols == old(self).cols,
                self.rows == old(self).rows,
                line_chain(pts, x0 as int, y0 as int, x1 as int, y1 as int),
                forall|px: int, py: int| #[trigger] self.dot(px, py) == (old(self).dot(px, py) || (
                    old(self).on_canvas(px, py) && pts.contains((px, py)))),
            decreases (dx - i) + (-dy - j),
        {
            let ghost before = *self;
            let ghost pts0 = pts;
            self.plot(x, y);
            proof {
                pts = pts.push((x as int, y as int));
                lemma_plot_extends(*old(self), before, *self, pts0, x as int, y as int);
                assert forall|k: int| 0 <= k < pts.len() - 1 implies line_step(#[trigger] pts[k], pts[k + 1], xm) by {
                    if k == pts.len() - 2 {
                        assert(pts[k] == pts0.last());
                    } else {
                        assert(pts[k] == pts0[k] && pts[k + 1] == pts0[k + 1]);
                    }
                }
                if pts0.len() == 0 {
                    assert(x == x0 && y == y0);
                }
                assert(pts[0] == (x0 as int, y0 as int));
            }
            if x == x1 && y == y1 {
                proof {
                    assert(i == dx && j == -dy) by {
                        if i != dx {
                            assert(sx * i != sx * dx) by (nonlinear_arith)
                                requires i != dx, sx == 1 || sx == -1;
                        }
                        if j != -dy {
                            assert(sy * j != sy * (-dy)) by (nonlinear_arith)
                                requires j != -dy, sy == 1 || sy == -1;
                        }
                    }
                }
                proof {
                    if xm {
                        assert(pts.len() == dx + 1);
                    } else {
                        assert(pts.len() == -dy + 1);
                    }
                    assert(pts[pts.len() - 1] == (x1 as int, y1 as int));
                }
                break;
            }
            proof {
                assert(!(i == dx && j == -dy)) by {
                    if i == dx && j == -dy {
                        assert(x == x1) by (nonlinear_arith)
                            requires
                                x == x0 + sx * i,
                                i == dx,
                                dx == (if x1 >= x0 { x1 - x0 } else { x0 - x1 }),
                                sx == (if x0 < x1 { 1int } else { -1int }),
                        ;
                        assert(y == y1) by (nonlinear_arith)
                            requires
                                y == y0 + sy * j,
                                j == -dy,
                                dy == -(if y1 >= y0 { y1 - y0 } else { y0 - y1 }),
                                sy == (if y0 < y1 { 1int } else { -1int }),
                        ;
                    }
                }
                assert(err == (j + 1) * dx - (i + 1) * (-dy)) by (nonlinear_arith)
                    requires err == (j + 1) * dx + (i + 1) * dy;
                lemma_bresenham_err(dx as int, dy as int, err as int, 2 * err >= dy, 2 * err <= dx);
            }
            let e2 = 2 * err;
            let ghost i0 = i;
            let ghost j0 = j;
            let ghost err0 = err as int;
            let ghost step_x = e2 >= dy;
            let ghost step_y = e2 <= dx;
            let ghost x_before = x as int;
            let ghost y_before = y as int;
            if e2 >= dy {
                proof {
                    lemma_bresenham_x(dx as int, -dy as int, i, j);
                    assert(x + sx == x0 + sx * (i + 1)) by (nonlinear_arith)
                        requires x == x0 + sx * i;
                }
                err += dy;
                x += sx;
                proof {
                    i = i + 1;
                }
            }
            if e2 <= dx {
                proof {
                    lemma_bresenham_y(dx as int, -dy as int, i0, j);
                    assert(y + sy == y0 + sy * (j + 1)) by (nonlinear_arith)
                        requires y == y0 + sy * j;
                }
                err += dx;
                y += sy;
                proof {
                    j = j + 1;
                }
            }
            proof {
                assert(err0 == (j0 + 1) * dx + (i0 + 1) * dy);
                assert(i == i0 + (if step_x { 1int } else { 0 }));
                assert(j == j0 + (if step_y { 1int } else { 0 }));
                assert(err == err0 + (if step_x { dy as int } else { 0 }) + (if step_y { dx as int } else { 0 }));
                if step_x && step_y {
                    assert(err == (j + 1) * dx + (i + 1) * dy) by (nonlinear_arith)
                        requires err == err0 + dy + dx, err0 == (j0 + 1) * dx + (i0 + 1) * dy, i == i0 + 1, j == j0 + 1;
                } else if step_x {
                    assert(err == (j + 1) * dx + (i + 1) * dy) by (nonlinear_arith)
                        requires err == err0 + dy, err0 == (j0 + 1) * dx + (i0 + 1) * dy, i == i0 + 1, j == j0;
                } else {
                    assert(err == (j + 1) * dx + (i + 1) * dy) by (nonlinear_arith)
                        requires err == err0 + dx, err0 == (j0 + 1) * dx + (i0 + 1) * dy, i == i0, j == j0 + 1;
                }
                assert(x as int - x_before == (if step_x { sx as int } else { 0 }));
                assert(y as int - y_before == (if step_y { sy as int } else { 0 }));
                assert(pts.last() == (x_before, y_before));
                if xm {
                    assert(step_x);
                    assert(2 * err >= dy);
                } else {
                    assert(step_y);
                    assert(2 * err <= dx);
                }
            }
        }
    }

    /// The Braille character for cell `(col, row)`: the block's base plus
    /// the cell's dot bits, or the blank pattern out of bounds.
    pub fn glyph(&self, col: usize, row: usize) -> (c: char)
        requires
            self.wf(),
        ensures
            c as u32 == BRAILLE_BASE + self.cell_bits(col as int, row as int),
            !(col < self.spec_cols() && row < self.spec_rows()) ==> c as u32 == BRAILLE_BASE,
            forall|x: int, y: int| 0 <= x < 2 && 0 <= y < 4 ==>
                ((((c as u32 - BRAILLE_BASE) as u8) & bit_mask(#[trigger] dot_bit(x, y)) != 0)
                    <==> self.dot(2 * col + x, 4 * row + y)),
    {
        let bits: u8 = if col < self.cols && row < self.rows {
            proof {
                lemma_cell_index(col as int, row as int, self.cols as int, self.rows as int);
                assert(self.cols * self.rows <= 0xFFFF * 0xFFFF) by (nonlinear_arith)
                    requires self.cols <= 0xFFFF, self.rows <= 0xFFFF;
            }
            self.dots[row * self.cols + col]
        } else {
            0
        };
        proof {
            assert(bits == self.cell_bits(col as int, row as int));
            assert forall|x: int, y: int| 0 <= x < 2 && 0 <= y < 4 implies
                ((bits & bit_mask(#[trigger] dot_bit(x, y)) != 0) <==> self.dot(2 * col + x, 4 * row + y)) by {
                vstd::arithmetic::div_mod::lemma_fundamental_div_mod_converse(2 * col + x, 2, col as int, x);
                vstd::arithmetic::div_mod::lemma_fundamental_div_mod_converse(4 * row + y, 4, row as int, y);
                if !(col < self.cols && row < self.rows) {
                    let m = bit_mask(dot_bit(x, y));
                    assert(0u8 & m == 0) by (bit_vector);
                }
            }
        }
        let c = match char_from_u32(BRAILLE_BASE + bits as u32) {
            Some(c) => c,
            None => '\u{2800}',
        };
        proof {
            assert((c as u32 - BRAILLE_BASE) as u8 == bits);
        }
        c
    }

    /// `(col, row, glyph)` for every cell, row by row.
    pub fn cells(&self) -> (v: Vec<(u16, u16, char)>)
        requires
            self.wf(),
        ensures
            v@.len() == self.spec_cols() * self.spec_rows(),
            forall|k: int| 0 <= k < v@.len() ==> {
                let (col, row, c) = #[trigger] v@[k];
                &&& col == k % self.spec_cols()
                &&& row == k / self.spec_cols()
                &&& c as u32 == BRAILLE_BASE + self.cell_bits(col as int, row as int)
            },
    {
        let mut v: Vec<(u16, u16, char)> = Vec::new();
        let mut row: usize = 0;
        while row < self.rows
            invariant
                self.wf(),
                row <= self.rows,
                v@.len() == row * self.cols,
                forall|k: int| 0 <= k < v@.len() ==> {
                    let (col, r, c) = #[trigger] v@[k];
                    &&& col == k % self.spec_cols()
                    &&& r == k / self.spec_cols()
                    &&& c as u32 == BRAILLE_BASE + self.cell_bits(col as int, r as int)
                },
            decreases self.rows - row,
        {
            let mut col: usize = 0;
            while col < self.cols
                invariant
                    self.wf(),
                    row < self.rows,
                    col <= self.cols,
                    v@.len() == row * self.cols + col,
                    forall|k: int| 0 <= k < v@.len() ==> {
                        let (c2, r, c) = #[trigger] v@[k];
                        &&& c2 == k % self.spec_cols()
                        &&& r == k / self.spec_cols()
                        &&& c as u32 == BRAILLE_BASE + self.cell_bits(c2 as int, r as int)
                    },
                decreases self.cols - col,
            {
                let g = self.glyph(col, row);
                proof {
                    let k = row * self.cols + col;
                    vstd::arithmetic::div_mod::lemma_fundamental_div_mod_converse(k as int, self.cols as int, row as int, col as int);
                    assert(row * self.cols == self.cols * row) by (nonlinear_arith);
                }
                v.push((col as u16, row as u16, g));
                col += 1;
            }
            proof {
                assert((row + 1) * self.cols == row * self.cols + self.cols) by (nonlinear_arith);
            }
            row += 1;
        }
        proof {
            assert(self.rows * self.cols == self.cols * self.rows) by (nonlinear_arith);
        }
        v
    }
}

/// Plotting the next dot of a line walk extends the set of dots it has
/// set by exactly that dot.
proof fn lemma_plot_extends(
    start: BrailleCanvas,
    before: BrailleCanvas,
    after: BrailleCanvas,
    pts: Seq<(int, int)>,
    x: int,
    y: int,
)
    requires
        before.spec_cols() == start.spec_cols(),
        before.spec_rows() == start.spec_rows(),
        forall|px: int, py: int| #[trigger] before.dot(px, py) == (start.dot(px, py) || (
            start.on_canvas(px, py) && pts.contains((px, py)))),
        forall|x2: int, y2: int| #[trigger] after.dot(x2, y2) == (if x2 == x && y2 == y {
            before.on_canvas(x2, y2)
        } else {
            before.dot(x2, y2)
        }),
    ensures
        forall|px: int, py: int| #[trigger] after.dot(px, py) == (start.dot(px, py) || (
            start.on_canvas(px, py) && pts.push((x, y)).contains((px, py)))),
{
    let p2 = pts.push((x, y));
    assert forall|px: int, py: int| #[trigger] after.dot(px, py) == (start.dot(px, py) || (
        start.on_canvas(px, py) && p2.contains((px, py)))) by {
        if p2.contains((px, py)) && (px, py) != (x, y) {
            let k = choose|k: int| 0 <= k < p2.len() && p2[k] == (px, py);
            assert(pts[k] == (px, py));
        }
        if pts.contains((px, py)) {
            let k = choose|k: int| 0 <= k < pts.len() && pts[k] == (px, py);
            assert(p2[k] == (px, py));
        }
        assert(p2[p2.len() - 1] == (x, y));
    }
}

/// Row-major cell indices stay within the canvas.
proof fn lemma_cell_index(col: int, row: int, cols: int, rows: int)
    requires
        0 <= col < cols,
        0 <= row < rows,
    ensures
        0 <= row * cols + col < cols * rows,
{
    assert(row * cols + col < cols * rows) by (nonlinear_arith)
        requires 0 <= col < cols, 0 <= row < rows;
    assert(0 <= row * cols) by (nonlinear_arith)
        requires 0 <= row, 0 <= cols;
}

/// An on-canvas dot lies in an on-canvas cell.
proof fn lemma_cell_of_dot(x: int, y: int, cols: int, rows: int)
    requires
        0 <= x < 2 * cols,
        0 <= y < 4 * rows,
    ensures
        0 <= x / 2 < cols,
        0 <= y / 4 < rows,
        0 <= (y / 4) * cols + x / 2 < cols * rows,
{
    lemma_cell_index(x / 2, y / 4, cols, rows);
}

/// Distinct cells have distinct row-major indices.
proof fn lemma_row_major_unique(c1: int, r1: int, c2: int, r2: int, cols: int)
    requires
        0 <= c1 < cols,
        0 <= c2 < cols,
        r1 * cols + c1 == r2 * cols + c2,
    ensures
        c1 == c2 && r1 == r2,
{
    if r1 < r2 {
        assert(r1 * cols + c1 < r2 * cols + c2) by (nonlinear_arith)
            requires r1 < r2, 0 <= c1 < cols, 0 <= c2;
    } else if r1 > r2 {
        assert(r1 * cols + c1 > r2 * cols + c2) by (nonlinear_arith)
            requires r1 > r2, 0 <= c2 < cols, 0 <= c1;
    }
}

/// The eight dots of a cell use eight different bits.
pub proof fn lemma_dot_bits_distinct(x1: int, y1: int, x2: int, y2: int)
    requires
        0 <= x1 < 2 && 0 <= y1 < 4 && 0 <= x2 < 2 && 0 <= y2 < 4,
    ensures
        dot_bit(x1, y1) < 8,
        dot_bit(x1, y1) == dot_bit(x2, y2) <==> (x1 == x2 && y1 == y2),
{
}

/// Setting or clearing bit `b` of a byte leaves every other bit alone.
proof fn lemma_one_bit(v: u8, b: u8, c: u8, set: bool)
    requires
        b < 8,
        c < 8,
    ensures
        set ==> ((v | (1u8 << b)) & bit_mask(c) != 0) == (b == c || v & bit_mask(c) != 0),
        !set ==> ((v & !(1u8 << b)) & bit_mask(c) != 0) == (b != c && v & bit_mask(c) != 0),
{
    assert(b < 8 && c < 8 ==> ((v | (1u8 << b)) & ((1u8 << c) as u8) != 0) == (b == c || v & ((1u8 << c) as u8) != 0)) by (bit_vector);
    assert(b < 8 && c < 8 ==> ((v & !(1u8 << b)) & ((1u8 << c) as u8) != 0) == (b != c && v & ((1u8 << c) as u8) != 0)) by (bit_vector);
}

/// Bresenham never steps past the end column: when it steps along x, the
/// line still has columns to go.
proof fn lemma_bresenham_x(dx: int, dy: int, i: int, j: int)
    requires
        0 <= dx,
        0 <= dy,
        0 <= i <= dx,
        0 <= j <= dy,
        !(i == dx && j == dy),
        2 * ((j + 1) * dx - (i + 1) * dy) >= -dy,
    ensures
        i < dx,
{
    if i == dx {
        assert(j + 1 <= dy);
        assert(false) by (nonlinear_arith)
            requires
                i == dx,
                0 <= j,
                j + 1 <= dy,
                0 <= dx,
                2 * ((j + 1) * dx - (i + 1) * dy) >= -dy,
        ;
    }
}

/// Bresenham never steps past the end row.
proof fn lemma_bresenham_y(dx: int, dy: int, i: int, j: int)
    requires
        0 <= dx,
        0 <= dy,
        0 <= i <= dx,
        0 <= j <= dy,
        !(i == dx && j == dy),
        2 * ((j + 1) * dx - (i + 1) * dy) <= dx,
    ensures
        j < dy,
{
    if j == dy {
        assert(i + 1 <= dx);
        assert(false) by (nonlinear_arith)
            requires
                j == dy,
                0 <= i,
                i + 1 <= dx,
                0 <= dy,
                2 * ((j + 1) * dx - (i + 1) * dy) <= dx,
        ;
    }
}

/// One Bresenham step keeps the error term within `[2 dy, 2 dx]` (with
/// `dy <= 0 <= dx`).
proof fn lemma_bresenham_err(dx: int, dy: int, err: int, step_x: bool, step_y: bool)
    requires
        0 <= dx,
        dy <= 0,
        3 * dy <= 2 * err <= 3 * dx,
        step_x == (2 * err >= dy),
        step_y == (2 * err <= dx),
    ensures
        step_x || step_y,
        3 * dy <= 2 * (err + (if step_x { dy } else { 0 }) + (if step_y { dx } else { 0 })) <= 3 * dx,
{
}

} // verus!
