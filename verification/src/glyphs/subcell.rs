//! Colored sub-cell canvases: half blocks (1x2 per cell), quadrants (2x2)
//! and sextants (2x3). Points are plotted into a buffer sized in sub-cells,
//! and each cell is read back as the glyph and two colors that
//! `retroglyph-core`'s quantizers pick for its block of sub-cells.

use vstd::prelude::*;

use retroglyph_core::symbols::{quantize_half_block, quantize_quadrant, quantize_sextant};

use crate::palette::Rgb;

verus! {

/// A cell read back from a sub-cell canvas: the block glyph, the color of
/// its set sub-cells and the color of its clear ones.
#[derive(Debug, Clone, Copy, PartialEq, Eq, Structural)]
pub struct SubGlyph {
    /// The block-element, quadrant or sextant character.
    pub ch: char,
    /// Color of the set sub-cells.
    pub fg: Rgb,
    /// Color of the clear sub-cells.
    pub bg: Rgb,
}

/// A color as an `(r, g, b)` triple.
pub open spec fn triple(c: Rgb) -> (u8, u8, u8) {
    (c.r, c.g, c.b)
}

/// A glyph as its character and two color triples.
pub open spec fn glyph_parts(g: SubGlyph) -> (char, (u8, u8, u8), (u8, u8, u8)) {
    (g.ch, triple(g.fg), triple(g.bg))
}

/// What `retroglyph_core::symbols::quantize_half_block` picks for a
/// `[top, bottom]` pixel pair: the glyph and its two colors.
pub uninterp spec fn half_block_of(pixels: Seq<(u8, u8, u8)>) -> (char, (u8, u8, u8), (u8, u8, u8));

/// What `retroglyph_core::symbols::quantize_quadrant` picks for a 2x2 block
/// given row-major.
pub uninterp spec fn quadrant_of(pixels: Seq<(u8, u8, u8)>) -> (char, (u8, u8, u8), (u8, u8, u8));

/// What `retroglyph_core::symbols::quantize_sextant` picks for a 2x3 block
/// given row-major.
pub uninterp spec fn sextant_of(pixels: Seq<(u8, u8, u8)>) -> (char, (u8, u8, u8), (u8, u8, u8));

/// Calls `retroglyph_core::symbols::quantize_half_block`, which depends on
/// the two pixels alone, and reads the glyph's colors back as triples
/// (they are always RGB there). The result is named, not described: the
/// quantizer searches every split of the block for the least color error.
#[verifier::external_body]
fn quantize_half(top: (u8, u8, u8), bottom: (u8, u8, u8)) -> (g: SubGlyph)
    ensures
        glyph_parts(g) == half_block_of(seq![top, bottom]),
{
    let q = quantize_half_block([top, bottom]);
    let (fr, fg, fb) = q.fg.resolve_rgb((0, 0, 0));
    let (br, bg, bb) = q.bg.resolve_rgb((0, 0, 0));
    SubGlyph { ch: q.ch, fg: Rgb { r: fr, g: fg, b: fb }, bg: Rgb { r: br, g: bg, b: bb } }
}

/// Calls `retroglyph_core::symbols::quantize_quadrant` on a row-major 2x2
/// block, as [`quantize_half`] does for half blocks.
#[verifier::external_body]
fn quantize_quad(p: [(u8, u8, u8); 4]) -> (g: SubGlyph)
    ensures
        glyph_parts(g) == quadrant_of(p@),
{
    let q = quantize_quadrant(p);
    let (fr, fg, fb) = q.fg.resolve_rgb((0, 0, 0));
    let (br, bg, bb) = q.bg.resolve_rgb((0, 0, 0));
    SubGlyph { ch: q.ch, fg: Rgb { r: fr, g: fg, b: fb }, bg: Rgb { r: br, g: bg, b: bb } }
}

/// Calls `retroglyph_core::symbols::quantize_sextant` on a row-major 2x3
/// block, as [`quantize_half`] does for half blocks.
#[verifier::external_body]
fn quantize_sext(p: [(u8, u8, u8); 6]) -> (g: SubGlyph)
    ensures
        glyph_parts(g) == sextant_of(p@),
{
    let q = quantize_sextant(p);
    let (fr, fg, fb) = q.fg.resolve_rgb((0, 0, 0));
    let (br, bg, bb) = q.bg.resolve_rgb((0, 0, 0));
    SubGlyph { ch: q.ch, fg: Rgb { r: fr, g: fg, b: fb }, bg: Rgb { r: br, g: bg, b: bb } }
}

/// A buffer of colors at sub-cell resolution, row-major.
#[derive(Debug, Clone)]
struct SubCanvas {
    width: usize,
    height: usize,
    pixels: Vec<Rgb>,
    clear: Rgb,
}

impl SubCanvas {
    spec fn wf(&self) -> bool {
        &&& self.pixels@.len() == self.width * self.height
        &&& self.width * self.height <= usize::MAX
    }

    /// The color at `(x, y)`; the clear color off the buffer.
    spec fn at(&self, x: int, y: int) -> Rgb {
        if 0 <= x < self.width && 0 <= y < self.height {
            self.pixels@[y * self.width + x]
        } else {
            self.clear
        }
    }

    fn new(width: usize, height: usize, clear: Rgb) -> (c: Self)
        requires
            width * height <= usize::MAX,
        ensures
            c.wf(),
            c.width == width && c.height == height && c.clear == clear,
            forall|x: int, y: int| #[trigger] c.at(x, y) == clear,
    {
        let n = width * height;
        let mut pixels: Vec<Rgb> = Vec::new();
        let mut k: usize = 0;
        while k < n
            invariant
                k <= n,
                pixels@.len() == k,
                forall|j: int| 0 <= j < k ==> #[trigger] pixels@[j] == clear,
            decreases n - k,
        {
            pixels.push(clear);
            k += 1;
        }
        let c = SubCanvas { width, height, pixels, clear };
        proof {
            assert forall|x: int, y: int| #[trigger] c.at(x, y) == clear by {
                if 0 <= x < width && 0 <= y < height {
                    lemma_row_major(x, y, width as int, height as int);
                }
            }
        }
        c
    }

    fn clear(&mut self)
        requires
            old(self).wf(),
        ensures
            final(self).wf(),
            final(self).width == old(self).width && final(self).height == old(self).height,
            final(self).clear == old(self).clear,
            forall|x: int, y: int| #[trigger] final(self).at(x, y) == old(self).clear,
    {
        let n = self.pixels.len();
        let mut k: usize = 0;
        while k < n
            invariant
                k <= n,
                n == self.pixels@.len(),
                self.pixels@.len() == self.width * self.height,
                self.width == old(self).width && self.height == old(self).height,
                self.clear == old(self).clear,
                forall|j: int| 0 <= j < k ==> #[trigger] self.pixels@[j] == self.clear,
            decreases n - k,
        {
            self.pixels.set(k, self.clear);
            k += 1;
        }
        proof {
            assert forall|x: int, y: int| #[trigger] self.at(x, y) == old(self).clear by {
                if 0 <= x < self.width && 0 <= y < self.height {
                    lemma_row_major(x, y, self.width as int, self.height as int);
                }
            }
        }
    }

    fn set(&mut self, x: i32, y: i32, color: Rgb)
        requires
            old(self).wf(),
        ensures
            final(self).wf(),
            final(self).width == old(self).width && final(self).height == old(self).height,
            final(self).clear == old(self).clear,
            forall|a: int, b: int| #[trigger] final(self).at(a, b) == (if a == x && b == y && 0 <= a < old(self).width && 0 <= b
                < old(self).height {
                color
            } else {
                old(self).at(a, b)
            }),
    {
        if x < 0 || y < 0 {
            return;
        }
        let (ux, uy) = (x as usize, y as usize);
        if ux >= self.width || uy >= self.height {
            return;
        }
        proof {
            lemma_row_major(ux as int, uy as int, self.width as int, self.height as int);
            assert(0 <= uy * self.width) by (nonlinear_arith)
                requires 0 <= uy, 0 <= self.width;
        }
        let i = uy * self.width + ux;
        self.pixels.set(i, color);
        proof {
            assert forall|a: int, b: int| #[trigger] self.at(a, b) == (if a == x && b == y && 0 <= a < old(self).width && 0 <= b
                < old(self).height {
                color
            } else {
                old(self).at(a, b)
            }) by {
                if 0 <= a < self.width && 0 <= b < self.height {
                    lemma_row_major(a, b, self.width as int, self.height as int);
                    if b * self.width + a == i {
                        lemma_row_major_unique(a, b, ux as int, uy as int, self.width as int);
                    }
                }
            }
        }
    }

    /// The color at `(x, y)` as a triple.
    fn rgb_at(&self, x: usize, y: usize) -> (t: (u8, u8, u8))
        requires
            self.wf(),
        ensures
            t == triple(self.at(x as int, y as int)),
    {
        if x < self.width && y < self.height {
            proof {
                lemma_row_major(x as int, y as int, self.width as int, self.height as int);
                assert(0 <= y * self.width) by (nonlinear_arith)
                    requires 0 <= y, 0 <= self.width;
            }
            let c = self.pixels[y * self.width + x];
            (c.r, c.g, c.b)
        } else {
            (self.clear.r, self.clear.g, self.clear.b)
        }
    }
}

/// Row-major indices of in-range cells are in range.
proof fn lemma_row_major(x: int, y: int, w: int, h: int)
    requires
        0 <= x < w,
        0 <= y < h,
    ensures
        0 <= y * w + x < w * h,
{
    assert(y * w + x < w * h) by (nonlinear_arith)
        requires 0 <= x < w, 0 <= y < h;
    assert(0 <= y * w) by (nonlinear_arith)
        requires 0 <= y, 0 <= w;
}

/// Two in-row cells with the same row-major index are the same cell.
proof fn lemma_row_major_unique(a: int, b: int, x: int, y: int, w: int)
    requires
        0 <= a < w,
        0 <= x < w,
        0 <= b,
        0 <= y,
        b * w + a == y * w + x,
    ensures
        a == x && b == y,
{
    vstd::arithmetic::div_mod::lemma_fundamental_div_mod_converse(b * w + a, w, b, a);
    vstd::arithmetic::div_mod::lemma_fundamental_div_mod_converse(y * w + x, w, y, x);
}

/// A canvas with 1x2 sub-cells per cell (the upper and lower half).
#[derive(Debug, Clone)]
pub struct HalfBlockCanvas {
    canvas: SubCanvas,
    cols: usize,
    rows: usize,
}

/// A canvas with 2x2 sub-cells per cell.
#[derive(Debug, Clone)]
pub struct QuadrantCanvas {
    canvas: SubCanvas,
    cols: usize,
    rows: usize,
}

/// A canvas with 2x3 sub-cells per cell, using Unicode sextants.
#[derive(Debug, Clone)]
pub struct SextantCanvas {
    canvas: SubCanvas,
    cols: usize,
    rows: usize,
}

impl HalfBlockCanvas {
    /// The sub-cell buffer matches the cell grid.
    pub closed spec fn wf(&self) -> bool {
        &&& self.canvas.wf()
        &&& self.canvas.width == self.cols
        &&& self.canvas.height == 2 * self.rows
        &&& self.cols <= u16::MAX && self.rows <= u16::MAX
    }

    /// Width in cells.
    pub closed spec fn spec_cols(&self) -> int {
        self.cols as int
    }

    /// Height in cells.
    pub closed spec fn spec_rows(&self) -> int {
        self.rows as int
    }

    /// The color of sub-cell `(x, y)`; the clear color off the canvas.
    pub closed spec fn at(&self, x: int, y: int) -> Rgb {
        self.canvas.at(x, y)
    }

    /// The color the canvas clears to.
    pub closed spec fn clear_color(&self) -> Rgb {
        self.canvas.clear
    }

    /// A canvas covering `cols` x `rows` cells, i.e. `cols` x `rows * 2`
    /// points, all `clear`.
    pub fn new(cols: u16, rows: u16, clear: Rgb) -> (c: Self)
        requires
            cols * rows * 2 <= usize::MAX,
        ensures
            c.wf(),
            c.spec_cols() == cols && c.spec_rows() == rows,
            c.clear_color() == clear,
            forall|x: int, y: int| #[trigger] c.at(x, y) == clear,
    {
        let (cols, rows) = (cols as usize, rows as usize);
        proof {
            assert(cols * (rows * 2) == cols * rows * 2) by (nonlinear_arith);
        }
        HalfBlockCanvas { canvas: SubCanvas::new(cols, rows * 2, clear), cols, rows }
    }

    /// Plottable size, in sub-cells.
    pub fn size(&self) -> (s: (usize, usize))
        requires
            self.wf(),
        ensures
            s.0 == self.spec_cols() && s.1 == 2 * self.spec_rows(),
    {
        (self.canvas.width, self.canvas.height)
    }

    /// Resets every sub-cell to the clear color.
    pub fn clear(&mut self)
        requires
            old(self).wf(),
        ensures
            final(self).wf(),
            final(self).spec_cols() == old(self).spec_cols() && final(self).spec_rows() == old(self).spec_rows(),
            final(self).clear_color() == old(self).clear_color(),
            forall|x: int, y: int| #[trigger] final(self).at(x, y) == old(self).clear_color(),
    {
        self.canvas.clear();
    }

    /// Plots one sub-cell; points off the canvas are ignored.
    pub fn plot(&mut self, x: i32, y: i32, color: Rgb)
        requires
            old(self).wf(),
        ensures
            final(self).wf(),
            final(self).spec_cols() == old(self).spec_cols() && final(self).spec_rows() == old(self).spec_rows(),
            final(self).clear_color() == old(self).clear_color(),
            forall|a: int, b: int| #[trigger] final(self).at(a, b) == (if a == x && b == y && 0 <= a < old(self).spec_cols()
                && 0 <= b < 2 * old(self).spec_rows() {
                color
            } else {
                old(self).at(a, b)
            }),
    {
        self.canvas.set(x, y, color);
    }

    /// `(col, row, glyph)` for every cell, row by row: each cell's glyph
    /// quantizes its upper and lower sub-cell.
    pub fn cells(&self) -> (out: Vec<(u16, u16, SubGlyph)>)
        requires
            self.wf(),
        ensures
            out@.len() == self.spec_cols() * self.spec_rows(),
            forall|row: int, col: int| 0 <= row < self.spec_rows() && 0 <= col < self.spec_cols() ==> {
                let e = #[trigger] out@[slot(row, col, self.spec_cols())];
                &&& e.0 == col && e.1 == row
                &&& glyph_parts(e.2) == half_block_of(seq![triple(self.at(col, 2 * row)), triple(self.at(col, 2 * row + 1))])
            },
    {
        let mut out: Vec<(u16, u16, SubGlyph)> = Vec::new();
        let mut row: usize = 0;
        while row < self.rows
            invariant
                self.wf(),
                row <= self.rows,
                out@.len() == row * self.cols,
                forall|r: int, c: int| 0 <= r < row && 0 <= c < self.cols ==> {
                    let e = #[trigger] out@[slot(r, c, self.cols as int)];
                    &&& e.0 == c && e.1 == r
                    &&& glyph_parts(e.2) == half_block_of(seq![triple(self.at(c, 2 * r)), triple(self.at(c, 2 * r + 1))])
                },
            decreases self.rows - row,
        {
            let mut col: usize = 0;
            while col < self.cols
                invariant
                    self.wf(),
                    row < self.rows,
                    col <= self.cols,
                    out@.len() == row * self.cols + col,
                    forall|r: int, c: int| 0 <= r < row && 0 <= c < self.cols ==> {
                        let e = #[trigger] out@[slot(r, c, self.cols as int)];
                        &&& e.0 == c && e.1 == r
                        &&& glyph_parts(e.2) == half_block_of(seq![triple(self.at(c, 2 * r)), triple(self.at(c, 2 * r + 1))])
                    },
                    forall|c: int| 0 <= c < col ==> {
                        let e = #[trigger] out@[slot(row as int, c, self.cols as int)];
                        &&& e.0 == c && e.1 == row
                        &&& glyph_parts(e.2) == half_block_of(seq![triple(self.at(c, 2 * row)), triple(self.at(c, 2 * row + 1))])
                    },
                decreases self.cols - col,
            {
                let g = quantize_half(self.canvas.rgb_at(col, row * 2), self.canvas.rgb_at(col, row * 2 + 1));
                proof {
                    lemma_cell_slot(row as int, col as int, self.cols as int);
                }
                out.push((col as u16, row as u16, g));
                col += 1;
            }
            proof {
                assert((row + 1) * self.cols == row * self.cols + self.cols) by (nonlinear_arith);
                assert forall|r: int, c: int| 0 <= r < row + 1 && 0 <= c < self.cols implies {
                    let e = #[trigger] out@[slot(r, c, self.cols as int)];
                    &&& e.0 == c && e.1 == r
                    &&& glyph_parts(e.2) == half_block_of(seq![triple(self.at(c, 2 * r)), triple(self.at(c, 2 * r + 1))])
                } by {
                    if r == row {
                        assert(out@[slot(row as int, c, self.cols as int)] == out@[slot(r, c, self.cols as int)]);
                    }
                }
            }
            row += 1;
        }
        proof {
            assert(row * self.cols == self.cols * self.rows) by (nonlinear_arith)
                requires row == self.rows;
        }
        out
    }
}

impl QuadrantCanvas {
    /// The sub-cell buffer matches the cell grid.
    pub closed spec fn wf(&self) -> bool {
        &&& self.canvas.wf()
        &&& self.canvas.width == 2 * self.cols
        &&& self.canvas.height == 2 * self.rows
        &&& self.cols <= u16::MAX && self.rows <= u16::MAX
    }

    /// Width in cells.
    pub closed spec fn spec_cols(&self) -> int {
        self.cols as int
    }

    /// Height in cells.
    pub closed spec fn spec_rows(&self) -> int {
        self.rows as int
    }

    /// The color of sub-cell `(x, y)`; the clear color off the canvas.
    pub closed spec fn at(&self, x: int, y: int) -> Rgb {
        self.canvas.at(x, y)
    }

    /// The color the canvas clears to.
    pub closed spec fn clear_color(&self) -> Rgb {
        self.canvas.clear
    }

    /// The 2x2 block of cell `(col, row)`, row-major.
    pub open spec fn block(&self, col: int, row: int) -> Seq<(u8, u8, u8)> {
        seq![
            triple(self.at(2 * col, 2 * row)),
            triple(self.at(2 * col + 1, 2 * row)),
            triple(self.at(2 * col, 2 * row + 1)),
            triple(self.at(2 * col + 1, 2 * row + 1)),
        ]
    }

    /// A canvas covering `cols` x `rows` cells, i.e. `cols * 2` x `rows * 2`
    /// points, all `clear`.
    pub fn new(cols: u16, rows: u16, clear: Rgb) -> (c: Self)
        requires
            cols * rows * 4 <= usize::MAX,
        ensures
            c.wf(),
            c.spec_cols() == cols && c.spec_rows() == rows,
            c.clear_color() == clear,
            forall|x: int, y: int| #[trigger] c.at(x, y) == clear,
    {
        let (cols, rows) = (cols as usize, rows as usize);
        proof {
            assert((cols * 2) * (rows * 2) == cols * rows * 4) by (nonlinear_arith);
        }
        QuadrantCanvas { canvas: SubCanvas::new(cols * 2, rows * 2, clear), cols, rows }
    }

    /// Plottable size, in sub-cells.
    pub fn size(&self) -> (s: (usize, usize))
        requires
            self.wf(),
        ensures
            s.0 == 2 * self.spec_cols() && s.1 == 2 * self.spec_rows(),
    {
        (self.canvas.width, self.canvas.height)
    }

    /// Resets every sub-cell to the clear color.
    pub fn clear(&mut self)
        requires
            old(self).wf(),
        ensures
            final(self).wf(),
            final(self).spec_cols() == old(self).spec_cols() && final(self).spec_rows() == old(self).spec_rows(),
            final(self).clear_color() == old(self).clear_color(),
            forall|x: int, y: int| #[trigger] final(self).at(x, y) == old(self).clear_color(),
    {
        self.canvas.clear();
    }

    /// Plots one sub-cell; points off the canvas are ignored.
    pub fn plot(&mut self, x: i32, y: i32, color: Rgb)
        requires
            old(self).wf(),
        ensures
            final(self).wf(),
            final(self).spec_cols() == old(self).spec_cols() && final(self).spec_rows() == old(self).spec_rows(),
            final(self).clear_color() == old(self).clear_color(),
            forall|a: int, b: int| #[trigger] final(self).at(a, b) == (if a == x && b == y && 0 <= a < 2 * old(self).spec_cols()
                && 0 <= b < 2 * old(self).spec_rows() {
                color
            } else {
                old(self).at(a, b)
            }),
    {
        self.canvas.set(x, y, color);
    }

    /// `(col, row, glyph)` for every cell, row by row: each cell's glyph
    /// quantizes its 2x2 [`block`](Self::block).
    pub fn cells(&self) -> (out: Vec<(u16, u16, SubGlyph)>)
        requires
            self.wf(),
        ensures
            out@.len() == self.spec_cols() * self.spec_rows(),
            forall|row: int, col: int| 0 <= row < self.spec_rows() && 0 <= col < self.spec_cols() ==> {
                let e = #[trigger] out@[slot(row, col, self.spec_cols())];
                &&& e.0 == col && e.1 == row
                &&& glyph_parts(e.2) == quadrant_of(self.block(col, row))
            },
    {
        let mut out: Vec<(u16, u16, SubGlyph)> = Vec::new();
        let mut row: usize = 0;
        while row < self.rows
            invariant
                self.wf(),
                row <= self.rows,
                out@.len() == row * self.cols,
                forall|r: int, c: int| 0 <= r < row && 0 <= c < self.cols ==> {
                    let e = #[trigger] out@[slot(r, c, self.cols as int)];
                    &&& e.0 == c && e.1 == r
                    &&& glyph_parts(e.2) == quadrant_of(self.block(c, r))
                },
            decreases self.rows - row,
        {
            let mut col: usize = 0;
            while col < self.cols
                invariant
                    self.wf(),
                    row < self.rows,
                    col <= self.cols,
                    out@.len() == row * self.cols + col,
                    forall|r: int, c: int| 0 <= r < row && 0 <= c < self.cols ==> {
                        let e = #[trigger] out@[slot(r, c, self.cols as int)];
                        &&& e.0 == c && e.1 == r
                        &&& glyph_parts(e.2) == quadrant_of(self.block(c, r))
                    },
                    forall|c: int| 0 <= c < col ==> {
                        let e = #[trigger] out@[slot(row as int, c, self.cols as int)];
                        &&& e.0 == c && e.1 == row
                        &&& glyph_parts(e.2) == quadrant_of(self.block(c, row as int))
                    },
                decreases self.cols - col,
            {
                let (x, y) = (col * 2, row * 2);
                let p = [
                    self.canvas.rgb_at(x, y),
                    self.canvas.rgb_at(x + 1, y),
                    self.canvas.rgb_at(x, y + 1),
                    self.canvas.rgb_at(x + 1, y + 1),
                ];
                proof {
                    assert(p@ =~= self.block(col as int, row as int));
                }
                let g = quantize_quad(p);
                proof {
                    lemma_cell_slot(row as int, col as int, self.cols as int);
                }
                out.push((col as u16, row as u16, g));
                col += 1;
            }
            proof {
                assert((row + 1) * self.cols == row * self.cols + self.cols) by (nonlinear_arith);
                assert forall|r: int, c: int| 0 <= r < row + 1 && 0 <= c < self.cols implies {
                    let e = #[trigger] out@[slot(r, c, self.cols as int)];
                    &&& e.0 == c && e.1 == r
                    &&& glyph_parts(e.2) == quadrant_of(self.block(c, r))
                } by {
                    if r == row {
                        assert(out@[slot(row as int, c, self.cols as int)] == out@[slot(r, c, self.cols as int)]);
                    }
                }
            }
            row += 1;
        }
        proof {
            assert(row * self.cols == self.cols * self.rows) by (nonlinear_arith)
                requires row == self.rows;
        }
        out
    }
}

impl SextantCanvas {
    /// The sub-cell buffer matches the cell grid.
    pub closed spec fn wf(&self) -> bool {
        &&& self.canvas.wf()
        &&& self.canvas.width == 2 * self.cols
        &&& self.canvas.height == 3 * self.rows
        &&& self.cols <= u16::MAX && self.rows <= u16::MAX
    }

    /// Width in cells.
    pub closed spec fn spec_cols(&self) -> int {
        self.cols as int
    }

    /// Height in cells.
    pub closed spec fn spec_rows(&self) -> int {
        self.rows as int
    }

    /// The color of sub-cell `(x, y)`; the clear color off the canvas.
    pub closed spec fn at(&self, x: int, y: int) -> Rgb {
        self.canvas.at(x, y)
    }

    /// The color the canvas clears to.
    pub closed spec fn clear_color(&self) -> Rgb {
        self.canvas.clear
    }

    /// The 2x3 block of cell `(col, row)`, row-major.
    pub open spec fn block(&self, col: int, row: int) -> Seq<(u8, u8, u8)> {
        seq![
            triple(self.at(2 * col, 3 * row)),
            triple(self.at(2 * col + 1, 3 * row)),
            triple(self.at(2 * col, 3 * row + 1)),
            triple(self.at(2 * col + 1, 3 * row + 1)),
            triple(self.at(2 * col, 3 * row + 2)),
            triple(self.at(2 * col + 1, 3 * row + 2)),
        ]
    }

    /// A canvas covering `cols` x `rows` cells, i.e. `cols * 2` x `rows * 3`
    /// points, all `clear`.
    pub fn new(cols: u16, rows: u16, clear: Rgb) -> (c: Self)
        requires
            cols * rows * 6 <= usize::MAX,
        ensures
            c.wf(),
            c.spec_cols() == cols && c.spec_rows() == rows,
            c.clear_color() == clear,
            forall|x: int, y: int| #[trigger] c.at(x, y) == clear,
    {
        let (cols, rows) = (cols as usize, rows as usize);
        proof {
            assert((cols * 2) * (rows * 3) == cols * rows * 6) by (nonlinear_arith);
            assert(cols * 2 <= usize::MAX && rows * 3 <= usize::MAX) by (nonlinear_arith)
                requires cols <= 0xFFFF, rows <= 0xFFFF;
        }
        SextantCanvas { canvas: SubCanvas::new(cols * 2, rows * 3, clear), cols, rows }
    }

    /// Plottable size, in sub-cells.
    pub fn size(&self) -> (s: (usize, usize))
        requires
            self.wf(),
        ensures
            s.0 == 2 * self.spec_cols() && s.1 == 3 * self.spec_rows(),
    {
        (self.canvas.width, self.canvas.height)
    }

    /// Resets every sub-cell to the clear color.
    pub fn clear(&mut self)
        requires
            old(self).wf(),
        ensures
            final(self).wf(),
            final(self).spec_cols() == old(self).spec_cols() && final(self).spec_rows() == old(self).spec_rows(),
            final(self).clear_color() == old(self).clear_color(),
            forall|x: int, y: int| #[trigger] final(self).at(x, y) == old(self).clear_color(),
    {
        self.canvas.clear();
    }

    /// Plots one sub-cell; points off the canvas are ignored.
    pub fn plot(&mut self, x: i32, y: i32, color: Rgb)
        requires
            old(self).wf(),
        ensures
            final(self).wf(),
            final(self).spec_cols() == old(self).spec_cols() && final(self).spec_rows() == old(self).spec_rows(),
            final(self).clear_color() == old(self).clear_color(),
            forall|a: int, b: int| #[trigger] final(self).at(a, b) == (if a == x && b == y && 0 <= a < 2 * old(self).spec_cols()
                && 0 <= b < 3 * old(self).spec_rows() {
                color
            } else {
                old(self).at(a, b)
            }),
    {
        self.canvas.set(x, y, color);
    }

    /// `(col, row, glyph)` for every cell, row by row: each cell's glyph
    /// quantizes its 2x3 [`block`](Self::block).
    pub fn cells(&self) -> (out: Vec<(u16, u16, SubGlyph)>)
        requires
            self.wf(),
        ensures
            out@.len() == self.spec_cols() * self.spec_rows(),
            forall|row: int, col: int| 0 <= row < self.spec_rows() && 0 <= col < self.spec_cols() ==> {
                let e = #[trigger] out@[slot(row, col, self.spec_cols())];
                &&& e.0 == col && e.1 == row
                &&& glyph_parts(e.2) == sextant_of(self.block(col, row))
            },
    {
        let mut out: Vec<(u16, u16, SubGlyph)> = Vec::new();
        let mut row: usize = 0;
        while row < self.rows
            invariant
                self.wf(),
                row <= self.rows,
                out@.len() == row * self.cols,
                forall|r: int, c: int| 0 <= r < row && 0 <= c < self.cols ==> {
                    let e = #[trigger] out@[slot(r, c, self.cols as int)];
                    &&& e.0 == c && e.1 == r
                    &&& glyph_parts(e.2) == sextant_of(self.block(c, r))
                },
            decreases self.rows - row,
        {
            let mut col: usize = 0;
            while col < self.cols
                invariant
                    self.wf(),
                    row < self.rows,
                    col <= self.cols,
                    out@.len() == row * self.cols + col,
                    forall|r: int, c: int| 0 <= r < row && 0 <= c < self.cols ==> {
                        let e = #[trigger] out@[slot(r, c, self.cols as int)];
                        &&& e.0 == c && e.1 == r
                        &&& glyph_parts(e.2) == sextant_of(self.block(c, r))
                    },
                    forall|c: int| 0 <= c < col ==> {
                        let e = #[trigger] out@[slot(row as int, c, self.cols as int)];
                        &&& e.0 == c && e.1 == row
                        &&& glyph_parts(e.2) == sextant_of(self.block(c, row as int))
                    },
                decreases self.cols - col,
            {
                let (x, y) = (col * 2, row * 3);
                let p = [
                    self.canvas.rgb_at(x, y),
                    self.canvas.rgb_at(x + 1, y),
                    self.canvas.rgb_at(x, y + 1),
                    self.canvas.rgb_at(x + 1, y + 1),
                    self.canvas.rgb_at(x, y + 2),
                    self.canvas.rgb_at(x + 1, y + 2),
                ];
                proof {
                    assert(p@ =~= self.block(col as int, row as int));
                }
                let g = quantize_sext(p);
                proof {
                    lemma_cell_slot(row as int, col as int, self.cols as int);
                }
                out.push((col as u16, row as u16, g));
                col += 1;
            }
            proof {
                assert((row + 1) * self.cols == row * self.cols + self.cols) by (nonlinear_arith);
                assert forall|r: int, c: int| 0 <= r < row + 1 && 0 <= c < self.cols implies {
                    let e = #[trigger] out@[slot(r, c, self.cols as int)];
                    &&& e.0 == c && e.1 == r
                    &&& glyph_parts(e.2) == sextant_of(self.block(c, r))
                } by {
                    if r == row {
                        assert(out@[slot(row as int, c, self.cols as int)] == out@[slot(r, c, self.cols as int)]);
                    }
                }
            }
            row += 1;
        }
        proof {
            assert(row * self.cols == self.cols * self.rows) by (nonlinear_arith)
                requires row == self.rows;
        }
        out
    }
}

/// The position of cell `(col, row)` in a row-by-row list of a grid `cols`
/// wide.
pub open spec fn slot(row: int, col: int, cols: int) -> int {
    row * cols + col
}

/// Earlier rows' slots lie before the current row's, and the current row's
/// run on from there.
proof fn lemma_cell_slot(row: int, col: int, cols: int)
    requires
        0 <= col < cols,
        0 <= row,
    ensures
        forall|r: int, c: int| 0 <= r < row && 0 <= c < cols ==> #[trigger] slot(r, c, cols) < row * cols,
        slot(row, col, cols) == row * cols + col,
{
    assert forall|r: int, c: int| 0 <= r < row && 0 <= c < cols implies #[trigger] slot(r, c, cols) < row * cols by {
        assert(r * cols + c < (r + 1) * cols) by (nonlinear_arith)
            requires c < cols;
        assert((r + 1) * cols <= row * cols) by (nonlinear_arith)
            requires r + 1 <= row, 0 <= cols;
    }
}

} // verus!
