//! Autotiling: choosing a tile's appearance from what its neighbours are.
//!
//! The neighbourhood becomes a bitmask and the bitmask picks the answer:
//!
//! | Approach | Neighbours | Variants | Good for |
//! | --- | --- | --- | --- |
//! | [`mask4`] + [`box_glyph`] | 4 cardinal | 16 | Roads, rivers, walls, borders |
//! | [`mask8`] + [`blob_index`] | 8 | 47 | Terrain edges with proper corners |
//! | [`DualGrid`] | 4 corners | 16 | Smooth organic terrain transitions |
//! | [`marching_case`] | 4 corners | 16 | Isolines, coastline extraction |

use vstd::prelude::*;

verus! {

// ── 4-bit cardinal masks ────────────────────────────────────────────────────

/// North neighbour matches.
pub const N: u8 = 0b0001;
/// East neighbour matches.
pub const E: u8 = 0b0010;
/// South neighbour matches.
pub const S: u8 = 0b0100;
/// West neighbour matches.
pub const W: u8 = 0b1000;

/// `1` for `true`, `0` for `false`.
pub open spec fn bit(b: bool) -> int {
    if b { 1 } else { 0 }
}

fn bit_u8(b: bool) -> (v: u8)
    ensures
        v == bit(b),
{
    if b { 1 } else { 0 }
}

/// Builds a 4-bit cardinal mask from the four cardinal neighbours, in
/// clockwise order from north: `[north, east, south, west]`, bit 0 first.
pub fn mask4(neighbors: [bool; 4]) -> (m: u8)
    ensures
        m == bit(neighbors[0]) + 2 * bit(neighbors[1]) + 4 * bit(neighbors[2]) + 8 * bit(neighbors[3]),
{
    bit_u8(neighbors[0]) + 2 * bit_u8(neighbors[1]) + 4 * bit_u8(neighbors[2]) + 8 * bit_u8(neighbors[3])
}

/// Single-line box-drawing glyphs indexed by [`mask4`]. Index 0 (no
/// connections) is a lone dot, so an isolated road tile stays visible.
pub const BOX_SINGLE: [char; 16] = [
    '·', '╵', '╶', '└', '╷', '│', '┌', '├', '╴', '┘', '─', '┴', '┐', '┤', '┬', '┼',
];

/// Double-line box drawing, indexed by [`mask4`]. The one-connection cases
/// fall back to single-line stubs, which Unicode lacks in double.
pub const BOX_DOUBLE: [char; 16] = [
    '·', '╵', '╶', '╚', '╷', '║', '╔', '╠', '╴', '╝', '═', '╩', '╗', '╣', '╦', '╬',
];

/// Heavy box drawing, indexed by [`mask4`].
pub const BOX_HEAVY: [char; 16] = [
    '·', '╹', '╺', '┗', '╻', '┃', '┏', '┣', '╸', '┛', '━', '┻', '┓', '┫', '┳', '╋',
];

/// Rounded-corner box drawing, indexed by [`mask4`].
pub const BOX_ROUNDED: [char; 16] = [
    '·', '╵', '╶', '╰', '╷', '│', '╭', '├', '╴', '╯', '─', '┴', '╮', '┤', '┬', '┼',
];

/// The single-line box glyph for a cardinal mask; bits above the low four
/// are ignored.
pub fn box_glyph(mask: u8) -> (c: char)
    ensures
        c == BOX_SINGLE[(mask % 16) as int],
{
    BOX_SINGLE[(mask % 16) as usize]
}

// ── 8-bit blob masks ────────────────────────────────────────────────────────

/// Northwest diagonal matches.
pub const NW: u8 = 0b0000_0001;
/// North matches.
pub const N8: u8 = 0b0000_0010;
/// Northeast diagonal matches.
pub const NE: u8 = 0b0000_0100;
/// West matches.
pub const W8: u8 = 0b0000_1000;
/// East matches.
pub const E8: u8 = 0b0001_0000;
/// Southwest diagonal matches.
pub const SW: u8 = 0b0010_0000;
/// South matches.
pub const S8: u8 = 0b0100_0000;
/// Southeast diagonal matches.
pub const SE: u8 = 0b1000_0000;

/// Builds an 8-bit mask from the eight neighbours, in reading order
/// `[NW, N, NE, W, E, SW, S, SE]`, bit 0 first.
pub fn mask8(neighbors: [bool; 8]) -> (m: u8)
    ensures
        m == bit(neighbors[0]) + 2 * bit(neighbors[1]) + 4 * bit(neighbors[2]) + 8 * bit(neighbors[3])
            + 16 * bit(neighbors[4]) + 32 * bit(neighbors[5]) + 64 * bit(neighbors[6])
            + 128 * bit(neighbors[7]),
{
    bit_u8(neighbors[0]) + 2 * bit_u8(neighbors[1]) + 4 * bit_u8(neighbors[2]) + 8 * bit_u8(neighbors[3])
        + 16 * bit_u8(neighbors[4]) + 32 * bit_u8(neighbors[5]) + 64 * bit_u8(neighbors[6])
        + 128 * bit_u8(neighbors[7])
}

/// Whether bit `b` (a one-bit mask) is set in `m`.
pub open spec fn bit_set(m: u8, b: u8) -> bool {
    m & b != 0
}

/// The normalized mask: every cardinal bit kept, each diagonal bit kept
/// only when both cardinals beside it are also set.
pub open spec fn normalized(mask: u8) -> u8 {
    (mask & (N8 | W8 | E8 | S8))
        | (if bit_set(mask, N8) && bit_set(mask, W8) { mask & NW } else { 0 })
        | (if bit_set(mask, N8) && bit_set(mask, E8) { mask & NE } else { 0 })
        | (if bit_set(mask, S8) && bit_set(mask, W8) { mask & SW } else { 0 })
        | (if bit_set(mask, S8) && bit_set(mask, E8) { mask & SE } else { 0 })
}

/// Normalizes an 8-bit mask by discarding diagonals that can't be seen: a
/// diagonal only matters when both adjacent cardinals also match.
pub fn normalize8(mask: u8) -> (out: u8)
    ensures
        out == normalized(mask),
{
    let mut out = mask;
    if mask & N8 == 0 || mask & W8 == 0 {
        out = out & !NW;
    }
    if mask & N8 == 0 || mask & E8 == 0 {
        out = out & !NE;
    }
    if mask & S8 == 0 || mask & W8 == 0 {
        out = out & !SW;
    }
    if mask & S8 == 0 || mask & E8 == 0 {
        out = out & !SE;
    }
    proof {
        lemma_normalize_steps(mask);
    }
    out
}

proof fn lemma_normalize_steps(m: u8)
    ensures
        ({
            let o1 = if m & N8 == 0 || m & W8 == 0 { m & !NW } else { m };
            let o2 = if m & N8 == 0 || m & E8 == 0 { o1 & !NE } else { o1 };
            let o3 = if m & S8 == 0 || m & W8 == 0 { o2 & !SW } else { o2 };
            let o4 = if m & S8 == 0 || m & E8 == 0 { o3 & !SE } else { o3 };
            o4 == normalized(m)
        }),
{
    assert({
        let o1 = if m & N8 == 0 || m & W8 == 0 { m & !NW } else { m };
        let o2 = if m & N8 == 0 || m & E8 == 0 { o1 & !NE } else { o1 };
        let o3 = if m & S8 == 0 || m & W8 == 0 { o2 & !SW } else { o2 };
        let o4 = if m & S8 == 0 || m & E8 == 0 { o3 & !SE } else { o3 };
        o4 == normalized(m)
    }) by (bit_vector);
}

/// Normalizing twice changes nothing more than normalizing once.
pub proof fn lemma_normalize_idempotent(mask: u8)
    ensures
        normalized(normalized(mask)) == normalized(mask),
{
    assert(normalized(normalized(mask)) == normalized(mask)) by (bit_vector);
}

/// Normalizing keeps every cardinal bit and drops a diagonal bit exactly
/// when one of the cardinals beside it is missing.
pub proof fn lemma_normalize_bits(mask: u8)
    ensures
        normalized(mask) & (N8 | W8 | E8 | S8) == mask & (N8 | W8 | E8 | S8),
        bit_set(normalized(mask), NW) == (bit_set(mask, NW) && bit_set(mask, N8) && bit_set(mask, W8)),
        bit_set(normalized(mask), NE) == (bit_set(mask, NE) && bit_set(mask, N8) && bit_set(mask, E8)),
        bit_set(normalized(mask), SW) == (bit_set(mask, SW) && bit_set(mask, S8) && bit_set(mask, W8)),
        bit_set(normalized(mask), SE) == (bit_set(mask, SE) && bit_set(mask, S8) && bit_set(mask, E8)),
{
    assert(normalized(mask) & (N8 | W8 | E8 | S8) == mask & (N8 | W8 | E8 | S8)) by (bit_vector);
    assert(bit_set(normalized(mask), NW) == (bit_set(mask, NW) && bit_set(mask, N8) && bit_set(mask, W8))) by (bit_vector);
    assert(bit_set(normalized(mask), NE) == (bit_set(mask, NE) && bit_set(mask, N8) && bit_set(mask, E8))) by (bit_vector);
    assert(bit_set(normalized(mask), SW) == (bit_set(mask, SW) && bit_set(mask, S8) && bit_set(mask, W8))) by (bit_vector);
    assert(bit_set(normalized(mask), SE) == (bit_set(mask, SE) && bit_set(mask, S8) && bit_set(mask, E8))) by (bit_vector);
}

/// Whether `m` is its own normalization: one of the blob-set masks.
pub open spec fn is_blob(m: int) -> bool {
    0 <= m < 256 && normalized(m as u8) == m as u8
}

/// How many blob-set masks lie below `n`.
pub open spec fn blobs_below(n: int) -> int
    decreases n,
{
    if n <= 0 {
        0
    } else {
        blobs_below(n - 1) + (if is_blob(n - 1) { 1int } else { 0 })
    }
}

/// Counts the blob-set masks below `n`.
fn count_blobs_below(n: u16) -> (c: usize)
    requires
        n <= 256,
    ensures
        c == blobs_below(n as int),
{
    let mut c: usize = 0;
    let mut m: u16 = 0;
    while m < n
        invariant
            m <= n <= 256,
            c == blobs_below(m as int),
            c <= m,
        decreases n - m,
    {
        if normalize8(m as u8) == m as u8 {
            c += 1;
        }
        m += 1;
    }
    c
}

/// The number of distinct normalized 8-neighbour configurations: the size
/// of a blob tileset.
pub fn blob_count() -> (n: usize)
    ensures
        n == blobs_below(256),
{
    count_blobs_below(256)
}

/// Maps an 8-bit mask to a dense index among the blob-set masks: the rank
/// of its normalization in ascending order.
pub fn blob_index(mask: u8) -> (i: usize)
    ensures
        i == blobs_below(normalized(mask) as int),
{
    let normalized = normalize8(mask);
    count_blobs_below(normalized as u16)
}

proof fn lemma_blobs_monotone(a: int, b: int)
    requires
        a <= b,
    ensures
        blobs_below(a) <= blobs_below(b),
        blobs_below(b) - blobs_below(a) <= b - a || b <= 0,
    decreases b - a,
{
    if a < b {
        lemma_blobs_monotone(a, b - 1);
    }
}

/// Blob indices are dense and faithful: every mask gets an index below
/// [`blob_count`], masks with the same normalization share one, masks with
/// different normalizations get different ones, and every index below the
/// count is some mask's.
pub proof fn lemma_blob_index_is_dense(a: u8, b: u8, k: int)
    ensures
        blobs_below(normalized(a) as int) < blobs_below(256),
        normalized(a) == normalized(b) ==> blobs_below(normalized(a) as int) == blobs_below(normalized(b) as int),
        normalized(a) != normalized(b) ==> blobs_below(normalized(a) as int) != blobs_below(normalized(b) as int),
        0 <= k < blobs_below(256) ==> exists|m: u8| blobs_below(normalized(m) as int) == k,
{
    lemma_normalize_idempotent(a);
    lemma_normalize_idempotent(b);
    let na = normalized(a) as int;
    let nb = normalized(b) as int;
    assert(is_blob(na));
    assert(is_blob(nb));
    lemma_blobs_monotone(na + 1, 256);
    if na < nb {
        lemma_blobs_monotone(na + 1, nb);
    } else if nb < na {
        lemma_blobs_monotone(nb + 1, na);
    }
    if 0 <= k < blobs_below(256) {
        let m = lemma_blob_with_rank(256, k);
        assert(normalized(m as u8) == m as u8);
        assert(blobs_below(normalized(m as u8) as int) == k);
    }
}

/// Whether mask `m` keeps each diagonal only beside both of its cardinals,
/// read bit by bit in integers.
spec fn blob_bits(m: int) -> bool {
    &&& (m % 2 == 1 ==> (m / 2) % 2 == 1 && (m / 8) % 2 == 1)
    &&& ((m / 4) % 2 == 1 ==> (m / 2) % 2 == 1 && (m / 16) % 2 == 1)
    &&& ((m / 32) % 2 == 1 ==> (m / 64) % 2 == 1 && (m / 8) % 2 == 1)
    &&& ((m / 128) % 2 == 1 ==> (m / 64) % 2 == 1 && (m / 16) % 2 == 1)
}

/// A mask is its own normalization exactly when its bits pass [`blob_bits`].
proof fn lemma_blob_bits(m: u8)
    ensures
        (normalized(m) == m) == blob_bits(m as int),
{
    assert((normalized(m) == m) == (
        (m % 2 == 1 ==> (m / 2) % 2 == 1 && (m / 8) % 2 == 1)
        && ((m / 4) % 2 == 1 ==> (m / 2) % 2 == 1 && (m / 16) % 2 == 1)
        && ((m / 32) % 2 == 1 ==> (m / 64) % 2 == 1 && (m / 8) % 2 == 1)
        && ((m / 128) % 2 == 1 ==> (m / 64) % 2 == 1 && (m / 16) % 2 == 1))) by (bit_vector);
}

/// One more mask: the count grows by one exactly when it is a blob case.
proof fn lemma_blob_step(n: int)
    requires
        0 <= n < 256,
    ensures
        blobs_below(n + 1) == blobs_below(n) + if blob_bits(n) { 1int } else { 0 },
{
    lemma_blob_bits(n as u8);
}

/// How many masks below `n` pass [`blob_bits`].
spec fn bits_count(n: int) -> int
    decreases n,
{
    if n <= 0 {
        0
    } else {
        bits_count(n - 1) + if blob_bits(n - 1) { 1int } else { 0 }
    }
}

/// Counting blob cases is counting masks that pass [`blob_bits`].
proof fn lemma_blobs_are_bits(n: int)
    requires
        0 <= n <= 256,
    ensures
        blobs_below(n) == bits_count(n),
    decreases n,
{
    if n > 0 {
        lemma_blobs_are_bits(n - 1);
        lemma_blob_step(n - 1);
    }
}

/// There are exactly 47 blob cases: [`blob_count`] is 47, every mask's
/// index is below it, and every index below it is some mask's.
pub proof fn lemma_blob_count(a: u8, k: int)
    ensures
        blobs_below(256) == 47,
        blobs_below(normalized(a) as int) < 47,
        0 <= k < 47 ==> exists|m: u8| blobs_below(normalized(m) as int) == k,
{
    lemma_blobs_are_bits(256);
    assert(bits_count(16) == 5) by {
        reveal_with_fuel(bits_count, 17);
    }
    assert(bits_count(32) == 13) by {
        reveal_with_fuel(bits_count, 17);
    }
    assert(bits_count(48) == 13) by {
        reveal_with_fuel(bits_count, 17);
    }
    assert(bits_count(64) == 13) by {
        reveal_with_fuel(bits_count, 17);
    }
    assert(bits_count(80) == 18) by {
        reveal_with_fuel(bits_count, 17);
    }
    assert(bits_count(96) == 26) by {
        reveal_with_fuel(bits_count, 17);
    }
    assert(bits_count(112) == 29) by {
        reveal_with_fuel(bits_count, 17);
    }
    assert(bits_count(128) == 34) by {
        reveal_with_fuel(bits_count, 17);
    }
    assert(bits_count(144) == 34) by {
        reveal_with_fuel(bits_count, 17);
    }
    assert(bits_count(160) == 34) by {
        reveal_with_fuel(bits_count, 17);
    }
    assert(bits_count(176) == 34) by {
        reveal_with_fuel(bits_count, 17);
    }
    assert(bits_count(192) == 34) by {
        reveal_with_fuel(bits_count, 17);
    }
    assert(bits_count(208) == 34) by {
        reveal_with_fuel(bits_count, 17);
    }
    assert(bits_count(224) == 42) by {
        reveal_with_fuel(bits_count, 17);
    }
    assert(bits_count(240) == 42) by {
        reveal_with_fuel(bits_count, 17);
    }
    assert(bits_count(256) == 47) by {
        reveal_with_fuel(bits_count, 17);
    }
    lemma_blob_index_is_dense(a, a, k);
}

/// A mask's blob index rises strictly with its normalization: the index
/// orders the cases as their normalized masks are ordered.
pub proof fn lemma_blob_index_order(a: u8, b: u8)
    ensures
        normalized(a) < normalized(b) ==> blobs_below(normalized(a) as int) < blobs_below(normalized(b) as int),
{
    lemma_normalize_idempotent(a);
    let na = normalized(a) as int;
    let nb = normalized(b) as int;
    assert(is_blob(na));
    if na < nb {
        lemma_blobs_monotone(na + 1, nb);
    }
}

/// Some blob-set mask below `n` has rank `k`, for every rank below the
/// count.
proof fn lemma_blob_with_rank(n: int, k: int) -> (m: int)
    requires
        0 <= n <= 256,
        0 <= k < blobs_below(n),
    ensures
        0 <= m < n,
        is_blob(m),
        blobs_below(m) == k,
    decreases n,
{
    if blobs_below(n - 1) > k {
        lemma_blob_with_rank(n - 1, k)
    } else {
        lemma_blobs_monotone(0, n - 1);
        n - 1
    }
}

/// Which of a tile's four corners are inside corners, as `[NW, NE, SW, SE]`:
/// both adjacent cardinals match but the diagonal between them does not.
pub fn inside_corners(mask: u8) -> (c: [bool; 4])
    ensures
        c[0] == (bit_set(mask, N8) && bit_set(mask, W8) && !bit_set(mask, NW)),
        c[1] == (bit_set(mask, N8) && bit_set(mask, E8) && !bit_set(mask, NE)),
        c[2] == (bit_set(mask, S8) && bit_set(mask, W8) && !bit_set(mask, SW)),
        c[3] == (bit_set(mask, S8) && bit_set(mask, E8) && !bit_set(mask, SE)),
{
    [
        mask & N8 != 0 && mask & W8 != 0 && mask & NW == 0,
        mask & N8 != 0 && mask & E8 != 0 && mask & NE == 0,
        mask & S8 != 0 && mask & W8 != 0 && mask & SW == 0,
        mask & S8 != 0 && mask & E8 != 0 && mask & SE == 0,
    ]
}

// ── Dual grid ───────────────────────────────────────────────────────────────

/// The dual-grid tiling scheme: display tiles sit at the *corners* of world
/// tiles, so each display tile sees a 2x2 block of world cells and every
/// terrain boundary falls through the middle of a display tile. The display
/// grid is shifted half a tile up and left.
#[derive(Debug, Clone, Copy, PartialEq, Eq, Structural, Default)]
pub struct DualGrid;

/// The number of set bits among the low four of `m`.
pub open spec fn corner_count(m: u8) -> int {
    (m % 2) as int + ((m / 2) % 2) as int + ((m / 4) % 2) as int + ((m / 8) % 2) as int
}

/// A value halved toward zero, as integer division does.
pub open spec fn half_toward_zero(v: int) -> int {
    if v >= 0 { v / 2 } else { -((-v) / 2) }
}

/// Quadrant block elements indexed by corner mask.
pub const QUADS: [char; 16] = [
    ' ', '▘', '▝', '▀', '▖', '▌', '▞', '▛', '▗', '▚', '▐', '▜', '▄', '▙', '▟', '█',
];

impl DualGrid {
    /// Corner mask from a 2x2 block of world cells, in reading order
    /// `[top_left, top_right, bottom_left, bottom_right]`, bit 0 first, so
    /// the mask reads as a binary picture of the block.
    pub fn corner_mask(block: [bool; 4]) -> (m: u8)
        ensures
            m == bit(block[0]) + 2 * bit(block[1]) + 4 * bit(block[2]) + 8 * bit(block[3]),
    {
        bit_u8(block[0]) + 2 * bit_u8(block[1]) + 4 * bit_u8(block[2]) + 8 * bit_u8(block[3])
    }

    /// The world cells a display tile at `(col, row)` samples, as
    /// `[top_left, top_right, bottom_left, bottom_right]`, already shifted by
    /// the half-tile offset.
    pub fn samples(col: i32, row: i32) -> (s: [(i32, i32); 4])
        requires
            col > i32::MIN,
            row > i32::MIN,
        ensures
            s@ == seq![((col - 1) as i32, (row - 1) as i32), (col, (row - 1) as i32), ((col - 1) as i32, row), (col, row)],
    {
        let s = [(col - 1, row - 1), (col, row - 1), (col - 1, row), (col, row)];
        assert(s@ =~= seq![((col - 1) as i32, (row - 1) as i32), (col, (row - 1) as i32), ((col - 1) as i32, row), (col, row)]);
        s
    }

    /// The display grid's origin offset: minus half a tile on each axis,
    /// halved toward zero.
    pub fn display_origin(tile_w: i32, tile_h: i32) -> (o: (i32, i32))
        requires
            tile_w > i32::MIN,
            tile_h > i32::MIN,
        ensures
            o.0 == half_toward_zero(-tile_w),
            o.1 == half_toward_zero(-tile_h),
    {
        (neg_half(tile_w), neg_half(tile_h))
    }

    /// A shade-ramp glyph approximating how much of a display tile is
    /// covered: one density step per covered corner.
    pub fn coverage_glyph(mask: u8) -> (c: char)
        ensures
            c == (if corner_count(mask) == 0 {
                ' '
            } else if corner_count(mask) == 1 {
                '░'
            } else if corner_count(mask) == 2 {
                '▒'
            } else if corner_count(mask) == 3 {
                '▓'
            } else {
                '█'
            }),
    {
        let count = mask % 2 + (mask / 2) % 2 + (mask / 4) % 2 + (mask / 8) % 2;
        match count {
            0 => ' ',
            1 => '░',
            2 => '▒',
            3 => '▓',
            _ => '█',
        }
    }

    /// A quadrant block element drawing exactly which corners are covered.
    pub fn quadrant_glyph(mask: u8) -> (c: char)
        ensures
            c == QUADS[(mask % 16) as int],
    {
        QUADS[(mask % 16) as usize]
    }
}

fn neg_half(v: i32) -> (h: i32)
    requires
        v > i32::MIN,
    ensures
        h == half_toward_zero(-v),
{
    let n = -v;
    if n >= 0 {
        n / 2
    } else {
        -(v / 2)
    }
}

// ── Marching squares ────────────────────────────────────────────────────────

/// The marching-squares case for a 2x2 sample block, in reading order
/// `[top_left, top_right, bottom_left, bottom_right]`: the same sixteen
/// cases as [`DualGrid::corner_mask`], viewed as where the boundary crosses.
pub fn marching_case(block: [bool; 4]) -> (m: u8)
    ensures
        m == bit(block[0]) + 2 * bit(block[1]) + 4 * bit(block[2]) + 8 * bit(block[3]),
{
    DualGrid::corner_mask(block)
}

/// The contour glyph of a marching-squares case (low four bits): nothing for
/// the uniform cases, a slash for one corner in or out, a straight line when
/// a whole edge is inside, and a vertical line for the vertical split and
/// for both saddles, resolved the same way everywhere.
pub open spec fn contour(c: int) -> char {
    if c == 0 || c == 15 {
        ' '
    } else if c == 1 || c == 7 || c == 8 || c == 14 {
        '\\'
    } else if c == 2 || c == 4 || c == 11 || c == 13 {
        '/'
    } else if c == 3 || c == 12 {
        '─'
    } else {
        '│'
    }
}

/// A glyph approximating the contour line through a marching-squares case.
pub fn marching_glyph(case: u8) -> (c: char)
    ensures
        c == contour((case % 16) as int),
{
    match case % 16 {
        0 | 15 => ' ',
        1 | 7 | 8 | 14 => '\\',
        2 | 4 | 11 | 13 => '/',
        3 | 12 => '─',
        _ => '│',
    }
}

/// Whether a marching-squares case sits on a boundary at all: every case
/// but the two uniform ones.
pub fn is_boundary(case: u8) -> (b: bool)
    ensures
        b == (case % 16 != 0 && case % 16 != 15),
{
    let c = case % 16;
    c != 0 && c != 15
}

/// Swapping inside and outside never moves the contour, except at the two
/// saddles, which are resolved by convention.
pub proof fn lemma_complement_draws_same_line(c: int)
    requires
        0 <= c < 16,
        c != 6 && c != 9,
    ensures
        contour(c) == contour(15 - c),
{
}

/// The contour follows the shape of the inside region. With the corners of
/// a block `[top_left, top_right, bottom_left, bottom_right]`: no line when
/// all four agree; a horizontal line when the top edge differs from the
/// bottom edge; a vertical line when the left edge differs from the right
/// edge, or at a saddle (diagonal corners agree, neighbours differ); and a
/// slash when one corner differs from the other three, a backslash for the top-left
/// or bottom-right corner and `/` for the top-right or bottom-left one.
pub proof fn lemma_contour_shape(tl: bool, tr: bool, bl: bool, br: bool)
    ensures
        ({
            let g = contour(bit(tl) + 2 * bit(tr) + 4 * bit(bl) + 8 * bit(br));
            &&& g == ' ' <==> (tl == tr && tr == bl && bl == br)
            &&& g == '─' <==> (tl == tr && bl == br && tl != bl)
            &&& g == '│' <==> (tl != tr && ((tl == bl && tr == br) || (tl == br && tr == bl)))
            &&& g == '\\' <==> ((tr == bl && bl == br && tl != tr) || (tl == tr && tr == bl && br != tl))
            &&& g == '/' <==> ((tl == bl && bl == br && tr != tl) || (tl == tr && tr == br && bl != tl))
        }),
{
}

} // verus!
