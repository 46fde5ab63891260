use retroglyph_core::symbols::{HALF_BLOCKS, QUADRANTS};
use tilekit::glyphs::{
    marker, terrain, BrailleCanvas, HalfBlockCanvas, QuadrantCanvas, SextantCanvas, SubGlyph, ASCII_RAMP, BRAILLE_BASE,
    BRAILLE_DOTS, SHADE,
};
use tilekit::palette::Rgb;

#[test]
fn braille_canvas_is_two_by_four() {
    let canvas = BrailleCanvas::new(20, 10);
    assert_eq!(canvas.size(), (40, 40));
    assert_eq!(canvas.cells().len(), 200);
}

#[test]
fn braille_dot_numbering_matches_the_unicode_standard() {
    let mut bits: Vec<u8> = BRAILLE_DOTS.iter().flatten().copied().collect();
    bits.sort_unstable();
    assert_eq!(bits, (0..8).collect::<Vec<u8>>());
    assert_eq!(BRAILLE_DOTS[0][3], 6, "left column dot 7 is bit 6");
    assert_eq!(BRAILLE_DOTS[1][3], 7, "right column dot 8 is bit 7");
}

#[test]
fn braille_plot_round_trips_through_get() {
    let mut canvas = BrailleCanvas::new(4, 2);
    for y in 0..8 {
        for x in 0..8 {
            assert!(!canvas.get(x, y));
            canvas.plot(x, y);
            assert!(canvas.get(x, y), "dot ({x}, {y}) did not stick");
            canvas.unplot(x, y);
            assert!(!canvas.get(x, y), "dot ({x}, {y}) did not clear");
        }
    }
}

#[test]
fn braille_glyph_is_blank_when_empty_and_full_when_saturated() {
    let mut canvas = BrailleCanvas::new(1, 1);
    assert_eq!(canvas.glyph(0, 0), '\u{2800}');
    for y in 0..4 {
        for x in 0..2 {
            canvas.plot(x, y);
        }
    }
    assert_eq!(canvas.glyph(0, 0), '\u{28FF}', "all 8 dots set");
}

#[test]
fn braille_glyphs_stay_inside_the_unicode_block() {
    let mut canvas = BrailleCanvas::new(3, 3);
    canvas.line(0, 0, 5, 11);
    for (_, _, glyph) in canvas.cells() {
        let code = glyph as u32;
        assert!(
            (BRAILLE_BASE..BRAILLE_BASE + 256).contains(&code),
            "{glyph:?} is outside the Braille block"
        );
    }
}

#[test]
fn braille_out_of_bounds_is_ignored_not_panicked() {
    let mut canvas = BrailleCanvas::new(2, 2);
    for (x, y) in [(-1, 0), (0, -1), (500, 0), (0, 500)] {
        canvas.plot(x, y);
        assert!(!canvas.get(x, y));
    }
    assert_eq!(canvas.glyph(99, 99), '\u{2800}');
}

#[test]
fn braille_line_connects_both_endpoints() {
    let mut canvas = BrailleCanvas::new(8, 4);
    canvas.line(0, 0, 15, 15);
    assert!(canvas.get(0, 0), "start not drawn");
    assert!(canvas.get(15, 15), "end not drawn");
}

#[test]
fn braille_line_is_continuous() {
    let mut canvas = BrailleCanvas::new(8, 4);
    canvas.line(0, 0, 15, 7);
    for x in 1..=15 {
        let column_has_dot = (0..16).any(|y| canvas.get(x, y));
        assert!(column_has_dot, "column {x} is empty");
    }
}

#[test]
fn braille_line_handles_every_direction() {
    let mut canvas = BrailleCanvas::new(8, 4);
    for (x0, y0, x1, y1) in [(0, 0, 15, 0), (0, 0, 0, 15), (15, 15, 0, 0), (0, 15, 15, 0), (3, 3, 3, 3)] {
        canvas.clear();
        canvas.line(x0, y0, x1, y1);
        assert!(canvas.get(x0, y0), "start of ({x0},{y0})-({x1},{y1})");
        assert!(canvas.get(x1, y1), "end of ({x0},{y0})-({x1},{y1})");
    }
}

#[test]
fn braille_cells_run_row_by_row() {
    let mut canvas = BrailleCanvas::new(3, 2);
    canvas.plot(2, 4);
    let cells = canvas.cells();
    assert_eq!(cells[0], (0, 0, '\u{2800}'));
    assert_eq!(cells[3].0, 0);
    assert_eq!(cells[3].1, 1);
    assert_eq!(cells[4], (1, 1, '\u{2801}'));
}

#[test]
fn the_bottom_row_uses_the_appended_bits() {
    let mut canvas = BrailleCanvas::new(1, 1);
    canvas.plot(0, 3);
    assert_eq!(canvas.glyph(0, 0), '\u{2840}');
    canvas.clear();
    canvas.plot(1, 0);
    assert_eq!(canvas.glyph(0, 0), '\u{2808}');
}

#[test]
fn ramps_and_markers_hold_their_glyphs() {
    assert_eq!(SHADE[0], ' ');
    assert_eq!(SHADE[4], '█');
    assert_eq!(ASCII_RAMP[9], '@');
    assert_eq!(terrain::WATER, '~');
    assert_eq!(marker::CAPITAL, '☼');
}

// ── Sub-cell canvases ───────────────────────────────────────────────────────

const RED: Rgb = Rgb { r: 255, g: 0, b: 0 };
const BLUE: Rgb = Rgb { r: 0, g: 0, b: 255 };
const BLACK: Rgb = Rgb { r: 0, g: 0, b: 0 };

/// Resolves a quantized glyph back into its per-sub-cell colors: `'▀'` with
/// `(fg, bg)` draws the same as `'▄'` with `(bg, fg)`, so the drawn colors
/// are what to compare.
fn resolve(glyph: SubGlyph, bank: &[char]) -> Vec<Rgb> {
    let mask = bank.iter().position(|&c| c == glyph.ch).expect("glyph must come from its own bank");
    let sub_cells = bank.len().trailing_zeros() as usize;
    (0..sub_cells).map(|i| if mask & (1 << i) != 0 { glyph.fg } else { glyph.bg }).collect()
}

#[test]
fn half_block_canvas_has_double_vertical_resolution() {
    let canvas = HalfBlockCanvas::new(10, 5, BLACK);
    assert_eq!(canvas.size(), (10, 10));
    assert_eq!(canvas.cells().len(), 50);
}

#[test]
fn half_block_renders_the_half_that_was_plotted() {
    let mut canvas = HalfBlockCanvas::new(1, 1, BLACK);
    canvas.plot(0, 0, RED);
    let (_, _, glyph) = canvas.cells()[0];
    assert_eq!(resolve(glyph, &HALF_BLOCKS), vec![RED, BLACK], "top set");

    canvas.clear();
    canvas.plot(0, 1, RED);
    let (_, _, glyph) = canvas.cells()[0];
    assert_eq!(resolve(glyph, &HALF_BLOCKS), vec![BLACK, RED], "bottom set");
}

#[test]
fn quadrant_canvas_has_double_resolution_on_both_axes() {
    let canvas = QuadrantCanvas::new(8, 4, BLACK);
    assert_eq!(canvas.size(), (16, 8));
    assert_eq!(canvas.cells().len(), 32);
}

#[test]
fn quadrant_renders_the_corner_that_was_plotted() {
    for (x, y, index) in [(0, 0, 0), (1, 0, 1), (0, 1, 2), (1, 1, 3)] {
        let mut canvas = QuadrantCanvas::new(1, 1, BLACK);
        canvas.plot(x, y, RED);
        let (_, _, glyph) = canvas.cells()[0];
        let mut expected = vec![BLACK; 4];
        expected[index] = RED;
        assert_eq!(resolve(glyph, &QUADRANTS), expected, "corner ({x}, {y})");
    }
}

#[test]
fn canvases_preserve_plotted_colors_exactly() {
    let mut canvas = HalfBlockCanvas::new(1, 1, BLACK);
    canvas.plot(0, 0, RED);
    canvas.plot(0, 1, BLUE);
    let (_, _, glyph) = canvas.cells()[0];
    assert_eq!(resolve(glyph, &HALF_BLOCKS), vec![RED, BLUE]);
}

#[test]
fn sextant_canvas_is_two_by_three() {
    let canvas = SextantCanvas::new(6, 3, BLACK);
    assert_eq!(canvas.size(), (12, 9));
    assert_eq!(canvas.cells().len(), 18);
}

#[test]
fn canvases_ignore_out_of_bounds_plots() {
    let mut half = HalfBlockCanvas::new(2, 2, BLACK);
    let mut quad = QuadrantCanvas::new(2, 2, BLACK);
    let mut sext = SextantCanvas::new(2, 2, BLACK);
    for (x, y) in [(-1, 0), (0, -1), (999, 0), (0, 999), (-999, -999)] {
        half.plot(x, y, RED);
        quad.plot(x, y, RED);
        sext.plot(x, y, RED);
    }
    assert!(half.cells().iter().all(|(_, _, g)| g.ch == ' ' || g.fg == BLACK));
    assert!(quad.cells().iter().all(|(_, _, g)| g.ch == ' ' || g.fg == BLACK));
    assert!(sext.cells().iter().all(|(_, _, g)| g.ch == ' ' || g.fg == BLACK));
}

#[test]
fn clearing_a_canvas_erases_everything() {
    let mut canvas = QuadrantCanvas::new(2, 2, BLACK);
    canvas.plot(0, 0, RED);
    canvas.clear();
    let glyphs: Vec<char> = canvas.cells().iter().map(|(_, _, g)| g.ch).collect();
    assert!(glyphs.iter().all(|&c| c == ' '), "left over: {glyphs:?}");
}

#[test]
fn canvas_cells_come_row_by_row() {
    let mut canvas = SextantCanvas::new(3, 2, BLACK);
    canvas.plot(5, 4, RED);
    let cells = canvas.cells();
    let coords: Vec<(u16, u16)> = cells.iter().map(|&(c, r, _)| (c, r)).collect();
    assert_eq!(coords, vec![(0, 0), (1, 0), (2, 0), (0, 1), (1, 1), (2, 1)]);
    let (_, _, g) = cells[5];
    assert!(g.fg == RED || g.bg == RED);
    assert!(cells[..5].iter().all(|(_, _, g)| g.fg == BLACK && g.bg == BLACK));
}
