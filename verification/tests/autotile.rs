use tilekit::autotile::{
    blob_count, blob_index, box_glyph, inside_corners, is_boundary, marching_case, marching_glyph,
    mask4, mask8, normalize8, DualGrid, BOX_DOUBLE, BOX_HEAVY, BOX_ROUNDED, BOX_SINGLE, E, E8, N,
    N8, NE, NW, S, S8, SE, SW, W, W8,
};

#[test]
fn mask4_sets_one_bit_per_direction() {
    assert_eq!(mask4([false, false, false, false]), 0);
    assert_eq!(mask4([true, false, false, false]), N);
    assert_eq!(mask4([false, true, false, false]), E);
    assert_eq!(mask4([false, false, true, false]), S);
    assert_eq!(mask4([false, false, false, true]), W);
    assert_eq!(mask4([true, true, true, true]), N | E | S | W);
}

#[test]
fn box_glyphs_match_their_connections() {
    assert_eq!(box_glyph(N | E | S | W), '┼');
    assert_eq!(box_glyph(N | S), '│');
    assert_eq!(box_glyph(E | W), '─');
    assert_eq!(box_glyph(S | E), '┌');
    assert_eq!(box_glyph(S | W), '┐');
    assert_eq!(box_glyph(N | E), '└');
    assert_eq!(box_glyph(N | W), '┘');
    assert_eq!(box_glyph(0), '·', "isolated tiles stay visible");
}

#[test]
fn every_box_set_covers_all_sixteen_cases_distinctly() {
    for set in [BOX_SINGLE, BOX_DOUBLE, BOX_HEAVY, BOX_ROUNDED] {
        assert_eq!(set.len(), 16);
        let junction = set[15];
        assert_eq!(
            set.iter().filter(|&&c| c == junction).count(),
            1,
            "junction glyph {junction:?} repeats"
        );
    }
}

#[test]
fn box_glyph_ignores_high_bits() {
    assert_eq!(box_glyph(0xF0 | N | S), '│');
}

#[test]
fn mask8_reads_neighbors_in_order() {
    assert_eq!(mask8([false; 8]), 0);
    assert_eq!(mask8([true, false, false, false, false, false, false, false]), NW);
    assert_eq!(mask8([false, true, false, false, false, false, false, false]), N8);
    assert_eq!(mask8([false, false, false, false, false, false, false, true]), SE);
    assert_eq!(mask8([true; 8]), 0xFF);
}

#[test]
fn there_are_exactly_forty_seven_blob_cases() {
    assert_eq!(blob_count(), 47, "the canonical blob-set size");
}

#[test]
fn normalize_drops_diagonals_without_both_cardinals() {
    assert_eq!(normalize8(NW), 0);
    assert_eq!(normalize8(NW | N8), N8, "needs W too");
    assert_eq!(normalize8(NW | W8), W8, "needs N too");
    assert_eq!(normalize8(NW | N8 | W8), NW | N8 | W8, "now it matters");
    assert_eq!(normalize8(NE | N8 | E8), NE | N8 | E8);
    assert_eq!(normalize8(SW | S8), S8);
    assert_eq!(normalize8(SE | E8), E8);
}

#[test]
fn normalize_is_idempotent() {
    for m in 0u16..=255 {
        let once = normalize8(m as u8);
        assert_eq!(normalize8(once), once, "mask {m:#010b}");
    }
}

#[test]
fn blob_index_is_dense_and_total() {
    let mut seen = vec![false; blob_count()];
    for m in 0u16..=255 {
        let i = blob_index(m as u8);
        assert!(i < blob_count(), "index {i} out of range for {m}");
        seen[i] = true;
    }
    assert!(seen.iter().all(|&s| s), "some blob indices are unreachable");
}

#[test]
fn masks_differing_only_in_hidden_diagonals_share_an_index() {
    let base = blob_index(0);
    for diag in [NW, NE, SW, SE] {
        assert_eq!(blob_index(diag), base, "diagonal {diag:#010b} leaked");
    }
    assert_ne!(blob_index(N8 | W8), blob_index(N8 | W8 | NW));
}

#[test]
fn inside_corners_need_both_cardinals_and_a_missing_diagonal() {
    assert_eq!(inside_corners(0), [false; 4]);
    assert_eq!(inside_corners(N8 | W8), [true, false, false, false]);
    assert_eq!(inside_corners(N8 | W8 | NW), [false; 4], "diagonal fills it");
    assert_eq!(inside_corners(S8 | E8), [false, false, false, true]);
    assert_eq!(inside_corners(N8 | E8 | S8 | W8), [true; 4], "a lone hole has four inside corners");
}

#[test]
fn corner_mask_reads_the_block_as_a_picture() {
    assert_eq!(DualGrid::corner_mask([false; 4]), 0b0000);
    assert_eq!(DualGrid::corner_mask([true, false, false, false]), 0b0001);
    assert_eq!(DualGrid::corner_mask([false, false, false, true]), 0b1000);
    assert_eq!(DualGrid::corner_mask([true; 4]), 0b1111);
}

#[test]
fn samples_are_the_four_cells_up_and_left_of_the_display_tile() {
    assert_eq!(
        DualGrid::samples(3, 5),
        [(2, 4), (3, 4), (2, 5), (3, 5)],
        "display tile straddles the world-cell corner"
    );
    assert_eq!(DualGrid::samples(0, 0), [(-1, -1), (0, -1), (-1, 0), (0, 0)]);
}

#[test]
fn display_origin_is_half_a_tile_up_and_left() {
    assert_eq!(DualGrid::display_origin(8, 4), (-4, -2));
    assert_eq!(DualGrid::display_origin(2, 2), (-1, -1));
}

#[test]
fn coverage_glyph_is_monotonic_in_corner_count() {
    assert_eq!(DualGrid::coverage_glyph(0b0000), ' ');
    assert_eq!(DualGrid::coverage_glyph(0b0001), '░');
    assert_eq!(DualGrid::coverage_glyph(0b0011), '▒');
    assert_eq!(DualGrid::coverage_glyph(0b0111), '▓');
    assert_eq!(DualGrid::coverage_glyph(0b1111), '█');
}

#[test]
fn quadrant_glyph_distinguishes_every_corner_pattern() {
    let mut glyphs: Vec<char> = (0u8..16).map(DualGrid::quadrant_glyph).collect();
    let total = glyphs.len();
    glyphs.sort_unstable();
    glyphs.dedup();
    assert_eq!(glyphs.len(), total, "quadrant glyphs must all differ");
    assert_eq!(DualGrid::quadrant_glyph(0b0000), ' ');
    assert_eq!(DualGrid::quadrant_glyph(0b1111), '█');
    assert_eq!(DualGrid::quadrant_glyph(0b0001), '▘', "top-left only");
    assert_eq!(DualGrid::quadrant_glyph(0b1000), '▗', "bottom-right only");
}

#[test]
fn marching_case_agrees_with_the_dual_grid_mask() {
    for i in 0u8..16 {
        let block = [i & 1 != 0, i & 2 != 0, i & 4 != 0, i & 8 != 0];
        assert_eq!(marching_case(block), DualGrid::corner_mask(block));
    }
}

#[test]
fn only_the_uniform_cases_are_not_boundaries() {
    assert!(!is_boundary(0));
    assert!(!is_boundary(15));
    for case in 1u8..15 {
        assert!(is_boundary(case), "case {case} should be a boundary");
    }
}

#[test]
fn uniform_cases_draw_nothing() {
    assert_eq!(marching_glyph(0), ' ');
    assert_eq!(marching_glyph(15), ' ');
}

#[test]
fn complementary_cases_draw_the_same_line() {
    for case in 1u8..15 {
        if case == 6 || case == 9 {
            continue;
        }
        assert_eq!(
            marching_glyph(case),
            marching_glyph(15 - case),
            "case {case} and its complement disagree"
        );
    }
}

#[test]
fn saddle_cases_resolve_consistently() {
    assert_eq!(marching_glyph(6), marching_glyph(9));
}

#[test]
fn blob_indices_follow_the_sorted_normalized_masks() {
    assert_eq!(blob_index(0), 0, "the empty mask is the smallest");
    assert_eq!(blob_index(0xFF), blob_count() - 1, "the full mask is the largest");
    assert_eq!(blob_index(NW | NE | SW | SE), 0);
}

#[test]
fn display_origin_halves_toward_zero() {
    assert_eq!(DualGrid::display_origin(7, 5), (-3, -2));
    assert_eq!(DualGrid::display_origin(-4, 0), (2, 0));
}
