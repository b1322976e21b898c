use bmpf2fnt::scan::{find_glyph_regions, glyph_region_contains, is_pixel_empty, GlyphBounds};

const INK: [u8; 4] = [255, 255, 255, 255];
const KEY: [u8; 4] = [255, 0, 255, 255];
const CLEAR: [u8; 4] = [12, 34, 56, 0];

/// Builds an RGBA buffer from rows of '#' (ink) and '.' (colour key).
fn image(rows: &[&str]) -> (Vec<u8>, u32, u32) {
    let h = rows.len() as u32;
    let w = rows[0].len() as u32;
    let mut px = Vec::new();
    for row in rows {
        for ch in row.chars() {
            px.extend_from_slice(if ch == '#' { &INK } else if ch == ',' { &CLEAR } else { &KEY });
        }
    }
    (px, w, h)
}

fn b(x: u32, y: u32, w: u32, h: u32) -> GlyphBounds {
    GlyphBounds { x, y, w, h }
}

#[test]
fn pixel_empty_rules() {
    assert!(is_pixel_empty(1, 2, 3, 0));
    assert!(is_pixel_empty(255, 0, 255, 255));
    assert!(is_pixel_empty(245, 10, 245, 1));
    assert!(!is_pixel_empty(244, 0, 255, 255));
    assert!(!is_pixel_empty(255, 11, 255, 255));
    assert!(!is_pixel_empty(255, 0, 244, 255));
    assert!(!is_pixel_empty(0, 0, 0, 1));
}

#[test]
fn regions_two_glyphs_left_to_right() {
    let (px, w, h) = image(&[
        "##..#",
        "#...#",
        "....#",
    ]);
    let r = find_glyph_regions(&px, w, h).unwrap();
    assert_eq!(r, vec![b(0, 0, 2, 2), b(4, 0, 1, 3)]);
}

#[test]
fn regions_sorted_left_to_right_then_top_to_bottom() {
    let (px, w, h) = image(&[
        "...#.",
        ".....",
        "#...#",
        "#..,.",
    ]);
    let r = find_glyph_regions(&px, w, h).unwrap();
    assert_eq!(r, vec![b(0, 2, 1, 2), b(3, 0, 1, 1), b(4, 2, 1, 1)]);
}

#[test]
fn regions_glyphs_with_different_tops_keep_strip_order() {
    // A '.'-like dot low on the strip, then an 'A'-like bar from the top:
    // the order follows the strip, not the top edges.
    let (px, w, h) = image(&[
        "..#",
        "..#",
        "#.#",
    ]);
    let r = find_glyph_regions(&px, w, h).unwrap();
    assert_eq!(r, vec![b(0, 2, 1, 1), b(2, 0, 1, 3)]);
}

#[test]
fn regions_three_by_two_example() {
    let rgba: Vec<u8> = vec![
        0, 0, 0, 0, 0, 0, 0, 0, 0, 0, 0, 255, //
        0, 0, 0, 255, 0, 0, 0, 0, 0, 0, 0, 0,
    ];
    let r = find_glyph_regions(&rgba, 3, 2).unwrap();
    assert_eq!(r, vec![b(0, 1, 1, 1), b(2, 0, 1, 1)]);
}

#[test]
fn regions_depend_only_on_mask() {
    let (px, w, h) = image(&[
        "#..#",
        "##.#",
    ]);
    // Recolour the glyph pixels, make the background transparent instead of
    // the colour key, and add bytes past the image.
    let mut other = Vec::new();
    for chunk in px.chunks(4) {
        if chunk == KEY {
            other.extend_from_slice(&CLEAR);
        } else {
            other.extend_from_slice(&[10, 200, 30, 77]);
        }
    }
    other.extend_from_slice(&INK);
    other.extend_from_slice(&[1, 2, 3]);
    assert_eq!(find_glyph_regions(&px, w, h).unwrap(), find_glyph_regions(&other, w, h).unwrap());
}

#[test]
fn regions_diagonal_pixels_are_separate() {
    let (px, w, h) = image(&[
        "#.",
        ".#",
    ]);
    let r = find_glyph_regions(&px, w, h).unwrap();
    assert_eq!(r, vec![b(0, 0, 1, 1), b(1, 1, 1, 1)]);
}

#[test]
fn regions_bounding_box_of_winding_shape() {
    // A U shape whose seed is its top-left pixel, and a hook that reaches
    // left of its seed.
    let (px, w, h) = image(&[
        "#.#..#",
        "#.#..#",
        "###.##",
    ]);
    let r = find_glyph_regions(&px, w, h).unwrap();
    assert_eq!(r, vec![b(0, 0, 3, 3), b(4, 0, 2, 3)]);
}

#[test]
fn regions_equal_corners_keep_seed_order() {
    // A dot and a ring share the top-left corner (0,0); the dot's seed
    // comes first in row-major order, so the dot stays before the ring.
    let (px, w, h) = image(&[
        "#.#",
        "..#",
        "###",
    ]);
    let r = find_glyph_regions(&px, w, h).unwrap();
    assert_eq!(r, vec![b(0, 0, 1, 1), b(0, 0, 3, 3)]);
}

#[test]
fn regions_of_blank_image_are_empty() {
    let (px, w, h) = image(&["...", ",,,"]);
    assert!(find_glyph_regions(&px, w, h).unwrap().is_empty());
    assert!(find_glyph_regions(&[], 0, 0).unwrap().is_empty());
}

#[test]
fn regions_buffer_too_small() {
    let (px, w, h) = image(&["##", "##"]);
    let r = find_glyph_regions(&px[..15], w, h);
    match r {
        Err(bmpf2fnt::BmpfError::Io(m)) => assert_eq!(m, "image buffer too small"),
        _ => panic!("expected Io error"),
    }
    assert!(find_glyph_regions(&px, u32::MAX, u32::MAX).is_err());
}

#[test]
fn regions_extra_buffer_bytes_are_ignored() {
    let (mut px, w, h) = image(&["#."]);
    px.extend_from_slice(&INK);
    let r = find_glyph_regions(&px, w, h).unwrap();
    assert_eq!(r, vec![b(0, 0, 1, 1)]);
}

#[test]
fn region_contains_checks() {
    let (px, w, h) = image(&[
        "....",
        ".#..",
        "....",
    ]);
    assert!(glyph_region_contains(&b(0, 0, 2, 2), &px, w, h));
    assert!(glyph_region_contains(&b(1, 1, 1, 1), &px, w, h));
    assert!(!glyph_region_contains(&b(2, 0, 2, 3), &px, w, h));
    assert!(!glyph_region_contains(&b(1, 1, 0, 1), &px, w, h));
    // Columns and rows outside the image are skipped.
    assert!(!glyph_region_contains(&b(4, 0, 10, 10), &px, w, h));
    assert!(glyph_region_contains(&b(0, 0, 100, 100), &px, w, h));
    // A buffer that ends early hides the pixel.
    assert!(!glyph_region_contains(&b(1, 1, 1, 1), &px[..20], w, h));
    // Huge coordinates do not wrap around.
    assert!(!glyph_region_contains(&b(u32::MAX, u32::MAX, 3, 3), &px, w, h));
}

/// A small deterministic pseudo-random picture.
fn noise(w: u32, h: u32, seed: u32) -> Vec<u8> {
    let mut state = seed;
    let mut px = Vec::new();
    for _ in 0..w * h {
        state = state.wrapping_mul(1103515245).wrapping_add(12345);
        px.extend_from_slice(if (state >> 16) % 3 == 0 { &INK } else { &KEY });
    }
    px
}

#[test]
fn regions_cover_all_glyph_pixels_and_are_sorted() {
    for seed in 0..20 {
        let (w, h) = (13u32, 9u32);
        let px = noise(w, h, seed);
        let regions = find_glyph_regions(&px, w, h).unwrap();
        for pair in regions.windows(2) {
            assert!((pair[0].x, pair[0].y) <= (pair[1].x, pair[1].y));
        }
        for r in &regions {
            assert!(r.w >= 1 && r.h >= 1 && r.x + r.w <= w && r.y + r.h <= h);
            assert!(glyph_region_contains(r, &px, w, h));
        }
        for y in 0..h {
            for x in 0..w {
                let i = ((y * w + x) * 4) as usize;
                if !is_pixel_empty(px[i], px[i + 1], px[i + 2], px[i + 3]) {
                    assert!(regions
                        .iter()
                        .any(|r| r.x <= x && x < r.x + r.w && r.y <= y && y < r.y + r.h));
                }
            }
        }
    }
}
