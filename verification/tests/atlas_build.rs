use bmpf2fnt::{build_font_atlas, generate_bmfont, BmpfChar, BmpfError, BmpfFont, GlyphRegion};

const INK: [u8; 4] = [0, 0, 0, 255];
const KEY: [u8; 4] = [255, 0, 255, 255];

fn image(rows: &[&str]) -> (Vec<u8>, u32, u32) {
    let h = rows.len() as u32;
    let w = rows[0].len() as u32;
    let mut px = Vec::new();
    for row in rows {
        for ch in row.chars() {
            px.extend_from_slice(if ch == '#' { &INK } else { &KEY });
        }
    }
    (px, w, h)
}

fn font(chars: &[(u8, u16)], height: u16) -> BmpfFont {
    BmpfFont {
        chars: chars.iter().map(|&(code, advance)| BmpfChar { code, advance }).collect(),
        height,
    }
}

#[test]
fn atlas_matches_glyphs_in_order() {
    let (px, w, h) = image(&[
        "#..##.",
        "#...#.",
        "#...#.",
    ]);
    let f = font(&[(b'A', 4), (b'B', 5), (b' ', 3)], 13);
    let atlas = build_font_atlas(&px, w, h, &f).unwrap();
    assert_eq!(atlas.texture_w, 6);
    assert_eq!(atlas.texture_h, 3);
    assert_eq!(atlas.line_height, 13);
    assert_eq!(atlas.base, 3);
    assert_eq!(
        atlas.glyphs,
        vec![
            GlyphRegion { code: b'A', x_advance: 4, x: 0, y: 0, w: 1, h: 3, x_offset: 0, y_offset: 0 },
            GlyphRegion { code: b'B', x_advance: 5, x: 3, y: 0, w: 2, h: 3, x_offset: 0, y_offset: 0 },
            GlyphRegion { code: b' ', x_advance: 3, x: 0, y: 0, w: 0, h: 0, x_offset: 0, y_offset: 0 },
        ]
    );
}

#[test]
fn atlas_base_is_lowest_bottom() {
    let (px, w, h) = image(&[
        "#.....",
        "...#..",
        "...#..",
        "......",
    ]);
    let f = font(&[(1, 1), (2, 2)], 0);
    let atlas = build_font_atlas(&px, w, h, &f).unwrap();
    assert_eq!(atlas.line_height, 1);
    assert_eq!(atlas.base, 3);
}

#[test]
fn atlas_without_chars_uses_line_height_as_base() {
    let (px, w, h) = image(&["#"]);
    let atlas = build_font_atlas(&px, w, h, &font(&[], 7)).unwrap();
    assert!(atlas.glyphs.is_empty());
    assert_eq!(atlas.base, 7);
}

#[test]
fn atlas_more_glyphs_than_chars() {
    let (px, w, h) = image(&["#.#.#"]);
    let atlas = build_font_atlas(&px, w, h, &font(&[(9, 9)], 2)).unwrap();
    assert_eq!(atlas.glyphs.len(), 1);
    assert_eq!(atlas.glyphs[0].x, 0);
    assert_eq!(atlas.base, 1);
}

#[test]
fn atlas_no_glyphs_found() {
    let (px, w, h) = image(&["...", "..."]);
    let r = build_font_atlas(&px, w, h, &font(&[(65, 1)], 8));
    assert!(matches!(r, Err(BmpfError::NoGlyphsFound)));
}

#[test]
fn atlas_buffer_too_small() {
    let (px, w, h) = image(&["#."]);
    let r = build_font_atlas(&px[..7], w, h, &font(&[(65, 1)], 8));
    match r {
        Err(BmpfError::Io(m)) => assert_eq!(m, "image buffer too small"),
        _ => panic!("expected Io error"),
    }
}

#[test]
fn atlas_to_fnt_text() {
    let (px, w, h) = image(&["#.##"]);
    let f = font(&[(65, 2), (66, 3), (67, 4)], 1);
    let atlas = build_font_atlas(&px, w, h, &f).unwrap();
    let fnt = generate_bmfont(&atlas, "tiny", "tiny.png");
    assert!(fnt.contains("common lineHeight=1 base=1 scaleW=4 scaleH=1 pages=1 packed=0\n"));
    assert!(fnt.contains("chars count=3\n"));
    assert!(fnt.contains("char id=66 x=2 y=0 w=2 h=1 xoffset=0 yoffset=0 xadvance=3 page=0 chnl=0\n"));
    assert!(fnt.ends_with("char id=67 x=0 y=0 w=0 h=0 xoffset=0 yoffset=0 xadvance=4 page=0 chnl=0\n"));
}

#[test]
fn fnt_carries_codes_and_advances() {
    let (px, w, h) = image(&[
        "#.#..",
        "#.#.#",
    ]);
    let f = font(&[(b'i', 2), (b'l', 3), (b'.', 1), (b' ', 4)], 2);
    let atlas = build_font_atlas(&px, w, h, &f).unwrap();
    let fnt = generate_bmfont(&atlas, "x", "x.png");
    let lines: Vec<&str> = fnt.lines().collect();
    assert_eq!(lines[3], "chars count=4");
    assert_eq!(lines.len(), 4 + f.chars.len());
    for (i, c) in f.chars.iter().enumerate() {
        let line = lines[4 + i];
        assert!(line.starts_with(&format!("char id={} ", c.code)));
        assert!(line.ends_with(&format!(" xadvance={} page=0 chnl=0", c.advance)));
    }
}
