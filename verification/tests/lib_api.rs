use bmpf2fnt::{generate_bmfont, BmpfFont, FontAtlas, GlyphRegion};

const MAGIC: &[u8] = b"Unreal Software Bitmap Font Wizard bmpf File\r\n";

#[test]
fn lib_test_parse_font_norm() {
    // Build a minimal .bmpf with header + 3 characters + terminator
    let mut data = MAGIC.to_vec();
    // char 'e'(0x65) advance=16, char '!' advance=6, char '"' advance=9
    data.extend_from_slice(&[0x65, 0x10, 0x00]); // e
    data.extend_from_slice(&[0x21, 0x06, 0x00]); // !
    data.extend_from_slice(&[0x22, 0x09, 0x00]); // "
    data.extend_from_slice(&[0x00, 0x00, 0x00]); // terminator

    let font = BmpfFont::parse(&data).unwrap();
    assert_eq!(font.chars.len(), 3);
    assert_eq!(font.chars[0].code, 0x65);
    assert_eq!(font.chars[0].advance, 16);
    assert_eq!(font.chars[1].code, 0x21);
    assert_eq!(font.chars[1].advance, 6);
    assert_eq!(font.chars[2].code, 0x22);
    assert_eq!(font.chars[2].advance, 9);
}

#[test]
fn test_parse_font_tiny_with_meta() {
    let mut data = MAGIC.to_vec();
    // Meta: count=256, height=13, unknown=16
    data.extend_from_slice(&[0x00, 0x01, 0x0d, 0x00, 0x10, 0x00]);
    // Just 3 characters + terminator (not full 256 for test brevity)
    for code in 0..3u8 {
        data.extend_from_slice(&[code, 0x09, 0x00]); // width=9
    }
    data.extend_from_slice(&[0x00, 0x00, 0x00]);

    let font = BmpfFont::parse(&data).unwrap();
    assert_eq!(font.height, 13);
    assert_eq!(font.chars.len(), 3);
    assert_eq!(font.chars[0].advance, 9);
}

#[test]
fn lib_test_reject_bad_magic() {
    let data = b"not a bmpf file";
    let result = BmpfFont::parse(data);
    assert!(result.is_err());
}

fn sample_atlas() -> FontAtlas {
    FontAtlas {
        texture_w: 256,
        texture_h: 64,
        line_height: 16,
        base: 13,
        glyphs: vec![
            GlyphRegion {
                code: 65, x: 0, y: 0, w: 8, h: 12,
                x_advance: 10, x_offset: 0, y_offset: 1,
            },
            GlyphRegion {
                code: 66, x: 10, y: 0, w: 7, h: 12,
                x_advance: 9, x_offset: 0, y_offset: 1,
            },
        ],
    }
}

#[test]
fn lib_test_generate_bmfont() {
    let atlas = sample_atlas();
    let fnt = generate_bmfont(&atlas, "test", "../textures/test.png");
    assert!(fnt.contains(r#"face="test""#));
    assert!(fnt.contains("size=16"));
    assert!(fnt.contains("lineHeight=16 base=13 scaleW=256 scaleH=64"));
    assert!(fnt.contains(r#"file="../textures/test.png""#));
    assert!(fnt.contains("chars count=2"));
    assert!(fnt.contains("char id=65 x=0 y=0 w=8 h=12 xoffset=0 yoffset=1 xadvance=10"));
    assert!(fnt.contains("char id=66 x=10 y=0 w=7 h=12 xoffset=0 yoffset=1 xadvance=9"));
}

#[test]
fn fnt_test_generate_bmfont() {
    let atlas = FontAtlas {
        texture_w: 256,
        texture_h: 64,
        line_height: 16,
        base: 13,
        glyphs: vec![
            GlyphRegion {
                code: 65,
                x: 0,
                y: 0,
                w: 8,
                h: 12,
                x_advance: 10,
                x_offset: 0,
                y_offset: 1,
            },
            GlyphRegion {
                code: 66,
                x: 10,
                y: 0,
                w: 7,
                h: 12,
                x_advance: 9,
                x_offset: 0,
                y_offset: 1,
            },
        ],
    };

    let fnt = generate_bmfont(&atlas, "test", "../textures/test.png");
    assert!(fnt.contains(r#"face="test""#));
    assert!(fnt.contains("size=16"));
    assert!(fnt.contains("lineHeight=16 base=13 scaleW=256 scaleH=64"));
    assert!(fnt.contains(r#"file="../textures/test.png""#));
    assert!(fnt.contains("chars count=2"));
    assert!(fnt.contains(
        "char id=65 x=0 y=0 w=8 h=12 xoffset=0 yoffset=1 xadvance=10"
    ));
    assert!(fnt.contains(
        "char id=66 x=10 y=0 w=7 h=12 xoffset=0 yoffset=1 xadvance=9"
    ));
}

#[test]
fn generate_bmfont_exact_text() {
    let atlas = sample_atlas();
    let fnt = generate_bmfont(&atlas, "test", "../textures/test.png");
    let expected = "info face=\"test\" size=16 bold=0 italic=0 charset=\"\" unicode=0 stretchH=100 smooth=1 aa=1 padding=0,0,0,0 spacing=0,0\n\
common lineHeight=16 base=13 scaleW=256 scaleH=64 pages=1 packed=0\n\
page id=0 file=\"../textures/test.png\"\n\
chars count=2\n\
char id=65 x=0 y=0 w=8 h=12 xoffset=0 yoffset=1 xadvance=10 page=0 chnl=0\n\
char id=66 x=10 y=0 w=7 h=12 xoffset=0 yoffset=1 xadvance=9 page=0 chnl=0\n";
    assert_eq!(fnt, expected);
}
