use bmpf2fnt::{generate_bmfont, BmpfError, FontAtlas, GlyphRegion};

#[test]
fn fnt_negative_offsets_and_large_numbers() {
    let atlas = FontAtlas {
        texture_w: 4294967295,
        texture_h: 1000,
        line_height: 120,
        base: 0,
        glyphs: vec![GlyphRegion {
            code: 255,
            x: 1234567,
            y: 10,
            w: 0,
            h: 9,
            x_advance: 65535,
            x_offset: -3,
            y_offset: -2147483648,
        }],
    };
    let fnt = generate_bmfont(&atlas, "Näme", "a b.png");
    let expected = "info face=\"Näme\" size=120 bold=0 italic=0 charset=\"\" unicode=0 stretchH=100 smooth=1 aa=1 padding=0,0,0,0 spacing=0,0\n\
common lineHeight=120 base=0 scaleW=4294967295 scaleH=1000 pages=1 packed=0\n\
page id=0 file=\"a b.png\"\n\
chars count=1\n\
char id=255 x=1234567 y=10 w=0 h=9 xoffset=-3 yoffset=-2147483648 xadvance=65535 page=0 chnl=0\n";
    assert_eq!(fnt, expected);
}

#[test]
fn fnt_without_glyphs() {
    let atlas = FontAtlas { texture_w: 0, texture_h: 0, line_height: 1, base: 1, glyphs: vec![] };
    let fnt = generate_bmfont(&atlas, "", "");
    assert!(fnt.ends_with("page id=0 file=\"\"\nchars count=0\n"));
    assert_eq!(fnt.lines().count(), 4);
}

fn image_error() -> image::ImageError {
    image::ImageError::Parameter(image::error::ParameterError::from_kind(
        image::error::ParameterErrorKind::DimensionMismatch,
    ))
}

#[test]
fn error_messages() {
    assert_eq!(BmpfError::BadHeader.to_string(), "file too short for header");
    assert_eq!(BmpfError::BadMagic.to_string(), "not a .bmpf file: bad magic header");
    assert_eq!(
        BmpfError::InvalidRecord { index: 42, message: "odd".to_string() }.to_string(),
        "invalid record #42: odd"
    );
    assert_eq!(BmpfError::NoGlyphsFound.to_string(), "no glyphs found in image");
    assert_eq!(
        BmpfError::Mismatch { bmpf_chars: 103, glyphs_found: 0 }.to_string(),
        "bmpf has 103 chars but found 0 glyphs"
    );
    assert_eq!(BmpfError::Io("disk on fire".to_string()).to_string(), "disk on fire");
}

#[test]
fn error_message_of_image_error() {
    let e = image_error();
    let expected = format!("image error: {}", e);
    let msg = BmpfError::from(e).to_string();
    assert_eq!(msg, expected);
    assert!(msg.len() > "image error: ".len());
}

#[test]
fn error_from_image_error() {
    assert!(matches!(BmpfError::from(image_error()), BmpfError::Image(_)));
}

#[test]
fn error_clone() {
    let c = BmpfError::Image(image_error()).clone();
    match c {
        BmpfError::Io(m) => assert_eq!(m, "image error (not cloneable)"),
        _ => panic!("expected Io"),
    }
    match (BmpfError::InvalidRecord { index: 3, message: "m".to_string() }).clone() {
        BmpfError::InvalidRecord { index, message } => {
            assert_eq!(index, 3);
            assert_eq!(message, "m");
        }
        _ => panic!("expected InvalidRecord"),
    }
    match (BmpfError::Mismatch { bmpf_chars: 1, glyphs_found: 2 }).clone() {
        BmpfError::Mismatch { bmpf_chars, glyphs_found } => assert_eq!((bmpf_chars, glyphs_found), (1, 2)),
        _ => panic!("expected Mismatch"),
    }
    assert!(matches!(BmpfError::BadMagic.clone(), BmpfError::BadMagic));
    assert!(matches!(BmpfError::Io("x".to_string()).clone(), BmpfError::Io(m) if m == "x"));
}

#[test]
fn fnt_numbers_read_back() {
    for &v in &[0u32, 7, 10, 99, 100, 65536, 4294967295] {
        let atlas = FontAtlas { texture_w: v, texture_h: 0, line_height: 0, base: 0, glyphs: vec![] };
        let fnt = generate_bmfont(&atlas, "n", "p");
        let field = fnt.split("scaleW=").nth(1).unwrap().split(' ').next().unwrap();
        assert_eq!(field.parse::<u32>().unwrap(), v);
    }
    for &v in &[-1i32, -10, 0, 5, i32::MIN, i32::MAX] {
        let g = GlyphRegion { code: 0, x: 0, y: 0, w: 0, h: 0, x_advance: 0, x_offset: v, y_offset: 0 };
        let atlas = FontAtlas { texture_w: 0, texture_h: 0, line_height: 0, base: 0, glyphs: vec![g] };
        let fnt = generate_bmfont(&atlas, "n", "p");
        let field = fnt.split("xoffset=").nth(1).unwrap().split(' ').next().unwrap();
        assert_eq!(field.parse::<i32>().unwrap(), v);
    }
}

#[test]
fn image_message_prefixes_text() {
    assert_eq!(bmpf2fnt::error::image_message("bad png").as_str(), "image error: bad png");
    assert_eq!(bmpf2fnt::error::image_message("").as_str(), "image error: ");
}
