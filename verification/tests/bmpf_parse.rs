use bmpf2fnt::BmpfFont;

const MAGIC: &[u8] = b"Unreal Software Bitmap Font Wizard bmpf File\r\n";

#[test]
fn bmpf_test_parse_font_norm() {
    let mut data = MAGIC.to_vec();
    data.extend_from_slice(&[0x65, 0x10, 0x00]);
    data.extend_from_slice(&[0x21, 0x06, 0x00]);
    data.extend_from_slice(&[0x22, 0x09, 0x00]);
    data.extend_from_slice(&[0x00, 0x00, 0x00]);

    let font = BmpfFont::parse(&data).unwrap();
    assert_eq!(font.chars.len(), 3);
    assert_eq!(font.chars[0].code, 0x65);
    assert_eq!(font.chars[0].advance, 16);
    assert_eq!(font.chars[1].code, 0x21);
    assert_eq!(font.chars[1].advance, 6);
    assert_eq!(font.chars[2].code, 0x22);
    assert_eq!(font.chars[2].advance, 9);
}

#[test]
fn test_parse_with_meta() {
    let mut data = MAGIC.to_vec();
    data.extend_from_slice(&[0x00, 0x01, 0x0d, 0x00, 0x10, 0x00]);
    for code in 0..3u8 {
        data.extend_from_slice(&[code, 0x09, 0x00]);
    }
    data.extend_from_slice(&[0x00, 0x00, 0x00]);

    let font = BmpfFont::parse(&data).unwrap();
    assert_eq!(font.height, 13);
    assert_eq!(font.chars.len(), 3);
    assert_eq!(font.chars[0].advance, 9);
}

#[test]
fn bmpf_test_reject_bad_magic() {
    let data = b"not a bmpf file";
    let result = BmpfFont::parse(data);
    assert!(result.is_err());
}
