use bmpf2fnt::{BmpfError, BmpfFont};

const MAGIC: &[u8] = b"Unreal Software Bitmap Font Wizard bmpf File\r\n";

fn file(meta: Option<(u16, u16)>, records: &[(u8, u16)], trailing: &[u8]) -> Vec<u8> {
    let mut data = MAGIC.to_vec();
    if let Some((h, u)) = meta {
        data.extend_from_slice(&[0x00, 0x01]);
        data.extend_from_slice(&h.to_le_bytes());
        data.extend_from_slice(&u.to_le_bytes());
    }
    for &(code, adv) in records {
        data.push(code);
        data.extend_from_slice(&adv.to_le_bytes());
    }
    data.extend_from_slice(&[0, 0, 0]);
    data.extend_from_slice(trailing);
    data
}

#[test]
fn parse_short_input_is_bad_header() {
    let r = BmpfFont::parse(&MAGIC[..45]);
    assert!(matches!(r, Err(BmpfError::BadHeader)));
    assert!(matches!(BmpfFont::parse(&[]), Err(BmpfError::BadHeader)));
}

#[test]
fn parse_wrong_header_is_bad_magic() {
    let mut data = MAGIC.to_vec();
    data[45] = b'x';
    assert!(matches!(BmpfFont::parse(&data), Err(BmpfError::BadMagic)));
    let data = vec![b'a'; 60];
    assert!(matches!(BmpfFont::parse(&data), Err(BmpfError::BadMagic)));
}

#[test]
fn parse_header_only_gives_empty_font() {
    let font = BmpfFont::parse(MAGIC).unwrap();
    assert!(font.chars.is_empty());
    assert_eq!(font.height, 0);
}

#[test]
fn parse_without_terminator_stops_at_last_full_record() {
    let mut data = MAGIC.to_vec();
    data.extend_from_slice(&[0x41, 0x05, 0x00, 0x42, 0x07]);
    let font = BmpfFont::parse(&data).unwrap();
    assert_eq!(font.chars.len(), 1);
    assert_eq!(font.chars[0].code, 0x41);
    assert_eq!(font.chars[0].advance, 5);
}

#[test]
fn parse_ignores_bytes_after_terminator() {
    let data = file(None, &[(0x41, 300), (0x42, 7)], &[9, 9, 9, 9, 9, 9]);
    let font = BmpfFont::parse(&data).unwrap();
    assert_eq!(font.chars.len(), 2);
    assert_eq!(font.chars[0].advance, 300);
    assert_eq!(font.chars[1].code, 0x42);
}

#[test]
fn parse_roundtrip_with_meta() {
    let records = [(0u8, 9u16), (1, 10), (255, 0x1234)];
    let data = file(Some((0x0102, 16)), &records, &[1, 2]);
    let font = BmpfFont::parse(&data).unwrap();
    assert_eq!(font.height, 0x0102);
    let got: Vec<(u8, u16)> = font.chars.iter().map(|c| (c.code, c.advance)).collect();
    assert_eq!(got, records.to_vec());
}

#[test]
fn parse_roundtrip_without_meta() {
    let records = [(0x65u8, 0x1000u16), (0x21, 6), (0, 2)];
    let data = file(None, &records, &[]);
    let font = BmpfFont::parse(&data).unwrap();
    assert_eq!(font.height, 0);
    let got: Vec<(u8, u16)> = font.chars.iter().map(|c| (c.code, c.advance)).collect();
    assert_eq!(got, records.to_vec());
}

#[test]
fn parse_meta_needs_six_bytes() {
    // Only five bytes follow the header: no metadata, one record.
    let mut data = MAGIC.to_vec();
    data.extend_from_slice(&[0x00, 0x01, 0x0d, 0x00, 0x10]);
    let font = BmpfFont::parse(&data).unwrap();
    assert_eq!(font.height, 0);
    assert_eq!(font.chars.len(), 1);
    assert_eq!(font.chars[0].code, 0);
    assert_eq!(font.chars[0].advance, 0x0d01);
}

#[test]
fn parse_record_of_code_zero_advance_one_reads_as_metadata() {
    // The metadata heuristic: a first record (0, advance with low byte 1)
    // followed by enough bytes is taken for the metadata block.
    let data = file(None, &[(0, 1), (0x41, 3)], &[]);
    let font = BmpfFont::parse(&data).unwrap();
    assert_eq!(font.height, 0x4100);
    assert!(font.chars.is_empty());
}

#[test]
fn parse_no_record_is_all_zero() {
    let mut data = MAGIC.to_vec();
    data.extend_from_slice(&[7, 0, 0, 0, 0, 0, 8, 1, 0]);
    let font = BmpfFont::parse(&data).unwrap();
    assert_eq!(font.chars.len(), 1);
    assert!(font.chars.iter().all(|c| !(c.code == 0 && c.advance == 0)));
}

#[test]
fn parse_record_count_bounded_by_bytes() {
    let mut data = MAGIC.to_vec();
    data.extend_from_slice(&[1, 1, 1, 2, 2, 2, 3, 3]);
    let font = BmpfFont::parse(&data).unwrap();
    assert_eq!(font.chars.len(), 2);
    assert!(3 * font.chars.len() <= data.len() - MAGIC.len());
}
