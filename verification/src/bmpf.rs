//! The `.bmpf` container: header check, optional metadata and glyph records.
use crate::error::BmpfError;
use vstd::prelude::*;

verus! {

/// Length of the magic header that opens every `.bmpf` file.
pub const MAGIC_LEN: usize = 46;

/// The magic header, `"Unreal Software Bitmap Font Wizard bmpf File\r\n"`, as bytes.
pub open spec fn spec_magic() -> Seq<u8> {
    seq![
        85u8, 110, 114, 101, 97, 108, 32, // "Unreal "
        83, 111, 102, 116, 119, 97, 114, 101, 32, // "Software "
        66, 105, 116, 109, 97, 112, 32, // "Bitmap "
        70, 111, 110, 116, 32, // "Font "
        87, 105, 122, 97, 114, 100, 32, // "Wizard "
        98, 109, 112, 102, 32, // "bmpf "
        70, 105, 108, 101, 13, 10, // "File\r\n"
    ]
}

/// One glyph record: a character code and its advance width.
#[derive(Debug, Clone, Copy, PartialEq, Eq, Structural)]
pub struct BmpfChar {
    pub code: u8,
    pub advance: u16,
}

/// A parsed `.bmpf` font: character-code → advance-width mapping.
#[derive(Debug, Clone)]
pub struct BmpfFont {
    /// Characters in the order they appear in the file (also image order).
    pub chars: Vec<BmpfChar>,
    /// Rendered height of the font (0 if unknown).
    pub height: u16,
}

/// A little-endian `u16` made of two bytes.
pub open spec fn le16(lo: u8, hi: u8) -> u16 {
    (lo as int + 256 * (hi as int)) as u16
}

/// Three zero bytes end the record list.
pub open spec fn is_terminator(s: Seq<u8>) -> bool {
    s.len() >= 3 && s[0] == 0 && s[1] == 0 && s[2] == 0
}

/// The records of a record area: 3-byte records, read until the
/// terminator or until fewer than 3 bytes remain.
pub open spec fn spec_records(s: Seq<u8>) -> Seq<BmpfChar>
    decreases s.len(),
{
    if s.len() < 3 || is_terminator(s) {
        seq![]
    } else {
        seq![BmpfChar { code: s[0], advance: le16(s[1], s[2]) }] + spec_records(s.skip(3))
    }
}

/// Whether the bytes after the header start with the 6-byte metadata block
/// (its first field, the char count, reads 256).
pub open spec fn has_meta(rest: Seq<u8>) -> bool {
    rest.len() >= 6 && rest[0] == 0 && rest[1] == 1
}

/// The bytes after the magic header.
pub open spec fn after_header(data: Seq<u8>) -> Seq<u8> {
    data.skip(MAGIC_LEN as int)
}

/// The font height that the metadata block gives, 0 without one.
pub open spec fn spec_height(data: Seq<u8>) -> u16 {
    let rest = after_header(data);
    if has_meta(rest) { le16(rest[2], rest[3]) } else { 0 }
}

/// The record area: what follows the header and the metadata, if any.
pub open spec fn record_area(data: Seq<u8>) -> Seq<u8> {
    let rest = after_header(data);
    if has_meta(rest) { rest.skip(6) } else { rest }
}

/// Whether the data starts with the magic header.
pub open spec fn has_magic(data: Seq<u8>) -> bool {
    data.len() >= MAGIC_LEN && data.take(MAGIC_LEN as int) == spec_magic()
}

fn starts_with_magic(data: &[u8]) -> (res: bool)
    requires
        data@.len() >= MAGIC_LEN,
    ensures
        res == has_magic(data@),
{
    let magic: [u8; 46] = [
        85, 110, 114, 101, 97, 108, 32, 83, 111, 102, 116, 119, 97, 114, 101, 32, 66, 105, 116,
        109, 97, 112, 32, 70, 111, 110, 116, 32, 87, 105, 122, 97, 114, 100, 32, 98, 109, 112,
        102, 32, 70, 105, 108, 101, 13, 10,
    ];
    assert(magic@ =~= spec_magic());
    let mut i: usize = 0;
    while i < MAGIC_LEN
        invariant
            i <= MAGIC_LEN,
            data@.len() >= MAGIC_LEN,
            magic@ == spec_magic(),
            forall|j: int| 0 <= j < i ==> data@[j] == spec_magic()[j],
        decreases MAGIC_LEN - i,
    {
        if data[i] != magic[i] {
            assert(data@.take(MAGIC_LEN as int)[i as int] != spec_magic()[i as int]);
            return false;
        }
        i = i + 1;
    }
    assert(data@.take(MAGIC_LEN as int) =~= spec_magic());
    true
}

impl BmpfFont {
    /// Parse a `.bmpf` byte slice into a `BmpfFont`.
    pub fn parse(data: &[u8]) -> (res: Result<Self, BmpfError>)
        ensures
            data@.len() < MAGIC_LEN <==> res matches Err(BmpfError::BadHeader),
            data@.len() >= MAGIC_LEN && !has_magic(data@) <==> res matches Err(
                BmpfError::BadMagic,
            ),
            has_magic(data@) <==> res is Ok,
            res matches Ok(font) ==> {
                &&& font.chars@ == spec_records(record_area(data@))
                &&& font.height == spec_height(data@)
            },
    {
        if data.len() < MAGIC_LEN {
            return Err(BmpfError::BadHeader);
        }
        if !starts_with_magic(data) {
            return Err(BmpfError::BadMagic);
        }
        let rest_len = data.len() - MAGIC_LEN;
        let (meta_size, height) = if rest_len >= 6 && data[MAGIC_LEN] == 0 && data[MAGIC_LEN + 1]
            == 1 {
            let h = data[MAGIC_LEN + 2] as u16 + 256 * (data[MAGIC_LEN + 3] as u16);
            (6usize, h)
        } else {
            (0usize, 0u16)
        };
        let start = MAGIC_LEN + meta_size;
        let ghost records = record_area(data@);
        assert(records =~= data@.skip(start as int));
        let mut chars: Vec<BmpfChar> = Vec::new();
        let mut i: usize = start;
        loop
            invariant
                start <= i <= data@.len(),
                records == data@.skip(start as int),
                spec_records(records) == chars@ + spec_records(data@.skip(i as int)),
            ensures
                spec_records(records) == chars@,
            decreases data@.len() - i,
        {
            let ghost tail = data@.skip(i as int);
            if data.len() - i < 3 {
                assert(spec_records(tail) =~= seq![]);
                assert(chars@ + seq![] =~= chars@);
                break;
            }
            if data[i] == 0 && data[i + 1] == 0 && data[i + 2] == 0 {
                assert(spec_records(tail) =~= seq![]);
                assert(chars@ + seq![] =~= chars@);
                break;
            }
            let code = data[i];
            let advance = data[i + 1] as u16 + 256 * (data[i + 2] as u16);
            let c = BmpfChar { code, advance };
            assert(tail.skip(3) =~= data@.skip(i + 3));
            assert(spec_records(tail) == seq![c] + spec_records(tail.skip(3)));
            chars.push(c);
            assert(chars@ + spec_records(data@.skip(i + 3)) =~= (chars@.drop_last() + seq![c])
                + spec_records(data@.skip(i + 3)));
            i = i + 3;
        }
        Ok(BmpfFont { chars, height })
    }
}


/// The three bytes of a record: the code, then the advance in little-endian order.
pub open spec fn encode_record(c: BmpfChar) -> Seq<u8> {
    seq![c.code, (c.advance % 256) as u8, (c.advance / 256) as u8]
}

/// The records of `cs`, back to back.
pub open spec fn encode_records(cs: Seq<BmpfChar>) -> Seq<u8>
    decreases cs.len(),
{
    if cs.len() == 0 {
        seq![]
    } else {
        encode_record(cs[0]) + encode_records(cs.drop_first())
    }
}

/// The metadata block: char count 256, the height, and the unknown field.
pub open spec fn encode_meta(height: u16, unknown: u16) -> Seq<u8> {
    seq![0u8, 1u8, (height % 256) as u8, (height / 256) as u8, (unknown % 256) as u8, (unknown / 256) as u8]
}

/// A whole `.bmpf` file: header, optional metadata `(height, unknown)`,
/// the records, the terminator and whatever follows it.
pub open spec fn encode_file(meta: Option<(u16, u16)>, cs: Seq<BmpfChar>, trailing: Seq<u8>) -> Seq<u8> {
    let m = match meta {
        Some((height, unknown)) => encode_meta(height, unknown),
        None => seq![],
    };
    spec_magic() + m + encode_records(cs) + seq![0u8, 0u8, 0u8] + trailing
}

/// A record whose three bytes are all zero; it would read as the terminator.
pub open spec fn is_zero_record(c: BmpfChar) -> bool {
    c.code == 0 && c.advance == 0
}

/// Records never hold the terminator: no record read is all zero.
pub proof fn law_records_not_zero(s: Seq<u8>)
    ensures
        forall|i: int| 0 <= i < spec_records(s).len() ==> !is_zero_record(#[trigger] spec_records(s)[i]),
    decreases s.len(),
{
    if !(s.len() < 3 || is_terminator(s)) {
        law_records_not_zero(s.skip(3));
        let c = BmpfChar { code: s[0], advance: le16(s[1], s[2]) };
        assert(!is_zero_record(c)) by {
            if c.code == 0 && c.advance == 0 {
                assert(s[1] == 0 && s[2] == 0);
            }
        }
        assert forall|i: int| 0 <= i < spec_records(s).len() implies !is_zero_record(
            #[trigger] spec_records(s)[i],
        ) by {
            if i > 0 {
                assert(spec_records(s)[i] == spec_records(s.skip(3))[i - 1]);
            }
        }
    }
}

/// Each record takes three bytes: there are at most `len / 3` of them.
pub proof fn law_records_len(s: Seq<u8>)
    ensures
        3 * spec_records(s).len() <= s.len(),
    decreases s.len(),
{
    if !(s.len() < 3 || is_terminator(s)) {
        law_records_len(s.skip(3));
    }
}

/// Reading records gives back what was written, up to the terminator,
/// whatever follows it.
pub proof fn law_records_roundtrip(cs: Seq<BmpfChar>, trailing: Seq<u8>)
    requires
        forall|i: int| 0 <= i < cs.len() ==> !is_zero_record(#[trigger] cs[i]),
    ensures
        spec_records(encode_records(cs) + seq![0u8, 0u8, 0u8] + trailing) == cs,
    decreases cs.len(),
{
    let s = encode_records(cs) + seq![0u8, 0u8, 0u8] + trailing;
    if cs.len() == 0 {
        assert(s[0] == 0 && s[1] == 0 && s[2] == 0);
        assert(spec_records(s) =~= cs);
    } else {
        let c = cs[0];
        let rest = cs.drop_first();
        assert forall|i: int| 0 <= i < rest.len() implies !is_zero_record(#[trigger] rest[i]) by {
            assert(rest[i] == cs[i + 1]);
        }
        law_records_roundtrip(rest, trailing);
        assert(s =~= encode_record(c) + (encode_records(rest) + seq![0u8, 0u8, 0u8] + trailing));
        assert(s.skip(3) =~= encode_records(rest) + seq![0u8, 0u8, 0u8] + trailing);
        assert(le16(s[1], s[2]) == c.advance);
        assert(!is_zero_record(c));
        assert(!is_terminator(s)) by {
            if is_terminator(s) {
                assert(c.advance == 0);
            }
        }
        assert(spec_records(s) =~= seq![c] + rest);
    }
}

/// Parsing a file gives back the records and the height it was written
/// with. Without metadata, the records must not start like the metadata
/// block (a first record with code 0 whose advance has low byte 1 would be
/// read as one).
pub proof fn law_parse_roundtrip(meta: Option<(u16, u16)>, cs: Seq<BmpfChar>, trailing: Seq<u8>)
    requires
        forall|i: int| 0 <= i < cs.len() ==> !is_zero_record(#[trigger] cs[i]),
        meta is None ==> !has_meta(encode_records(cs) + seq![0u8, 0u8, 0u8] + trailing),
    ensures
        has_magic(encode_file(meta, cs, trailing)),
        spec_records(record_area(encode_file(meta, cs, trailing))) == cs,
        spec_height(encode_file(meta, cs, trailing)) == match meta {
            Some((height, _)) => height,
            None => 0u16,
        },
{
    let data = encode_file(meta, cs, trailing);
    let body = encode_records(cs) + seq![0u8, 0u8, 0u8] + trailing;
    law_records_roundtrip(cs, trailing);
    assert(data.take(MAGIC_LEN as int) =~= spec_magic());
    match meta {
        Some((height, unknown)) => {
            let m = encode_meta(height, unknown);
            assert(after_header(data) =~= m + body);
            assert(has_meta(after_header(data)));
            assert(after_header(data).skip(6) =~= body);
            assert(le16(m[2], m[3]) == height);
        },
        None => {
            assert(after_header(data) =~= body);
        },
    }
}
} // verus!
