//! The error type shared by parsing and atlas building.
use crate::text::{dec_text, push_dec};
use vstd::prelude::*;

verus! {

/// `image::ImageError`, the error type of the `image` crate, declared as an
/// opaque type: it is only carried through, never looked into.
#[verifier::external_type_specification]
#[verifier::external_body]
pub struct ExImageError(image::ImageError);

/// Everything that can go wrong while reading a font or building its atlas.
#[derive(Debug)]
pub enum BmpfError {
    BadHeader,
    BadMagic,
    InvalidRecord { index: usize, message: String },
    NoGlyphsFound,
    Mismatch { bmpf_chars: usize, glyphs_found: usize },
    Image(image::ImageError),
    Io(String),
}

/// What the description of an error says, for every kind but `Image`, whose
/// text comes from the `image` crate.
pub open spec fn spec_message(e: BmpfError) -> Seq<char> {
    match e {
        BmpfError::BadHeader => "file too short for header"@,
        BmpfError::BadMagic => "not a .bmpf file: bad magic header"@,
        BmpfError::InvalidRecord { index, message } => "invalid record #"@ + dec_text(index as nat)
            + ": "@ + message@,
        BmpfError::NoGlyphsFound => "no glyphs found in image"@,
        BmpfError::Mismatch { bmpf_chars, glyphs_found } => "bmpf has "@ + dec_text(
            bmpf_chars as nat,
        ) + " chars but found "@ + dec_text(glyphs_found as nat) + " glyphs"@,
        BmpfError::Image(_) => "image error: "@,
        BmpfError::Io(msg) => msg@,
    }
}

/// The text of an `image` error, as `image::ImageError`'s `Display` impl
/// writes it (called through `format!`). Nothing is stated of that text: it
/// depends on the error's private fields, which Verus does not see.
#[verifier::external_body]
fn image_error_text(e: &image::ImageError) -> String {
    format!("{}", e)
}

/// The description of an `image` error: a prefix, then the text that the
/// `image` crate gives for it.
pub fn image_message(text: &str) -> (res: String)
    ensures
        res@ == "image error: "@ + text@,
{
    let mut out = String::from_str("image error: ");
    out.append(text);
    out
}

impl BmpfError {
    /// A human-readable description of the error.
    pub fn to_string(&self) -> (res: String)
        ensures
            self is Image ==> exists|t: Seq<char>| res@ == spec_message(*self) + t,
            !(self is Image) ==> res@ == spec_message(*self),
    {
        match self {
            BmpfError::BadHeader => String::from_str("file too short for header"),
            BmpfError::BadMagic => String::from_str("not a .bmpf file: bad magic header"),
            BmpfError::InvalidRecord { index, message } => {
                let mut out = String::from_str("invalid record #");
                push_dec(&mut out, *index as u64);
                out.append(": ");
                out.append(message.as_str());
                out
            },
            BmpfError::NoGlyphsFound => String::from_str("no glyphs found in image"),
            BmpfError::Mismatch { bmpf_chars, glyphs_found } => {
                let mut out = String::from_str("bmpf has ");
                push_dec(&mut out, *bmpf_chars as u64);
                out.append(" chars but found ");
                push_dec(&mut out, *glyphs_found as u64);
                out.append(" glyphs");
                out
            },
            BmpfError::Image(e) => {
                let t = image_error_text(e);
                let res = image_message(t.as_str());
                assert(res@ == spec_message(*self) + t@);
                res
            },
            BmpfError::Io(msg) => msg.clone(),
        }
    }
}

impl Clone for BmpfError {
    /// Every kind is copied, but for `Image`, whose payload cannot be
    /// copied: it becomes an `Io` error that says so.
    fn clone(&self) -> (res: Self)
        ensures
            self is Image ==> (res matches BmpfError::Io(m) && m@ == "image error (not cloneable)"@),
            !(self is Image) ==> res == *self,
    {
        match self {
            BmpfError::BadHeader => BmpfError::BadHeader,
            BmpfError::BadMagic => BmpfError::BadMagic,
            BmpfError::InvalidRecord { index, message } => BmpfError::InvalidRecord {
                index: *index,
                message: message.clone(),
            },
            BmpfError::NoGlyphsFound => BmpfError::NoGlyphsFound,
            BmpfError::Mismatch { bmpf_chars, glyphs_found } => BmpfError::Mismatch {
                bmpf_chars: *bmpf_chars,
                glyphs_found: *glyphs_found,
            },
            BmpfError::Image(_) => BmpfError::Io(String::from_str("image error (not cloneable)")),
            BmpfError::Io(msg) => BmpfError::Io(msg.clone()),
        }
    }
}

impl From<image::ImageError> for BmpfError {
    fn from(e: image::ImageError) -> (res: Self)
        ensures
            res == BmpfError::Image(e),
    {
        BmpfError::Image(e)
    }
}

impl vstd::std_specs::convert::FromSpecImpl<image::ImageError> for BmpfError {
    open spec fn obeys_from_spec() -> bool {
        true
    }

    open spec fn from_spec(e: image::ImageError) -> Self {
        BmpfError::Image(e)
    }
}

} // verus!
