//! BMFont (AngelCode) `.fnt` text generation.
use crate::atlas::{spec_atlas_glyphs, FontAtlas, GlyphRegion};
use crate::bmpf::BmpfChar;
use crate::scan::GlyphBounds;
use crate::text::{
    dec_text, lemma_dec_text_reads, lemma_signed_text_reads, push_dec, push_signed, reads_as,
    reads_as_signed, signed_text,
};
use vstd::prelude::*;

verus! {

/// `info face="<name>" size=<line height> …` and a newline.
pub open spec fn info_line(name: Seq<char>, line_height: u32) -> Seq<char> {
    "info face=\""@ + name + "\" size="@ + dec_text(line_height as nat)
        + " bold=0 italic=0 charset=\"\" unicode=0 stretchH=100 smooth=1 aa=1 padding=0,0,0,0 spacing=0,0\n"@
}

/// `common lineHeight=… base=… scaleW=… scaleH=… pages=1 packed=0` and a newline.
pub open spec fn common_line(line_height: u32, base: u32, scale_w: u32, scale_h: u32) -> Seq<char> {
    "common lineHeight="@ + dec_text(line_height as nat) + " base="@ + dec_text(base as nat)
        + " scaleW="@ + dec_text(scale_w as nat) + " scaleH="@ + dec_text(scale_h as nat)
        + " pages=1 packed=0\n"@
}

/// `page id=0 file="<path>"` and a newline.
pub open spec fn page_line(path: Seq<char>) -> Seq<char> {
    "page id=0 file=\""@ + path + "\"\n"@
}

/// `chars count=<n>` and a newline.
pub open spec fn count_line(n: nat) -> Seq<char> {
    "chars count="@ + dec_text(n) + "\n"@
}

/// The line that describes one glyph.
pub open spec fn char_line(g: GlyphRegion) -> Seq<char> {
    "char id="@ + dec_text(g.code as nat) + " x="@ + dec_text(g.x as nat) + " y="@ + dec_text(
        g.y as nat,
    ) + " w="@ + dec_text(g.w as nat) + " h="@ + dec_text(g.h as nat) + " xoffset="@
        + signed_text(g.x_offset as int) + " yoffset="@ + signed_text(g.y_offset as int)
        + " xadvance="@ + dec_text(g.x_advance as nat) + " page=0 chnl=0\n"@
}

/// One line per glyph, in order.
pub open spec fn char_lines(gs: Seq<GlyphRegion>) -> Seq<char>
    decreases gs.len(),
{
    if gs.len() == 0 {
        seq![]
    } else {
        char_lines(gs.drop_last()) + char_line(gs.last())
    }
}

/// The whole `.fnt` text of an atlas.
pub open spec fn fnt_text(
    glyphs: Seq<GlyphRegion>,
    line_height: u32,
    base: u32,
    texture_w: u32,
    texture_h: u32,
    name: Seq<char>,
    path: Seq<char>,
) -> Seq<char> {
    info_line(name, line_height) + common_line(line_height, base, texture_w, texture_h) + page_line(
        path,
    ) + count_line(glyphs.len()) + char_lines(glyphs)
}

fn push_char_line(out: &mut String, g: &GlyphRegion)
    ensures
        final(out)@ == old(out)@ + char_line(*g),
{
    out.append("char id=");
    push_dec(out, g.code as u64);
    out.append(" x=");
    push_dec(out, g.x as u64);
    out.append(" y=");
    push_dec(out, g.y as u64);
    out.append(" w=");
    push_dec(out, g.w as u64);
    out.append(" h=");
    push_dec(out, g.h as u64);
    out.append(" xoffset=");
    push_signed(out, g.x_offset as i64);
    out.append(" yoffset=");
    push_signed(out, g.y_offset as i64);
    out.append(" xadvance=");
    push_dec(out, g.x_advance as u64);
    out.append(" page=0 chnl=0\n");
    assert(out@ =~= old(out)@ + char_line(*g));
}

/// Generate BMFont (AngelCode) `.fnt` text format content from a `FontAtlas`.
pub fn generate_bmfont(font: &FontAtlas, name: &str, texture_rel_path: &str) -> (out: String)
    ensures
        out@ == fnt_text(
            font.glyphs@,
            font.line_height,
            font.base,
            font.texture_w,
            font.texture_h,
            name@,
            texture_rel_path@,
        ),
{
    let mut out = String::new();
    out.append("info face=\"");
    out.append(name);
    out.append("\" size=");
    push_dec(&mut out, font.line_height as u64);
    out.append(
        " bold=0 italic=0 charset=\"\" unicode=0 stretchH=100 smooth=1 aa=1 padding=0,0,0,0 spacing=0,0\n",
    );
    let ghost after_info = out@;
    assert(after_info =~= info_line(name@, font.line_height));
    out.append("common lineHeight=");
    push_dec(&mut out, font.line_height as u64);
    out.append(" base=");
    push_dec(&mut out, font.base as u64);
    out.append(" scaleW=");
    push_dec(&mut out, font.texture_w as u64);
    out.append(" scaleH=");
    push_dec(&mut out, font.texture_h as u64);
    out.append(" pages=1 packed=0\n");
    let ghost after_common = out@;
    assert(after_common =~= after_info + common_line(
        font.line_height,
        font.base,
        font.texture_w,
        font.texture_h,
    ));
    out.append("page id=0 file=\"");
    out.append(texture_rel_path);
    out.append("\"\n");
    let ghost after_page = out@;
    assert(after_page =~= after_common + page_line(texture_rel_path@));
    out.append("chars count=");
    push_dec(&mut out, font.glyphs.len() as u64);
    out.append("\n");
    let ghost head = out@;
    assert(head =~= after_page + count_line(font.glyphs@.len()));
    let mut i: usize = 0;
    assert(font.glyphs@.take(0) =~= seq![]);
    assert(head + char_lines(font.glyphs@.take(0)) =~= head);
    while i < font.glyphs.len()
        invariant
            i <= font.glyphs@.len(),
            out@ == head + char_lines(font.glyphs@.take(i as int)),
        decreases font.glyphs@.len() - i,
    {
        let g = &font.glyphs[i];
        push_char_line(&mut out, g);
        assert(font.glyphs@.take(i + 1).drop_last() =~= font.glyphs@.take(i as int));
        assert(font.glyphs@.take(i + 1).last() == *g);
        assert(out@ =~= head + char_lines(font.glyphs@.take(i + 1)));
        i = i + 1;
    }
    assert(font.glyphs@.take(font.glyphs@.len() as int) =~= font.glyphs@);
    out
}


proof fn lemma_char_lines_concat(a: Seq<GlyphRegion>, b: Seq<GlyphRegion>)
    ensures
        char_lines(a + b) == char_lines(a) + char_lines(b),
    decreases b.len(),
{
    if b.len() == 0 {
        assert(a + b =~= a);
        assert(char_lines(a) + char_lines(b) =~= char_lines(a));
    } else {
        lemma_char_lines_concat(a, b.drop_last());
        assert((a + b).drop_last() =~= a + b.drop_last());
        assert((a + b).last() == b.last());
        assert(char_lines(a) + char_lines(b) =~= char_lines(a) + char_lines(b.drop_last())
            + char_line(b.last()));
    }
}

/// Line `i` of the glyph lines describes glyph `i`.
pub proof fn lemma_char_lines_split(gs: Seq<GlyphRegion>, i: int)
    requires
        0 <= i < gs.len(),
    ensures
        char_lines(gs) == char_lines(gs.take(i)) + char_line(gs[i]) + char_lines(gs.skip(i + 1)),
{
    let one = seq![gs[i]];
    assert(gs =~= gs.take(i) + (one + gs.skip(i + 1)));
    lemma_char_lines_concat(gs.take(i), one + gs.skip(i + 1));
    lemma_char_lines_concat(one, gs.skip(i + 1));
    assert(one.drop_last() =~= seq![]);
    assert(one.last() == gs[i]);
    assert(char_lines(one) == char_lines(one.drop_last()) + char_line(one.last()));
    assert(char_lines(one) =~= char_line(gs[i]));
    assert(char_lines(gs.take(i)) + (char_line(gs[i]) + char_lines(gs.skip(i + 1))) =~= char_lines(
        gs.take(i),
    ) + char_line(gs[i]) + char_lines(gs.skip(i + 1)));
}

/// The codes and advance widths of a font reach the `.fnt` text of its
/// atlas exactly: the count line gives the number of characters, and the
/// glyph lines follow it, one per character in order, line `i` starting
/// with character `i`'s code and ending with its advance.
pub proof fn law_fnt_carries_chars(
    chars: Seq<BmpfChar>,
    regions: Seq<GlyphBounds>,
    line_height: u32,
    base: u32,
    texture_w: u32,
    texture_h: u32,
    name: Seq<char>,
    path: Seq<char>,
)
    ensures
        fnt_text(spec_atlas_glyphs(chars, regions), line_height, base, texture_w, texture_h, name, path)
            == info_line(name, line_height) + common_line(line_height, base, texture_w, texture_h)
            + page_line(path) + count_line(chars.len()) + char_lines(spec_atlas_glyphs(chars, regions)),
        forall|i: int|
            0 <= i < chars.len() ==> char_lines(spec_atlas_glyphs(chars, regions)) == char_lines(
                spec_atlas_glyphs(chars, regions).take(i),
            ) + char_line(#[trigger] spec_atlas_glyphs(chars, regions)[i]) + char_lines(
                spec_atlas_glyphs(chars, regions).skip(i + 1),
            ),
        forall|i: int|
            0 <= i < chars.len() ==> line_starts_and_ends(
                char_line(#[trigger] spec_atlas_glyphs(chars, regions)[i]),
                chars[i].code,
                chars[i].advance,
            ),
{
    let gs = spec_atlas_glyphs(chars, regions);
    assert forall|i: int| 0 <= i < chars.len() implies char_lines(gs) == char_lines(gs.take(i))
        + char_line(#[trigger] gs[i]) + char_lines(gs.skip(i + 1)) by {
        lemma_char_lines_split(gs, i);
    }
    assert forall|i: int| 0 <= i < chars.len() implies line_starts_and_ends(
        char_line(#[trigger] gs[i]),
        chars[i].code,
        chars[i].advance,
    ) by {
        lemma_char_line_ends(gs[i], chars[i].code, chars[i].advance);
    }
}

/// A glyph line that starts with the code `code` and ends with the
/// advance `advance`.
pub open spec fn line_starts_and_ends(line: Seq<char>, code: u8, advance: u16) -> bool {
    exists|mid: Seq<char>|
        line == "char id="@ + dec_text(code as nat) + mid + " xadvance="@ + dec_text(advance as nat)
            + " page=0 chnl=0\n"@
}

/// A glyph line starts with the code and ends with the advance.
proof fn lemma_char_line_ends(g: GlyphRegion, code: u8, advance: u16)
    requires
        g.code == code,
        g.x_advance == advance,
    ensures
        line_starts_and_ends(char_line(g), code, advance),
{
    let mid = " x="@ + dec_text(g.x as nat) + " y="@ + dec_text(g.y as nat) + " w="@ + dec_text(
        g.w as nat,
    ) + " h="@ + dec_text(g.h as nat) + " xoffset="@ + signed_text(g.x_offset as int)
        + " yoffset="@ + signed_text(g.y_offset as int);
    assert(char_line(g) =~= "char id="@ + dec_text(code as nat) + mid + " xadvance="@ + dec_text(
        advance as nat,
    ) + " page=0 chnl=0\n"@);
}


/// The layout of the info line around its size field `t`.
pub open spec fn info_layout(name: Seq<char>, t: Seq<char>) -> Seq<char> {
    "info face=\""@ + name + "\" size="@ + t
        + " bold=0 italic=0 charset=\"\" unicode=0 stretchH=100 smooth=1 aa=1 padding=0,0,0,0 spacing=0,0\n"@
}

/// The info line names the font and its size field reads as `size`.
pub open spec fn info_reads(line: Seq<char>, name: Seq<char>, size: int) -> bool {
    exists|t: Seq<char>| #![trigger info_layout(name, t)] line == info_layout(name, t) && reads_as(t, size)
}

/// The layout of the common line around its four numeric fields.
pub open spec fn common_layout(a: Seq<char>, b: Seq<char>, c: Seq<char>, d: Seq<char>) -> Seq<char> {
    "common lineHeight="@ + a + " base="@ + b + " scaleW="@ + c + " scaleH="@ + d
        + " pages=1 packed=0\n"@
}

/// The fields of the common line read as line height, base and texture size.
pub open spec fn common_reads(line: Seq<char>, line_height: int, base: int, w: int, h: int) -> bool {
    exists|a: Seq<char>, b: Seq<char>, c: Seq<char>, d: Seq<char>|
        #![trigger common_layout(a, b, c, d)]
        line == common_layout(a, b, c, d) && reads_as(a, line_height) && reads_as(b, base)
            && reads_as(c, w) && reads_as(d, h)
}

/// The layout of the count line around its field.
pub open spec fn count_layout(t: Seq<char>) -> Seq<char> {
    "chars count="@ + t + "\n"@
}

/// The count line's field reads as `n`.
pub open spec fn count_reads(line: Seq<char>, n: int) -> bool {
    exists|t: Seq<char>| #![trigger count_layout(t)] line == count_layout(t) && reads_as(t, n)
}

/// The layout of a glyph line around its nine fields.
pub open spec fn char_layout(
    id: Seq<char>,
    x: Seq<char>,
    y: Seq<char>,
    w: Seq<char>,
    h: Seq<char>,
    xo: Seq<char>,
    yo: Seq<char>,
    adv: Seq<char>,
) -> Seq<char> {
    "char id="@ + id + " x="@ + x + " y="@ + y + " w="@ + w + " h="@ + h + " xoffset="@ + xo
        + " yoffset="@ + yo + " xadvance="@ + adv + " page=0 chnl=0\n"@
}

/// Every field of a glyph line reads as the matching value of the glyph.
pub open spec fn char_reads(line: Seq<char>, g: GlyphRegion) -> bool {
    exists|
        id: Seq<char>,
        x: Seq<char>,
        y: Seq<char>,
        w: Seq<char>,
        h: Seq<char>,
        xo: Seq<char>,
        yo: Seq<char>,
        adv: Seq<char>,
    |
        #![trigger char_layout(id, x, y, w, h, xo, yo, adv)]
        line == char_layout(id, x, y, w, h, xo, yo, adv) && reads_as(id, g.code as int) && reads_as(
            x,
            g.x as int,
        ) && reads_as(y, g.y as int) && reads_as(w, g.w as int) && reads_as(h, g.h as int)
            && reads_as_signed(xo, g.x_offset as int) && reads_as_signed(yo, g.y_offset as int)
            && reads_as(adv, g.x_advance as int)
}

proof fn lemma_char_line_reads(g: GlyphRegion)
    ensures
        char_reads(char_line(g), g),
{
    lemma_dec_text_reads(g.code as nat);
    lemma_dec_text_reads(g.x as nat);
    lemma_dec_text_reads(g.y as nat);
    lemma_dec_text_reads(g.w as nat);
    lemma_dec_text_reads(g.h as nat);
    lemma_signed_text_reads(g.x_offset as int);
    lemma_signed_text_reads(g.y_offset as int);
    lemma_dec_text_reads(g.x_advance as nat);
    let l = char_layout(
        dec_text(g.code as nat),
        dec_text(g.x as nat),
        dec_text(g.y as nat),
        dec_text(g.w as nat),
        dec_text(g.h as nat),
        signed_text(g.x_offset as int),
        signed_text(g.y_offset as int),
        dec_text(g.x_advance as nat),
    );
    assert(char_line(g) =~= l);
}

/// The `.fnt` text reads back as the atlas it was written from: the info,
/// common, page and count lines in that order, then one line per glyph, in
/// order; every numeric field reads back as the value it was written from.
pub proof fn law_fnt_reads_back(
    gs: Seq<GlyphRegion>,
    line_height: u32,
    base: u32,
    texture_w: u32,
    texture_h: u32,
    name: Seq<char>,
    path: Seq<char>,
)
    ensures
        fnt_text(gs, line_height, base, texture_w, texture_h, name, path) == info_line(name, line_height)
            + common_line(line_height, base, texture_w, texture_h) + page_line(path) + count_line(
            gs.len(),
        ) + char_lines(gs),
        info_reads(info_line(name, line_height), name, line_height as int),
        common_reads(
            common_line(line_height, base, texture_w, texture_h),
            line_height as int,
            base as int,
            texture_w as int,
            texture_h as int,
        ),
        page_line(path) == "page id=0 file=\""@ + path + "\"\n"@,
        count_reads(count_line(gs.len()), gs.len() as int),
        char_lines(seq![]) == Seq::<char>::empty(),
        forall|k: int|
            0 <= k < gs.len() ==> {
                &&& char_lines(gs) == char_lines(gs.take(k)) + char_line(#[trigger] gs[k])
                    + char_lines(gs.skip(k + 1))
                &&& char_reads(char_line(gs[k]), gs[k])
            },
{
    lemma_dec_text_reads(line_height as nat);
    lemma_dec_text_reads(base as nat);
    lemma_dec_text_reads(texture_w as nat);
    lemma_dec_text_reads(texture_h as nat);
    lemma_dec_text_reads(gs.len());
    assert(info_line(name, line_height) =~= info_layout(name, dec_text(line_height as nat)));
    assert(common_line(line_height, base, texture_w, texture_h) =~= common_layout(
        dec_text(line_height as nat),
        dec_text(base as nat),
        dec_text(texture_w as nat),
        dec_text(texture_h as nat),
    ));
    assert(count_line(gs.len()) =~= count_layout(dec_text(gs.len())));
    assert forall|k: int| 0 <= k < gs.len() implies {
        &&& char_lines(gs) == char_lines(gs.take(k)) + char_line(#[trigger] gs[k]) + char_lines(
            gs.skip(k + 1),
        )
        &&& char_reads(char_line(gs[k]), gs[k])
    } by {
        lemma_char_lines_split(gs, k);
        lemma_char_line_reads(gs[k]);
    }
}
} // verus!
