//! Matching the glyphs found in the texture to the `.bmpf` records.
use crate::bmpf::{BmpfChar, BmpfFont};
use crate::error::BmpfError;
use crate::raster::raster;
use crate::scan::{
    buffer_too_small, find_glyph_regions, glyph_region_contains, region_fits, GlyphBounds,
};
use vstd::prelude::*;

verus! {

/// A single glyph's bounding box within the font texture.
#[derive(Debug, Clone, Copy, PartialEq, Eq, Structural)]
pub struct GlyphRegion {
    pub code: u8,
    /// Advance width from .bmpf – how far to move the cursor, in whole pixels.
    pub x_advance: u32,
    /// Pixel bounds within the font-atlas texture.
    pub x: u32,
    pub y: u32,
    pub w: u32,
    pub h: u32,
    /// Rendering offset relative to the cursor position.
    pub x_offset: i32,
    pub y_offset: i32,
}

/// Complete font-atlas ready for `.fnt` generation.
#[derive(Debug, Clone)]
pub struct FontAtlas {
    /// Width / height of the texture that holds all glyphs.
    pub texture_w: u32,
    pub texture_h: u32,
    /// Per-glyph measurements.
    pub glyphs: Vec<GlyphRegion>,
    /// Line height (font height) in pixels.
    pub line_height: u32,
    /// Baseline offset from top of the cell.
    pub base: u32,
}

/// The atlas entry of a character: the texture region it was matched to,
/// or an empty region at the origin when it has no visible glyph.
pub open spec fn spec_glyph(c: BmpfChar, r: Option<GlyphBounds>) -> GlyphRegion {
    match r {
        Some(g) => GlyphRegion {
            code: c.code,
            x_advance: c.advance as u32,
            x: g.x,
            y: g.y,
            w: g.w,
            h: g.h,
            x_offset: 0,
            y_offset: 0,
        },
        None => GlyphRegion {
            code: c.code,
            x_advance: c.advance as u32,
            x: 0,
            y: 0,
            w: 0,
            h: 0,
            x_offset: 0,
            y_offset: 0,
        },
    }
}

/// The `i`-th character gets the `i`-th region; characters beyond the
/// regions get none.
pub open spec fn spec_atlas_glyphs(chars: Seq<BmpfChar>, regions: Seq<GlyphBounds>) -> Seq<GlyphRegion> {
    Seq::new(
        chars.len(),
        |i: int|
            spec_glyph(
                chars[i],
                if i < regions.len() {
                    Some(regions[i])
                } else {
                    None
                },
            ),
    )
}

/// The lowest bottom edge `y + h` among the glyphs of non-zero height.
pub open spec fn max_bottom(gs: Seq<GlyphRegion>) -> Option<int>
    decreases gs.len(),
{
    if gs.len() == 0 {
        None
    } else {
        let rest = max_bottom(gs.drop_last());
        let g = gs.last();
        if g.h > 0 {
            let b = g.y + g.h;
            match rest {
                None => Some(b),
                Some(m) => Some(
                    if m >= b {
                        m
                    } else {
                        b
                    },
                ),
            }
        } else {
            rest
        }
    }
}

/// The line height: the font height, at least 1.
pub open spec fn spec_line_height(height: u16) -> u32 {
    if height >= 1 { height as u32 } else { 1 }
}

/// The baseline: the lowest glyph bottom, or the line height without glyphs.
pub open spec fn spec_base(gs: Seq<GlyphRegion>, line_h: u32) -> int {
    match max_bottom(gs) {
        Some(m) => m,
        None => line_h as int,
    }
}

/// Build a `FontAtlas` by scanning the BMP image for glyphs and matching them
/// to `.bmpf` entries.
///
/// `bmp_rgba` – decoded image pixels (RGBA, top-left-first).
/// `bmpf` – the parsed `.bmpf` data.
pub fn build_font_atlas(bmp_rgba: &[u8], img_w: u32, img_h: u32, bmpf: &BmpfFont) -> (res: Result<
    FontAtlas,
    BmpfError,
>)
    ensures
        ({
            let regions = raster(bmp_rgba@, img_w as int, img_h as int).spec_regions();
            &&& (buffer_too_small(bmp_rgba@.len() as int, img_w as int, img_h as int) <==> (res matches Err(
                BmpfError::Io(_),
            )))
            &&& (res matches Err(BmpfError::Io(m)) ==> m@ == "image buffer too small"@)
            &&& ((!buffer_too_small(bmp_rgba@.len() as int, img_w as int, img_h as int)
                && regions.len() == 0) <==> (res matches Err(BmpfError::NoGlyphsFound)))
            &&& (res is Ok || (res matches Err(BmpfError::Io(_))) || (res matches Err(
                BmpfError::NoGlyphsFound,
            )))
            &&& (res is Ok ==> forall|k: int|
                0 <= k < regions.len() ==> region_fits(bmp_rgba@, img_w, img_h, #[trigger] regions[k]))
            &&& (res matches Ok(atlas) ==> {
                &&& atlas.texture_w == img_w
                &&& atlas.texture_h == img_h
                &&& atlas.glyphs@ == spec_atlas_glyphs(bmpf.chars@, regions)
                &&& atlas.line_height == spec_line_height(bmpf.height)
                &&& atlas.base == spec_base(atlas.glyphs@, atlas.line_height)
                &&& atlas.glyphs@.len() == bmpf.chars@.len()
                &&& forall|i: int|
                    0 <= i < bmpf.chars@.len() ==> {
                        &&& (#[trigger] atlas.glyphs@[i]).code == bmpf.chars@[i].code
                        &&& atlas.glyphs@[i].x_advance == bmpf.chars@[i].advance
                        &&& atlas.glyphs@[i].x_offset == 0
                        &&& atlas.glyphs@[i].y_offset == 0
                        &&& i < regions.len() ==> {
                            &&& atlas.glyphs@[i].x == regions[i].x
                            &&& atlas.glyphs@[i].y == regions[i].y
                            &&& atlas.glyphs@[i].w == regions[i].w
                            &&& atlas.glyphs@[i].h == regions[i].h
                        }
                        &&& i >= regions.len() ==> {
                            &&& atlas.glyphs@[i].x == 0
                            &&& atlas.glyphs@[i].y == 0
                            &&& atlas.glyphs@[i].w == 0
                            &&& atlas.glyphs@[i].h == 0
                        }
                    }
                &&& (exists|k: int| 0 <= k < atlas.glyphs@.len() && (#[trigger] atlas.glyphs@[k]).h > 0)
                    ==> {
                    &&& forall|k: int|
                        0 <= k < atlas.glyphs@.len() && (#[trigger] atlas.glyphs@[k]).h > 0
                            ==> atlas.glyphs@[k].y + atlas.glyphs@[k].h <= atlas.base
                    &&& exists|k: int|
                        0 <= k < atlas.glyphs@.len() && (#[trigger] atlas.glyphs@[k]).h > 0
                            && atlas.glyphs@[k].y + atlas.glyphs@[k].h == atlas.base
                }
                &&& (forall|k: int| 0 <= k < atlas.glyphs@.len() ==> (#[trigger] atlas.glyphs@[k]).h == 0)
                    ==> atlas.base == atlas.line_height
                &&& atlas.line_height >= 1
                &&& atlas.line_height == bmpf.height || (bmpf.height == 0 && atlas.line_height == 1)
            })
        }),
{
    let glyphs = match find_glyph_regions(bmp_rgba, img_w, img_h) {
        Ok(g) => g,
        Err(e) => {
            return Err(e);
        },
    };
    if glyphs.len() == 0 {
        return Err(BmpfError::NoGlyphsFound);
    }
    let ghost regions = glyphs@;
    let n = bmpf.chars.len();
    let mut region_index: usize = 0;
    let mut result: Vec<GlyphRegion> = Vec::with_capacity(n);
    let mut i: usize = 0;
    while i < n
        invariant
            n == bmpf.chars@.len(),
            regions == glyphs@,
            forall|k: int| 0 <= k < regions.len() ==> region_fits(bmp_rgba@, img_w, img_h, #[trigger] regions[k]),
            i <= n,
            region_index == if i < glyphs@.len() { i as int } else { glyphs@.len() as int },
            result@.len() == i,
            forall|k: int|
                0 <= k < i ==> #[trigger] result@[k] == spec_glyph(
                    bmpf.chars@[k],
                    if k < regions.len() {
                        Some(regions[k])
                    } else {
                        None
                    },
                ),
        decreases n - i,
    {
        let bc = bmpf.chars[i];
        if region_index < glyphs.len() && glyph_region_contains(
            &glyphs[region_index],
            bmp_rgba,
            img_w,
            img_h,
        ) {
            let gr = glyphs[region_index];
            result.push(
                GlyphRegion {
                    code: bc.code,
                    x_advance: bc.advance as u32,
                    x: gr.x,
                    y: gr.y,
                    w: gr.w,
                    h: gr.h,
                    x_offset: 0,
                    y_offset: 0,
                },
            );
            region_index = region_index + 1;
        } else {
            proof {
                if region_index < glyphs.len() {
                    assert(region_fits(bmp_rgba@, img_w, img_h, regions[region_index as int]));
                }
            }
            result.push(
                GlyphRegion {
                    code: bc.code,
                    x_advance: bc.advance as u32,
                    x: 0,
                    y: 0,
                    w: 0,
                    h: 0,
                    x_offset: 0,
                    y_offset: 0,
                },
            );
        }
        i = i + 1;
    }
    assert(result@ =~= spec_atlas_glyphs(bmpf.chars@, regions));
    let line_h: u32 = if bmpf.height >= 1 { bmpf.height as u32 } else { 1 };
    // The baseline: the lowest bottom edge of a visible glyph.
    let mut best: Option<u32> = None;
    let mut k: usize = 0;
    while k < result.len()
        invariant
            k <= result@.len(),
            result@ == spec_atlas_glyphs(bmpf.chars@, regions),
            forall|j: int| 0 <= j < regions.len() ==> region_fits(bmp_rgba@, img_w, img_h, #[trigger] regions[j]),
            best == match max_bottom(result@.take(k as int)) {
                Some(m) => Some(m as u32),
                None => None::<u32>,
            },
            max_bottom(result@.take(k as int)) matches Some(m) ==> 0 <= m <= u32::MAX,
        decreases result@.len() - k,
    {
        let g = result[k];
        assert(result@.take(k + 1).drop_last() =~= result@.take(k as int));
        assert(result@.take(k + 1).last() == g);
        if g.h > 0 {
            assert(k < regions.len()) by {
                if k >= regions.len() {
                    assert(g.h == 0);
                }
            }
            assert(region_fits(bmp_rgba@, img_w, img_h, regions[k as int]));
            let bottom = g.y + g.h;
            best = match best {
                None => Some(bottom),
                Some(m) => Some(if m >= bottom { m } else { bottom }),
            };
        }
        k = k + 1;
    }
    assert(result@.take(result@.len() as int) =~= result@);
    let base = match best {
        Some(m) => m,
        None => line_h,
    };
    proof {
        law_atlas_glyphs(bmpf.chars@, regions);
        law_base_is_lowest_bottom(result@, line_h);
    }
    Ok(FontAtlas {
        texture_w: img_w,
        texture_h: img_h,
        glyphs: result,
        line_height: line_h,
        base,
    })
}


/// Every character keeps its code and advance, in file order; the first
/// ones take the regions in order, the rest get an empty region at the origin.
pub proof fn law_atlas_glyphs(chars: Seq<BmpfChar>, regions: Seq<GlyphBounds>)
    ensures
        spec_atlas_glyphs(chars, regions).len() == chars.len(),
        forall|i: int|
            0 <= i < chars.len() ==> {
                &&& (#[trigger] spec_atlas_glyphs(chars, regions)[i]).code == chars[i].code
                &&& spec_atlas_glyphs(chars, regions)[i].x_advance == chars[i].advance
                &&& spec_atlas_glyphs(chars, regions)[i].x_offset == 0
                &&& spec_atlas_glyphs(chars, regions)[i].y_offset == 0
                &&& i < regions.len() ==> {
                    &&& spec_atlas_glyphs(chars, regions)[i].x == regions[i].x
                    &&& spec_atlas_glyphs(chars, regions)[i].y == regions[i].y
                    &&& spec_atlas_glyphs(chars, regions)[i].w == regions[i].w
                    &&& spec_atlas_glyphs(chars, regions)[i].h == regions[i].h
                }
                &&& i >= regions.len() ==> {
                    &&& spec_atlas_glyphs(chars, regions)[i].x == 0
                    &&& spec_atlas_glyphs(chars, regions)[i].y == 0
                    &&& spec_atlas_glyphs(chars, regions)[i].w == 0
                    &&& spec_atlas_glyphs(chars, regions)[i].h == 0
                }
            },
{
}

proof fn lemma_max_bottom_is_max(gs: Seq<GlyphRegion>)
    ensures
        max_bottom(gs) matches Some(m) ==> {
            &&& forall|k: int| 0 <= k < gs.len() && (#[trigger] gs[k]).h > 0 ==> gs[k].y + gs[k].h <= m
            &&& exists|k: int| 0 <= k < gs.len() && (#[trigger] gs[k]).h > 0 && gs[k].y + gs[k].h == m
        },
        max_bottom(gs) is None ==> forall|k: int| 0 <= k < gs.len() ==> (#[trigger] gs[k]).h == 0,
    decreases gs.len(),
{
    if gs.len() > 0 {
        let t = gs.drop_last();
        let last = gs.len() - 1;
        lemma_max_bottom_is_max(t);
        assert forall|k: int| 0 <= k < t.len() implies #[trigger] t[k] == gs[k] by {}
        match max_bottom(gs) {
            Some(m) => {
                assert forall|k: int| 0 <= k < gs.len() && (#[trigger] gs[k]).h > 0 implies gs[k].y
                    + gs[k].h <= m by {
                    if k < t.len() {
                        assert(t[k] == gs[k]);
                    }
                }
                if gs[last].h > 0 && gs[last].y + gs[last].h == m {
                    assert(gs[last].h > 0);
                } else {
                    let k = choose|k: int| 0 <= k < t.len() && (#[trigger] t[k]).h > 0 && t[k].y + t[k].h == m;
                    assert(gs[k] == t[k]);
                }
            },
            None => {
                assert forall|k: int| 0 <= k < gs.len() implies (#[trigger] gs[k]).h == 0 by {
                    if k < t.len() {
                        assert(t[k] == gs[k]);
                    }
                }
            },
        }
    }
}

/// The baseline is the lowest bottom edge `y + h` of the glyphs of non-zero
/// height: no such glyph reaches below it, and one reaches it exactly.
/// Without such glyphs it is the line height.
pub proof fn law_base_is_lowest_bottom(gs: Seq<GlyphRegion>, line_h: u32)
    ensures
        (exists|k: int| 0 <= k < gs.len() && (#[trigger] gs[k]).h > 0) ==> {
            &&& forall|k: int|
                0 <= k < gs.len() && (#[trigger] gs[k]).h > 0 ==> gs[k].y + gs[k].h <= spec_base(
                    gs,
                    line_h,
                )
            &&& exists|k: int|
                0 <= k < gs.len() && (#[trigger] gs[k]).h > 0 && gs[k].y + gs[k].h == spec_base(
                    gs,
                    line_h,
                )
        },
        (forall|k: int| 0 <= k < gs.len() ==> (#[trigger] gs[k]).h == 0) ==> spec_base(gs, line_h)
            == line_h,
{
    lemma_max_bottom_is_max(gs);
    if exists|k: int| 0 <= k < gs.len() && (#[trigger] gs[k]).h > 0 {
        let k = choose|k: int| 0 <= k < gs.len() && (#[trigger] gs[k]).h > 0;
        assert(max_bottom(gs) is Some);
    }
    if forall|k: int| 0 <= k < gs.len() ==> (#[trigger] gs[k]).h == 0 {
        if max_bottom(gs) is Some {
            let m = max_bottom(gs)->0;
            let k = choose|k: int| 0 <= k < gs.len() && (#[trigger] gs[k]).h > 0 && gs[k].y + gs[k].h == m;
        }
    }
}

proof fn lemma_max_bottom_bounds(gs: Seq<GlyphRegion>, limit: int)
    requires
        forall|k: int| 0 <= k < gs.len() && (#[trigger] gs[k]).h > 0 ==> gs[k].y + gs[k].h <= limit,
    ensures
        max_bottom(gs) matches Some(m) ==> 1 <= m <= limit,
        max_bottom(gs) is None <==> forall|k: int| 0 <= k < gs.len() ==> (#[trigger] gs[k]).h == 0,
    decreases gs.len(),
{
    if gs.len() > 0 {
        let t = gs.drop_last();
        assert forall|k: int| 0 <= k < t.len() && (#[trigger] t[k]).h > 0 implies t[k].y + t[k].h <= limit by {
            assert(t[k] == gs[k]);
        }
        lemma_max_bottom_bounds(t, limit);
        if max_bottom(gs) is None {
            assert forall|k: int| 0 <= k < gs.len() implies (#[trigger] gs[k]).h == 0 by {
                if k < t.len() {
                    assert(t[k] == gs[k]);
                }
            }
        }
        if forall|k: int| 0 <= k < gs.len() ==> (#[trigger] gs[k]).h == 0 {
            assert forall|k: int| 0 <= k < t.len() implies (#[trigger] t[k]).h == 0 by {
                assert(t[k] == gs[k]);
            }
        }
    }
}

/// The line height is at least 1; so is the baseline, which lies within
/// the texture when some glyph is visible.
pub proof fn law_atlas_base(
    rgba: Seq<u8>,
    img_w: u32,
    img_h: u32,
    chars: Seq<BmpfChar>,
    regions: Seq<GlyphBounds>,
    height: u16,
)
    requires
        forall|k: int| 0 <= k < regions.len() ==> region_fits(rgba, img_w, img_h, #[trigger] regions[k]),
    ensures
        spec_line_height(height) >= 1,
        spec_base(spec_atlas_glyphs(chars, regions), spec_line_height(height)) >= 1,
        chars.len() > 0 && regions.len() > 0 ==> spec_base(
            spec_atlas_glyphs(chars, regions),
            spec_line_height(height),
        ) <= img_h,
{
    let gs = spec_atlas_glyphs(chars, regions);
    assert forall|k: int| 0 <= k < gs.len() && (#[trigger] gs[k]).h > 0 implies gs[k].y + gs[k].h <= img_h by {
        assert(k < regions.len());
        assert(region_fits(rgba, img_w, img_h, regions[k]));
    }
    lemma_max_bottom_bounds(gs, img_h as int);
    if chars.len() > 0 && regions.len() > 0 {
        assert(region_fits(rgba, img_w, img_h, regions[0]));
        assert(gs[0].h > 0);
    }
}
} // verus!
