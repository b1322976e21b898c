//! Finding glyphs in a font texture: the pixels that are not background,
//! grouped into 4-connected regions, each reported by its bounding box.
use crate::error::BmpfError;
use crate::flood::flood_fill;
use crate::raster::{
    adjacent, closed, lemma_connected_filled, lemma_connected_refl, lemma_connected_step,
    lemma_connected_trans, lemma_idx_bounds, pixel_filled, precedes, raster, spec_pixel_empty,
    Raster,
};
pub use crate::raster::is_pixel_empty;
use vstd::prelude::*;

verus! {

/// The bounding box of one glyph in the texture.
#[derive(Debug, Clone, Copy, PartialEq, Eq, Structural)]
pub struct GlyphBounds {
    pub x: u32,
    pub y: u32,
    pub w: u32,
    pub h: u32,
}

impl Raster {
    pub open spec fn comp_min_x(self, s: (int, int)) -> int {
        choose|v: int| self.is_min_x(s, v)
    }

    pub open spec fn comp_max_x(self, s: (int, int)) -> int {
        choose|v: int| self.is_max_x(s, v)
    }

    pub open spec fn comp_min_y(self, s: (int, int)) -> int {
        choose|v: int| self.is_min_y(s, v)
    }

    pub open spec fn comp_max_y(self, s: (int, int)) -> int {
        choose|v: int| self.is_max_y(s, v)
    }

    /// The bounding box of the region that holds `s`.
    pub open spec fn bbox(self, s: (int, int)) -> GlyphBounds {
        GlyphBounds {
            x: self.comp_min_x(s) as u32,
            y: self.comp_min_y(s) as u32,
            w: (self.comp_max_x(s) - self.comp_min_x(s) + 1) as u32,
            h: (self.comp_max_y(s) - self.comp_min_y(s) + 1) as u32,
        }
    }

    /// The seeds of row `y` among its first `n` pixels, left to right.
    pub open spec fn seeds_in_row(self, y: int, n: nat) -> Seq<(int, int)>
        decreases n,
    {
        if n == 0 {
            seq![]
        } else {
            let prev = self.seeds_in_row(y, (n - 1) as nat);
            if self.is_seed((n - 1, y)) {
                prev.push((n - 1, y))
            } else {
                prev
            }
        }
    }

    /// The seeds of the first `m` rows, in row-major order.
    pub open spec fn seeds_before_row(self, m: nat) -> Seq<(int, int)>
        decreases m,
    {
        if m == 0 {
            seq![]
        } else {
            self.seeds_before_row((m - 1) as nat) + self.seeds_in_row(m - 1, self.w as nat)
        }
    }

    /// One seed per region, in row-major order of the seeds.
    pub open spec fn seeds(self) -> Seq<(int, int)> {
        self.seeds_before_row(self.h as nat)
    }

    /// The bounding boxes of all regions, sorted left to right, then top to
    /// bottom, by their top-left corner `(x, y)`; regions with equal corners
    /// keep seed order.
    pub open spec fn spec_regions(self) -> Seq<GlyphBounds> {
        sort_by_xy(self.seeds().map_values(|s: (int, int)| self.bbox(s)))
    }
}

/// `a` sorts no later than `b`: by `x`, then by `y`.
pub open spec fn key_le(a: GlyphBounds, b: GlyphBounds) -> bool {
    a.x < b.x || (a.x == b.x && a.y <= b.y)
}

/// Inserts `e` after every entry whose key is not above its own.
pub open spec fn insert_sorted(s: Seq<GlyphBounds>, e: GlyphBounds) -> Seq<GlyphBounds>
    decreases s.len(),
{
    if s.len() == 0 {
        seq![e]
    } else if key_le(s.last(), e) {
        s.push(e)
    } else {
        insert_sorted(s.drop_last(), e).push(s.last())
    }
}

/// Stable sort by `(x, y)`: left to right, then top to bottom.
pub open spec fn sort_by_xy(s: Seq<GlyphBounds>) -> Seq<GlyphBounds>
    decreases s.len(),
{
    if s.len() == 0 {
        s
    } else {
        insert_sorted(sort_by_xy(s.drop_last()), s.last())
    }
}

pub proof fn lemma_min_x_unique(img: Raster, s: (int, int), v: int)
    requires
        img.is_min_x(s, v),
    ensures
        img.comp_min_x(s) == v,
{
    let u = img.comp_min_x(s);
    assert(img.is_min_x(s, u));
    let qu = choose|q: (int, int)| #[trigger] img.connected(s, q) && q.0 == u;
    let qv = choose|q: (int, int)| #[trigger] img.connected(s, q) && q.0 == v;
    assert(v <= qu.0);
    assert(u <= qv.0);
}

pub proof fn lemma_max_x_unique(img: Raster, s: (int, int), v: int)
    requires
        img.is_max_x(s, v),
    ensures
        img.comp_max_x(s) == v,
{
    let u = img.comp_max_x(s);
    assert(img.is_max_x(s, u));
    let qu = choose|q: (int, int)| #[trigger] img.connected(s, q) && q.0 == u;
    let qv = choose|q: (int, int)| #[trigger] img.connected(s, q) && q.0 == v;
    assert(qu.0 <= v);
    assert(qv.0 <= u);
}

pub proof fn lemma_min_y_unique(img: Raster, s: (int, int), v: int)
    requires
        img.is_min_y(s, v),
    ensures
        img.comp_min_y(s) == v,
{
    let u = img.comp_min_y(s);
    assert(img.is_min_y(s, u));
    let qu = choose|q: (int, int)| #[trigger] img.connected(s, q) && q.1 == u;
    let qv = choose|q: (int, int)| #[trigger] img.connected(s, q) && q.1 == v;
    assert(v <= qu.1);
    assert(u <= qv.1);
}

pub proof fn lemma_max_y_unique(img: Raster, s: (int, int), v: int)
    requires
        img.is_max_y(s, v),
    ensures
        img.comp_max_y(s) == v,
{
    let u = img.comp_max_y(s);
    assert(img.is_max_y(s, u));
    let qu = choose|q: (int, int)| #[trigger] img.connected(s, q) && q.1 == u;
    let qv = choose|q: (int, int)| #[trigger] img.connected(s, q) && q.1 == v;
    assert(qu.1 <= v);
    assert(qv.1 <= u);
}

/// The marks "reached before `c`" form a closed set.
proof fn lemma_reached_closed(img: Raster, c: (int, int), vis: Seq<bool>)
    requires
        forall|q: (int, int)| img.inside(q) ==> #[trigger] vis[img.idx(q)] == img.reached(c, q),
    ensures
        closed(img, vis),
{
    assert forall|q: (int, int), n: (int, int)|
        #![trigger adjacent(q, n), vis[img.idx(q)], vis[img.idx(n)]]
        img.inside(q) && vis[img.idx(q)] && adjacent(q, n) && img.filled(n)
        implies vis[img.idx(n)] by {
        let p = choose|p: (int, int)| #[trigger] precedes(p, c) && img.connected(p, q);
        lemma_connected_step(img, p, q, n);
        assert(precedes(p, c) && img.connected(p, n));
    }
}

/// Moving the cursor one pixel right adds the region of the pixel passed.
proof fn lemma_reached_next(img: Raster, c: (int, int), q: (int, int))
    ensures
        img.reached((c.0 + 1, c.1), q) == (img.reached(c, q) || img.connected(c, q)),
{
    let c1 = (c.0 + 1, c.1);
    if img.reached(c1, q) {
        let p = choose|p: (int, int)| #[trigger] precedes(p, c1) && img.connected(p, q);
        if p != c {
            assert(precedes(p, c));
        }
    }
    if img.reached(c, q) {
        let p = choose|p: (int, int)| #[trigger] precedes(p, c) && img.connected(p, q);
        assert(precedes(p, c1));
    }
    if img.connected(c, q) {
        assert(precedes(c, c1));
    }
}

/// The end of a row and the start of the next one have reached the same.
proof fn lemma_reached_row(img: Raster, y: int, q: (int, int))
    ensures
        img.reached((img.w, y), q) == img.reached((0, y + 1), q),
{
    if img.reached((img.w, y), q) {
        let p = choose|p: (int, int)| #[trigger] precedes(p, (img.w, y)) && img.connected(p, q);
        assert(precedes(p, (0, y + 1)));
    }
    if img.reached((0, y + 1), q) {
        let p = choose|p: (int, int)| #[trigger] precedes(p, (0, y + 1)) && img.connected(p, q);
        lemma_connected_filled(img, p, q);
        assert(precedes(p, (img.w, y)));
    }
}

proof fn lemma_reached_start(img: Raster, q: (int, int))
    ensures
        !img.reached((0, 0), q),
{
    if img.reached((0, 0), q) {
        let p = choose|p: (int, int)| #[trigger] precedes(p, (0, 0)) && img.connected(p, q);
        lemma_connected_filled(img, p, q);
    }
}

fn key_le_exec(a: &GlyphBounds, b: &GlyphBounds) -> (res: bool)
    ensures
        res == key_le(*a, *b),
{
    a.x < b.x || (a.x == b.x && a.y <= b.y)
}

/// Stable insertion sort by `(x, y)`.
fn sort_regions(v: &Vec<GlyphBounds>) -> (res: Vec<GlyphBounds>)
    ensures
        res@ == sort_by_xy(v@),
{
    let mut out: Vec<GlyphBounds> = Vec::new();
    let mut i: usize = 0;
    assert(v@.take(0) =~= seq![]);
    while i < v.len()
        invariant
            i <= v@.len(),
            out@ == sort_by_xy(v@.take(i as int)),
        decreases v@.len() - i,
    {
        let e = v[i];
        assert(v@.take(i + 1).drop_last() =~= v@.take(i as int));
        assert(v@.take(i + 1).last() == e);
        let ghost target = insert_sorted(out@, e);
        assert(out@.take(out@.len() as int) =~= out@);
        assert(out@.skip(out@.len() as int) =~= seq![]);
        let mut j: usize = out.len();
        while j > 0 && !key_le_exec(&out[j - 1], &e)
            invariant
                j <= out@.len(),
                target == insert_sorted(out@.take(j as int), e) + out@.skip(j as int),
            decreases j,
        {
            let ghost t = out@.take(j as int);
            assert(t.drop_last() =~= out@.take(j - 1));
            assert(t.last() == out@[j - 1]);
            assert(out@.skip(j - 1) =~= seq![out@[j - 1]] + out@.skip(j as int));
            assert(insert_sorted(t, e) == insert_sorted(out@.take(j - 1), e).push(out@[j - 1]));
            assert(insert_sorted(out@.take(j - 1), e).push(out@[j - 1]) + out@.skip(j as int)
                =~= insert_sorted(out@.take(j - 1), e) + out@.skip(j - 1));
            j = j - 1;
        }
        proof {
            let t = out@.take(j as int);
            if j == 0 {
                assert(t =~= seq![]);
            }
            assert(insert_sorted(t, e) == t.push(e));
            assert(t.push(e) + out@.skip(j as int) =~= out@.insert(j as int, e));
        }
        out.insert(j, e);
        i = i + 1;
    }
    assert(v@.take(v@.len() as int) =~= v@);
    out
}



/// The smaller of two integers.
pub open spec fn min_int(a: int, b: int) -> int {
    if a <= b { a } else { b }
}

/// The pixel at `(px, py)` lies in the image, all four of its bytes are in
/// the buffer, and it is not background.
pub open spec fn pixel_visible(rgba: Seq<u8>, img_w: int, img_h: int, px: int, py: int) -> bool {
    let o = (py * img_w + px) * 4;
    &&& 0 <= px < img_w
    &&& 0 <= py < img_h
    &&& o + 3 < rgba.len()
    &&& !spec_pixel_empty(rgba[o], rgba[o + 1], rgba[o + 2], rgba[o + 3])
}

/// The region scanned from `(gr.x, gr.y)` over `min(gr.w, img_w)` columns and
/// `min(gr.h, img_h)` rows holds a visible pixel.
pub open spec fn spec_region_contains(rgba: Seq<u8>, img_w: u32, img_h: u32, gr: GlyphBounds) -> bool {
    exists|dx: int, dy: int|
        0 <= dy < min_int(gr.h as int, img_h as int) && 0 <= dx < min_int(gr.w as int, img_w as int)
            && #[trigger] pixel_visible(rgba, img_w as int, img_h as int, gr.x + dx, gr.y + dy)
}

/// A region found in a `img_w` × `img_h` image: non-empty, inside the image,
/// and holding a visible pixel.
pub open spec fn region_fits(rgba: Seq<u8>, img_w: u32, img_h: u32, gr: GlyphBounds) -> bool {
    &&& gr.w >= 1
    &&& gr.h >= 1
    &&& gr.x + gr.w <= img_w
    &&& gr.y + gr.h <= img_h
    &&& spec_region_contains(rgba, img_w, img_h, gr)
}

/// Check if a glyph region actually contains non-transparent pixels.
/// (Used to distinguish spacer runs from actual glyphs.)
pub fn glyph_region_contains(gr: &GlyphBounds, rgba: &[u8], img_w: u32, img_h: u32) -> (res: bool)
    ensures
        res == spec_region_contains(rgba@, img_w, img_h, *gr),
{
    let w = img_w as u64;
    let rows = if gr.h <= img_h { gr.h } else { img_h };
    let cols = if gr.w <= img_w { gr.w } else { img_w };
    let quads = (rgba.len() / 4) as u64;
    let mut dy: u32 = 0;
    while dy < rows
        invariant
            rows == min_int(gr.h as int, img_h as int),
            cols == min_int(gr.w as int, img_w as int),
            w == img_w,
            quads == rgba@.len() / 4,
            dy <= rows,
            forall|ex: int, ey: int|
                0 <= ey < dy && 0 <= ex < cols ==> !#[trigger] pixel_visible(
                    rgba@,
                    img_w as int,
                    img_h as int,
                    gr.x + ex,
                    gr.y + ey,
                ),
        decreases rows - dy,
    {
        let mut dx: u32 = 0;
        while dx < cols
            invariant
                rows == min_int(gr.h as int, img_h as int),
                cols == min_int(gr.w as int, img_w as int),
                w == img_w,
                quads == rgba@.len() / 4,
                dy < rows,
                dx <= cols,
                forall|ex: int, ey: int|
                    0 <= ey < dy && 0 <= ex < cols ==> !#[trigger] pixel_visible(
                        rgba@,
                        img_w as int,
                        img_h as int,
                        gr.x + ex,
                        gr.y + ey,
                    ),
                forall|ex: int|
                    0 <= ex < dx ==> !#[trigger] pixel_visible(
                        rgba@,
                        img_w as int,
                        img_h as int,
                        gr.x + ex,
                        gr.y + dy,
                    ),
            decreases cols - dx,
        {
            let px = gr.x as u64 + dx as u64;
            let py = gr.y as u64 + dy as u64;
            if px < w && py < img_h as u64 {
                proof {
                    assert(py * w + px < 0x1_0000_0000u64 * 0x1_0000_0000u64) by (nonlinear_arith)
                        requires
                            px < w,
                            w <= 0xffff_ffffu64,
                            py <= 0xffff_ffffu64,
                    ;
                }
                let pi = py * w + px;
                if pi < quads {
                    proof {
                        assert(rgba@.len() == rgba.len());
                        assert(pi * 4 + 3 < rgba@.len());
                    }
                    let i = (pi as usize) * 4;
                    if !is_pixel_empty(rgba[i], rgba[i + 1], rgba[i + 2], rgba[i + 3]) {
                        assert(pixel_visible(
                            rgba@,
                            img_w as int,
                            img_h as int,
                            gr.x + dx,
                            gr.y + dy,
                        ));
                        return true;
                    }
                } else {
                    assert(!(pi * 4 + 3 < rgba@.len()));
                }
            }
            dx = dx + 1;
        }
        dy = dy + 1;
    }
    false
}


proof fn lemma_insert_sorted_contains(s: Seq<GlyphBounds>, e: GlyphBounds)
    ensures
        insert_sorted(s, e).len() == s.len() + 1,
        forall|i: int|
            0 <= i < insert_sorted(s, e).len() ==> #[trigger] insert_sorted(s, e)[i] == e
                || s.contains(insert_sorted(s, e)[i]),
    decreases s.len(),
{
    if s.len() > 0 && !key_le(s.last(), e) {
        lemma_insert_sorted_contains(s.drop_last(), e);
        let t = insert_sorted(s.drop_last(), e);
        assert forall|i: int| 0 <= i < insert_sorted(s, e).len() implies #[trigger] insert_sorted(
            s,
            e,
        )[i] == e || s.contains(insert_sorted(s, e)[i]) by {
            if i < t.len() {
                assert(insert_sorted(s, e)[i] == t[i]);
                if t[i] != e {
                    let k = choose|k: int| 0 <= k < s.drop_last().len() && s.drop_last()[k] == t[i];
                    assert(s[k] == t[i]);
                }
            } else {
                assert(s[s.len() - 1] == insert_sorted(s, e)[i]);
            }
        }
    } else if s.len() > 0 {
        assert forall|i: int| 0 <= i < insert_sorted(s, e).len() implies #[trigger] insert_sorted(
            s,
            e,
        )[i] == e || s.contains(insert_sorted(s, e)[i]) by {
            if i < s.len() {
                assert(s[i] == insert_sorted(s, e)[i]);
            }
        }
    }
}

proof fn lemma_sort_contains(s: Seq<GlyphBounds>)
    ensures
        sort_by_xy(s).len() == s.len(),
        forall|i: int| 0 <= i < sort_by_xy(s).len() ==> s.contains(#[trigger] sort_by_xy(s)[i]),
    decreases s.len(),
{
    if s.len() > 0 {
        lemma_sort_contains(s.drop_last());
        let t = sort_by_xy(s.drop_last());
        lemma_insert_sorted_contains(t, s.last());
        assert forall|i: int| 0 <= i < sort_by_xy(s).len() implies s.contains(
            #[trigger] sort_by_xy(s)[i],
        ) by {
            let e = sort_by_xy(s)[i];
            assert(insert_sorted(t, s.last())[i] == e);
            if e == s.last() {
                assert(s[s.len() - 1] == e);
            } else {
                let k = choose|k: int| 0 <= k < t.len() && t[k] == e;
                assert(s.drop_last().contains(t[k]));
                let m = choose|m: int| 0 <= m < s.drop_last().len() && s.drop_last()[m] == e;
                assert(s[m] == e);
            }
        }
    }
}

/// The seeds up to the cursor `(x, y)` in row-major order.
pub open spec fn seeds_upto(img: Raster, y: int, x: int) -> Seq<(int, int)> {
    img.seeds_before_row(y as nat) + img.seeds_in_row(y, x as nat)
}

/// The bounding boxes of the regions of the given seeds, in the same order.
pub open spec fn boxes_of(img: Raster, seeds: Seq<(int, int)>) -> Seq<GlyphBounds> {
    seeds.map_values(|s: (int, int)| img.bbox(s))
}

/// Whether an `rgba` buffer is too small for a `w` × `h` image.
pub open spec fn buffer_too_small(len: int, w: int, h: int) -> bool {
    len < w * h * 4
}

/// Find all contiguous non-transparent regions in the image.
/// Returns bounding boxes sorted left-to-right, top-to-bottom.
pub fn find_glyph_regions(rgba: &[u8], w: u32, h: u32) -> (res: Result<Vec<GlyphBounds>, BmpfError>)
    ensures
        buffer_too_small(rgba@.len() as int, w as int, h as int) <==> res is Err,
        res matches Err(e) ==> (e matches BmpfError::Io(m) && m@ == "image buffer too small"@),
        res matches Ok(v) ==> v@ == raster(rgba@, w as int, h as int).spec_regions(),
        res matches Ok(v) ==> forall|i: int|
            0 <= i < v@.len() ==> region_fits(rgba@, w, h, #[trigger] v@[i]),
{
    let ww = w as u128;
    let hh = h as u128;
    proof {
        assert(ww * hh <= 0xffff_ffffu128 * 0xffff_ffffu128) by (nonlinear_arith)
            requires
                ww <= 0xffff_ffffu128,
                hh <= 0xffff_ffffu128,
        ;
    }
    if ww * hh * 4 > rgba.len() as u128 {
        return Err(BmpfError::Io(String::from_str("image buffer too small")));
    }
    let wu = w as usize;
    let hu = h as usize;
    let ghost img = raster(rgba@, w as int, h as int);
    proof {
        assert(rgba@.len() == rgba.len());
        assert(0 <= (w as int) * (h as int)) by (nonlinear_arith);
    }
    let n = wu * hu;
    let mut visited: Vec<bool> = Vec::new();
    while visited.len() < n
        invariant
            visited@.len() <= n,
            forall|i: int| 0 <= i < visited@.len() ==> !#[trigger] visited@[i],
        decreases n - visited@.len(),
    {
        visited.push(false);
    }
    proof {
        assert forall|q: (int, int)| img.inside(q) implies #[trigger] visited@[img.idx(q)]
            == img.reached((0, 0), q) by {
            lemma_idx_bounds(img, q);
            lemma_reached_start(img, q);
        }
        assert(seeds_upto(img, 0, 0) =~= seq![]);
    }
    let mut regions: Vec<GlyphBounds> = Vec::new();
    let mut y: usize = 0;
    while y < hu
        invariant
            img == raster(rgba@, w as int, h as int),
            img.wf(),
            wu == w,
            hu == h,
            n == wu * hu,
            y <= hu,
            visited@.len() == n,
            forall|q: (int, int)|
                img.inside(q) ==> #[trigger] visited@[img.idx(q)] == img.reached((0, y as int), q),
            regions@ == boxes_of(img, seeds_upto(img, y as int, 0)),
            forall|i: int| 0 <= i < regions@.len() ==> region_fits(rgba@, w, h, #[trigger] regions@[i]),
        decreases hu - y,
    {
        let mut x: usize = 0;
        while x < wu
            invariant
                img == raster(rgba@, w as int, h as int),
                img.wf(),
                wu == w,
                hu == h,
                n == wu * hu,
                y < hu,
                x <= wu,
                visited@.len() == n,
                forall|q: (int, int)|
                    img.inside(q) ==> #[trigger] visited@[img.idx(q)] == img.reached(
                        (x as int, y as int),
                        q,
                    ),
                regions@ == boxes_of(img, seeds_upto(img, y as int, x as int)),
                forall|i: int|
                    0 <= i < regions@.len() ==> region_fits(rgba@, w, h, #[trigger] regions@[i]),
            decreases wu - x,
        {
            let ghost c = (x as int, y as int);
            let ghost vis_before = visited@;
            let ghost regs_before = regions@;
            proof {
                lemma_idx_bounds(img, c);
                assert(rgba@.len() == rgba.len());
                assert(seeds_upto(img, y as int, x + 1) == seeds_upto(img, y as int, x as int)
                    + if img.is_seed(c) {
                    seq![c]
                } else {
                    seq![]
                }) by {
                    assert(img.seeds_in_row(y as int, (x + 1) as nat) == if img.is_seed(c) {
                        img.seeds_in_row(y as int, x as nat).push(c)
                    } else {
                        img.seeds_in_row(y as int, x as nat)
                    });
                    if img.is_seed(c) {
                        assert(seeds_upto(img, y as int, x + 1) =~= seeds_upto(
                            img,
                            y as int,
                            x as int,
                        ) + seq![c]);
                    } else {
                        assert(seeds_upto(img, y as int, x + 1) =~= seeds_upto(
                            img,
                            y as int,
                            x as int,
                        ) + seq![]);
                    }
                }
            }
            let pi = y * wu + x;
            if visited[pi] {
                proof {
                    // Some earlier pixel reaches `c`, so `c` is no seed and adds nothing.
                    assert(img.reached(c, c));
                    let p = choose|p: (int, int)| #[trigger] precedes(p, c) && img.connected(p, c);
                    assert(!img.is_seed(c));
                    assert forall|q: (int, int)| img.inside(q) implies #[trigger] visited@[img.idx(
                        q,
                    )] == img.reached((x + 1, y as int), q) by {
                        lemma_reached_next(img, c, q);
                        if img.connected(c, q) {
                            lemma_connected_trans(img, p, c, q);
                            assert(precedes(p, c) && img.connected(p, q));
                        }
                    }
                    assert(boxes_of(img, seeds_upto(img, y as int, x + 1)) =~= regions@);
                }
            } else if !pixel_filled(rgba, wu, hu, x, y) {
                proof {
                    assert(!img.is_seed(c));
                    assert forall|q: (int, int)| img.inside(q) implies #[trigger] visited@[img.idx(
                        q,
                    )] == img.reached((x + 1, y as int), q) by {
                        lemma_reached_next(img, c, q);
                        if img.connected(c, q) {
                            lemma_connected_filled(img, c, q);
                        }
                    }
                    assert(boxes_of(img, seeds_upto(img, y as int, x + 1)) =~= regions@);
                }
            } else {
                proof {
                    lemma_reached_closed(img, c, visited@);
                    assert forall|q: (int, int)| #[trigger] precedes(q, c) implies !img.connected(
                        q,
                        c,
                    ) by {
                        if img.connected(q, c) {
                            assert(img.reached(c, c));
                        }
                    }
                    assert(img.is_seed(c));
                }
                let (min_x, max_x, min_y, max_y) = flood_fill(rgba, wu, hu, &mut visited, x, y);
                proof {
                    lemma_min_x_unique(img, c, min_x as int);
                    lemma_max_x_unique(img, c, max_x as int);
                    lemma_min_y_unique(img, c, min_y as int);
                    lemma_max_y_unique(img, c, max_y as int);
                    let qa = choose|q: (int, int)| #[trigger] img.connected(c, q) && q.0 == max_x;
                    let qb = choose|q: (int, int)| #[trigger] img.connected(c, q) && q.1 == max_y;
                    lemma_connected_filled(img, c, qa);
                    lemma_connected_filled(img, c, qb);
                    assert forall|q: (int, int)| img.inside(q) implies #[trigger] visited@[img.idx(
                        q,
                    )] == img.reached((x + 1, y as int), q) by {
                        lemma_reached_next(img, c, q);
                    }
                }
                let b = GlyphBounds {
                    x: min_x as u32,
                    y: min_y as u32,
                    w: (max_x - min_x + 1) as u32,
                    h: (max_y - min_y + 1) as u32,
                };
                proof {
                    lemma_connected_refl(img, c);
                    assert(min_x <= x <= max_x && min_y <= y <= max_y);
                    assert(pixel_visible(
                        rgba@,
                        w as int,
                        h as int,
                        b.x + (x - min_x),
                        b.y + (y - min_y),
                    ));
                    assert(region_fits(rgba@, w, h, b));
                }
                regions.push(b);
                proof {
                    assert(b == img.bbox(c));
                    assert(boxes_of(img, seeds_upto(img, y as int, x + 1)) =~= regs_before.push(b));
                }
            }
            x = x + 1;
        }
        proof {
            assert forall|q: (int, int)| img.inside(q) implies #[trigger] visited@[img.idx(q)]
                == img.reached((0, y + 1), q) by {
                lemma_reached_row(img, y as int, q);
            }
            assert(img.seeds_before_row((y + 1) as nat) == img.seeds_before_row(y as nat)
                + img.seeds_in_row(y as int, img.w as nat));
            assert(seeds_upto(img, y + 1, 0) =~= seeds_upto(img, y as int, wu as int));
        }
        y = y + 1;
    }
    proof {
        assert(seeds_upto(img, hu as int, 0) =~= img.seeds());
    }
    let sorted = sort_regions(&regions);
    proof {
        lemma_sort_contains(regions@);
        assert forall|i: int| 0 <= i < sorted@.len() implies region_fits(
            rgba@,
            w,
            h,
            #[trigger] sorted@[i],
        ) by {
            let k = choose|k: int| 0 <= k < regions@.len() && regions@[k] == sorted@[i];
            assert(region_fits(rgba@, w, h, regions@[k]));
        }
    }
    Ok(sorted)
}


/// Ordered by `(x, y)`: left to right, then top to bottom.
pub open spec fn sorted_xy(s: Seq<GlyphBounds>) -> bool {
    forall|i: int, j: int| 0 <= i < j < s.len() ==> key_le(#[trigger] s[i], #[trigger] s[j])
}

proof fn lemma_insert_sorted_sorted(s: Seq<GlyphBounds>, e: GlyphBounds)
    requires
        sorted_xy(s),
    ensures
        sorted_xy(insert_sorted(s, e)),
    decreases s.len(),
{
    lemma_insert_sorted_contains(s, e);
    let r = insert_sorted(s, e);
    if s.len() == 0 {
    } else if key_le(s.last(), e) {
        assert forall|i: int, j: int| 0 <= i < j < r.len() implies key_le(
            #[trigger] r[i],
            #[trigger] r[j],
        ) by {
            if j == s.len() {
                if i < s.len() - 1 {
                    assert(key_le(s[i], s[s.len() - 1]));
                }
            } else {
                assert(key_le(s[i], s[j]));
            }
        }
    } else {
        let t = insert_sorted(s.drop_last(), e);
        assert(sorted_xy(s.drop_last())) by {
            assert forall|i: int, j: int| 0 <= i < j < s.drop_last().len() implies key_le(
                #[trigger] s.drop_last()[i],
                #[trigger] s.drop_last()[j],
            ) by {
                assert(key_le(s[i], s[j]));
            }
        }
        lemma_insert_sorted_sorted(s.drop_last(), e);
        lemma_insert_sorted_contains(s.drop_last(), e);
        assert forall|i: int, j: int| 0 <= i < j < r.len() implies key_le(
            #[trigger] r[i],
            #[trigger] r[j],
        ) by {
            if j == t.len() {
                assert(r[i] == t[i]);
                assert(r[j] == s.last());
                if t[i] != e {
                    let k = choose|k: int|
                        0 <= k < s.drop_last().len() && s.drop_last()[k] == t[i];
                    assert(key_le(s[k], s[s.len() - 1]));
                }
            } else {
                assert(r[i] == t[i] && r[j] == t[j]);
            }
        }
    }
}

/// The regions come out sorted left to right, then top to bottom.
pub proof fn law_regions_sorted(img: Raster)
    ensures
        sorted_xy(img.spec_regions()),
        forall|i: int, j: int|
            0 <= i < j < img.spec_regions().len() ==> {
                ||| (#[trigger] img.spec_regions()[i]).x < (#[trigger] img.spec_regions()[j]).x
                ||| img.spec_regions()[i].x == img.spec_regions()[j].x && img.spec_regions()[i].y
                    <= img.spec_regions()[j].y
            },
{
    lemma_sort_sorted(img.seeds().map_values(|s: (int, int)| img.bbox(s)));
    assert forall|i: int, j: int| 0 <= i < j < img.spec_regions().len() implies {
        ||| (#[trigger] img.spec_regions()[i]).x < (#[trigger] img.spec_regions()[j]).x
        ||| img.spec_regions()[i].x == img.spec_regions()[j].x && img.spec_regions()[i].y
            <= img.spec_regions()[j].y
    } by {
        assert(key_le(img.spec_regions()[i], img.spec_regions()[j]));
    }
}

proof fn lemma_sort_sorted(s: Seq<GlyphBounds>)
    ensures
        sorted_xy(sort_by_xy(s)),
    decreases s.len(),
{
    if s.len() > 0 {
        lemma_sort_sorted(s.drop_last());
        lemma_insert_sorted_sorted(sort_by_xy(s.drop_last()), s.last());
    }
}

/// The seeds of a row prefix are seeds, in that row, left to right.
proof fn lemma_row_seeds(img: Raster, y: int, n: nat)
    ensures
        forall|i: int|
            0 <= i < img.seeds_in_row(y, n).len() ==> {
                &&& img.is_seed(#[trigger] img.seeds_in_row(y, n)[i])
                &&& img.seeds_in_row(y, n)[i].1 == y
                &&& 0 <= img.seeds_in_row(y, n)[i].0 < n
            },
        forall|i: int, j: int|
            0 <= i < j < img.seeds_in_row(y, n).len() ==> #[trigger] img.seeds_in_row(y, n)[i].0
                < #[trigger] img.seeds_in_row(y, n)[j].0,
        forall|x: int| 0 <= x < n && #[trigger] img.is_seed((x, y)) ==> img.seeds_in_row(y, n).contains((x, y)),
    decreases n,
{
    if n > 0 {
        lemma_row_seeds(img, y, (n - 1) as nat);
        let prev = img.seeds_in_row(y, (n - 1) as nat);
        let cur = img.seeds_in_row(y, n);
        if img.is_seed((n - 1, y)) {
            assert(cur == prev.push((n - 1, y)));
            assert forall|x: int| 0 <= x < n && #[trigger] img.is_seed((x, y)) implies cur.contains((x, y)) by {
                if x < n - 1 {
                    let k = choose|k: int| 0 <= k < prev.len() && prev[k] == (x, y);
                    assert(cur[k] == (x, y));
                } else {
                    assert(cur[prev.len() as int] == (x, y));
                }
            }
        } else {
            assert(cur == prev);
        }
    }
}

/// The seeds of the first `m` rows are seeds of those rows, in row-major
/// order, and each seed of those rows is among them.
proof fn lemma_rows_seeds(img: Raster, m: nat)
    requires
        0 <= img.w,
    ensures
        forall|i: int|
            0 <= i < img.seeds_before_row(m).len() ==> {
                &&& img.is_seed(#[trigger] img.seeds_before_row(m)[i])
                &&& img.seeds_before_row(m)[i].1 < m
            },
        forall|i: int, j: int|
            0 <= i < j < img.seeds_before_row(m).len() ==> precedes(
                #[trigger] img.seeds_before_row(m)[i],
                #[trigger] img.seeds_before_row(m)[j],
            ),
        forall|q: (int, int)|
            #[trigger] img.is_seed(q) && q.1 < m ==> img.seeds_before_row(m).contains(q),
    decreases m,
{
    if m > 0 {
        let y = m - 1;
        lemma_rows_seeds(img, (m - 1) as nat);
        lemma_row_seeds(img, y, img.w as nat);
        let a = img.seeds_before_row((m - 1) as nat);
        let b = img.seeds_in_row(y, img.w as nat);
        let c = img.seeds_before_row(m);
        assert(c == a + b);
        assert forall|i: int| 0 <= i < c.len() implies {
            &&& img.is_seed(#[trigger] c[i])
            &&& c[i].1 < m
        } by {
            if i >= a.len() {
                assert(c[i] == b[i - a.len()]);
            }
        }
        assert forall|i: int, j: int| 0 <= i < j < c.len() implies precedes(
            #[trigger] c[i],
            #[trigger] c[j],
        ) by {
            if j < a.len() {
            } else if i < a.len() {
                assert(c[j] == b[j - a.len()]);
                assert(img.is_seed(a[i]));
            } else {
                assert(c[i] == b[i - a.len()]);
                assert(c[j] == b[j - a.len()]);
            }
        }
        assert forall|q: (int, int)| #[trigger] img.is_seed(q) && q.1 < m implies c.contains(q) by {
            if q.1 < m - 1 {
                let k = choose|k: int| 0 <= k < a.len() && a[k] == q;
                assert(c[k] == q);
            } else {
                assert(img.is_seed((q.0, y)));
                let k = choose|k: int| 0 <= k < b.len() && b[k] == q;
                assert(c[a.len() + k] == q);
            }
        }
    }
}

/// Every filled pixel is connected to a seed no later than itself.
proof fn lemma_has_seed(img: Raster, q: (int, int))
    requires
        img.filled(q),
    ensures
        exists|s: (int, int)| #[trigger] img.is_seed(s) && img.connected(s, q),
    decreases img.idx(q),
{
    lemma_connected_refl(img, q);
    if img.is_seed(q) {
    } else {
        let p = choose|p: (int, int)| #[trigger] precedes(p, q) && img.connected(p, q);
        lemma_connected_filled(img, p, q);
        assert(img.idx(p) < img.idx(q)) by {
            if p.1 < q.1 {
                assert(p.1 * img.w + p.0 < q.1 * img.w + q.0) by (nonlinear_arith)
                    requires
                        0 <= p.0 < img.w,
                        0 <= q.0,
                        p.1 < q.1,
                ;
            }
        }
        assert(0 <= img.idx(p)) by {
            assert(0 <= p.1 * img.w) by (nonlinear_arith)
                requires
                    0 <= p.1,
                    0 <= p.0 < img.w,
            ;
        }
        lemma_has_seed(img, p);
        let s = choose|s: (int, int)| #[trigger] img.is_seed(s) && img.connected(s, p);
        lemma_connected_trans(img, s, p, q);
    }
}

/// One seed per region: the seeds are pairwise unconnected, and every
/// filled pixel is connected to one of them.
pub proof fn law_seeds_partition(img: Raster)
    requires
        0 <= img.w,
    ensures
        forall|i: int, j: int|
            0 <= i < j < img.seeds().len() ==> !img.connected(
                #[trigger] img.seeds()[i],
                #[trigger] img.seeds()[j],
            ),
        forall|q: (int, int)|
            #[trigger] img.filled(q) ==> exists|i: int|
                0 <= i < img.seeds().len() && img.connected(#[trigger] img.seeds()[i], q),
{
    lemma_rows_seeds(img, img.h as nat);
    let sd = img.seeds();
    assert forall|i: int, j: int| 0 <= i < j < sd.len() implies !img.connected(
        #[trigger] sd[i],
        #[trigger] sd[j],
    ) by {
        assert(precedes(sd[i], sd[j]));
        assert(img.is_seed(sd[j]));
    }
    assert forall|q: (int, int)| #[trigger] img.filled(q) implies exists|i: int|
        0 <= i < sd.len() && img.connected(#[trigger] sd[i], q) by {
        lemma_has_seed(img, q);
        let s = choose|s: (int, int)| #[trigger] img.is_seed(s) && img.connected(s, q);
        assert(img.filled(s));
        let k = choose|k: int| 0 <= k < sd.len() && sd[k] == s;
        assert(img.connected(sd[k], q));
    }
}


/// A non-empty set of integers bounded below has a least element.
proof fn lemma_exists_min(p: spec_fn(int) -> bool, lo: int, k: int)
    requires
        p(k),
        forall|j: int| #[trigger] p(j) ==> lo <= j,
    ensures
        exists|m: int| #[trigger] p(m) && forall|j: int| #[trigger] p(j) ==> m <= j,
    decreases k - lo,
{
    if exists|j: int| #[trigger] p(j) && j < k {
        let j = choose|j: int| #[trigger] p(j) && j < k;
        lemma_exists_min(p, lo, j);
    } else {
        assert(p(k) && forall|j: int| #[trigger] p(j) ==> k <= j);
    }
}

/// A non-empty set of integers bounded above has a greatest element.
proof fn lemma_exists_max(p: spec_fn(int) -> bool, hi: int, k: int)
    requires
        p(k),
        forall|j: int| #[trigger] p(j) ==> j <= hi,
    ensures
        exists|m: int| #[trigger] p(m) && forall|j: int| #[trigger] p(j) ==> j <= m,
    decreases hi - k,
{
    if exists|j: int| #[trigger] p(j) && j > k {
        let j = choose|j: int| #[trigger] p(j) && j > k;
        lemma_exists_max(p, hi, j);
    } else {
        assert(p(k) && forall|j: int| #[trigger] p(j) ==> j <= k);
    }
}

/// The bounding box of the region of a filled pixel `s` is made of its
/// extreme coordinates, and holds every pixel of the region.
proof fn lemma_bbox_facts(img: Raster, s: (int, int))
    requires
        img.filled(s),
    ensures
        img.is_min_x(s, img.comp_min_x(s)),
        img.is_max_x(s, img.comp_max_x(s)),
        img.is_min_y(s, img.comp_min_y(s)),
        img.is_max_y(s, img.comp_max_y(s)),
        0 <= img.comp_min_x(s) <= s.0 <= img.comp_max_x(s) < img.w,
        0 <= img.comp_min_y(s) <= s.1 <= img.comp_max_y(s) < img.h,
{
    lemma_connected_refl(img, s);
    let px = |v: int| exists|q: (int, int)| #[trigger] img.connected(s, q) && q.0 == v;
    let py = |v: int| exists|q: (int, int)| #[trigger] img.connected(s, q) && q.1 == v;
    assert(px(s.0));
    assert(py(s.1));
    assert forall|j: int| #[trigger] px(j) implies 0 <= j < img.w by {
        let q = choose|q: (int, int)| #[trigger] img.connected(s, q) && q.0 == j;
        lemma_connected_filled(img, s, q);
    }
    assert forall|j: int| #[trigger] py(j) implies 0 <= j < img.h by {
        let q = choose|q: (int, int)| #[trigger] img.connected(s, q) && q.1 == j;
        lemma_connected_filled(img, s, q);
    }
    lemma_exists_min(px, 0, s.0);
    lemma_exists_max(px, img.w, s.0);
    lemma_exists_min(py, 0, s.1);
    lemma_exists_max(py, img.h, s.1);
    let a = choose|m: int| #[trigger] px(m) && forall|j: int| #[trigger] px(j) ==> m <= j;
    let b = choose|m: int| #[trigger] px(m) && forall|j: int| #[trigger] px(j) ==> j <= m;
    let c = choose|m: int| #[trigger] py(m) && forall|j: int| #[trigger] py(j) ==> m <= j;
    let d = choose|m: int| #[trigger] py(m) && forall|j: int| #[trigger] py(j) ==> j <= m;
    assert forall|q: (int, int)| #[trigger] img.connected(s, q) implies a <= q.0 <= b && c <= q.1 <= d by {
        assert(px(q.0));
        assert(py(q.1));
    }
    assert(img.is_min_x(s, a));
    assert(img.is_max_x(s, b));
    assert(img.is_min_y(s, c));
    assert(img.is_max_y(s, d));
    lemma_min_x_unique(img, s, a);
    lemma_max_x_unique(img, s, b);
    lemma_min_y_unique(img, s, c);
    lemma_max_y_unique(img, s, d);
}

proof fn lemma_insert_sorted_keeps(s: Seq<GlyphBounds>, e: GlyphBounds)
    ensures
        insert_sorted(s, e).contains(e),
        forall|i: int| 0 <= i < s.len() ==> insert_sorted(s, e).contains(#[trigger] s[i]),
    decreases s.len(),
{
    let r = insert_sorted(s, e);
    if s.len() == 0 {
        assert(r[0] == e);
    } else if key_le(s.last(), e) {
        assert(r[s.len() as int] == e);
        assert forall|i: int| 0 <= i < s.len() implies r.contains(#[trigger] s[i]) by {
            assert(r[i] == s[i]);
        }
    } else {
        let t = insert_sorted(s.drop_last(), e);
        lemma_insert_sorted_keeps(s.drop_last(), e);
        lemma_insert_sorted_contains(s.drop_last(), e);
        let k = choose|k: int| 0 <= k < t.len() && t[k] == e;
        assert(r[k] == e);
        assert forall|i: int| 0 <= i < s.len() implies r.contains(#[trigger] s[i]) by {
            if i == s.len() - 1 {
                assert(r[t.len() as int] == s[i]);
            } else {
                assert(s.drop_last()[i] == s[i]);
                let m = choose|m: int| 0 <= m < t.len() && t[m] == s.drop_last()[i];
                assert(r[m] == s[i]);
            }
        }
    }
}

/// Sorting loses no entry.
proof fn lemma_sort_keeps(s: Seq<GlyphBounds>)
    ensures
        forall|i: int| 0 <= i < s.len() ==> sort_by_xy(s).contains(#[trigger] s[i]),
    decreases s.len(),
{
    if s.len() > 0 {
        let t = sort_by_xy(s.drop_last());
        lemma_sort_keeps(s.drop_last());
        lemma_insert_sorted_keeps(t, s.last());
        assert forall|i: int| 0 <= i < s.len() implies sort_by_xy(s).contains(#[trigger] s[i]) by {
            if i < s.len() - 1 {
                assert(s.drop_last()[i] == s[i]);
                let m = choose|m: int| 0 <= m < t.len() && t[m] == s.drop_last()[i];
                assert(t[m] == s[i]);
            }
        }
    }
}

/// The pixel `q` lies in the box `r`.
pub open spec fn box_holds(r: GlyphBounds, q: (int, int)) -> bool {
    r.x <= q.0 < r.x + r.w && r.y <= q.1 < r.y + r.h
}

/// The box of the region of a filled pixel `s` fits the image, holds `s`
/// as a visible pixel, and holds every pixel of the region.
proof fn lemma_bbox_fits(rgba: Seq<u8>, w: u32, h: u32, s: (int, int))
    requires
        raster(rgba, w as int, h as int).wf(),
        raster(rgba, w as int, h as int).filled(s),
    ensures
        region_fits(rgba, w, h, raster(rgba, w as int, h as int).bbox(s)),
        forall|q: (int, int)|
            #[trigger] raster(rgba, w as int, h as int).connected(s, q) ==> box_holds(
                raster(rgba, w as int, h as int).bbox(s),
                q,
            ),
{
    let img = raster(rgba, w as int, h as int);
    lemma_bbox_facts(img, s);
    lemma_idx_bounds(img, s);
    let r = img.bbox(s);
    assert(pixel_visible(rgba, w as int, h as int, r.x + (s.0 - r.x), r.y + (s.1 - r.y)));
}

/// Every region found lies inside the image and holds a visible pixel.
proof fn lemma_regions_fit(rgba: Seq<u8>, w: u32, h: u32)
    requires
        raster(rgba, w as int, h as int).wf(),
    ensures
        forall|i: int|
            0 <= i < raster(rgba, w as int, h as int).spec_regions().len() ==> region_fits(
                rgba,
                w,
                h,
                #[trigger] raster(rgba, w as int, h as int).spec_regions()[i],
            ),
{
    let img = raster(rgba, w as int, h as int);
    let sd = img.seeds();
    let boxes = boxes_of(img, sd);
    let regions = img.spec_regions();
    lemma_rows_seeds(img, img.h as nat);
    lemma_sort_contains(boxes);
    assert forall|i: int| 0 <= i < regions.len() implies region_fits(rgba, w, h, #[trigger] regions[i]) by {
        let k = choose|k: int| 0 <= k < boxes.len() && boxes[k] == regions[i];
        assert(img.is_seed(sd[k]));
        lemma_bbox_fits(rgba, w, h, sd[k]);
    }
}

/// Every glyph pixel lies in the box of some region found.
proof fn lemma_regions_complete(rgba: Seq<u8>, w: u32, h: u32)
    requires
        raster(rgba, w as int, h as int).wf(),
    ensures
        forall|q: (int, int)|
            #[trigger] raster(rgba, w as int, h as int).filled(q) ==> exists|i: int|
                0 <= i < raster(rgba, w as int, h as int).spec_regions().len() && box_holds(
                    #[trigger] raster(rgba, w as int, h as int).spec_regions()[i],
                    q,
                ),
{
    let img = raster(rgba, w as int, h as int);
    let sd = img.seeds();
    let boxes = boxes_of(img, sd);
    let regions = img.spec_regions();
    law_seeds_partition(img);
    lemma_sort_keeps(boxes);
    assert forall|q: (int, int)| #[trigger] img.filled(q) implies exists|i: int|
        0 <= i < regions.len() && box_holds(#[trigger] regions[i], q) by {
        let k = choose|k: int| 0 <= k < sd.len() && img.connected(#[trigger] sd[k], q);
        lemma_connected_filled(img, sd[k], q);
        lemma_bbox_fits(rgba, w, h, sd[k]);
        assert(boxes[k] == img.bbox(sd[k]));
        assert(regions.contains(boxes[k]));
        let i = choose|i: int| 0 <= i < regions.len() && regions[i] == boxes[k];
        assert(box_holds(regions[i], q));
    }
}

/// The scan finds all glyphs and only glyphs: every region lies inside the
/// image and holds a visible pixel, and every glyph pixel lies in a region.
pub proof fn law_regions_cover(rgba: Seq<u8>, w: u32, h: u32)
    requires
        raster(rgba, w as int, h as int).wf(),
    ensures
        forall|i: int|
            0 <= i < raster(rgba, w as int, h as int).spec_regions().len() ==> region_fits(
                rgba,
                w,
                h,
                #[trigger] raster(rgba, w as int, h as int).spec_regions()[i],
            ),
        forall|q: (int, int)|
            #[trigger] raster(rgba, w as int, h as int).filled(q) ==> exists|i: int|
                0 <= i < raster(rgba, w as int, h as int).spec_regions().len() && box_holds(
                    #[trigger] raster(rgba, w as int, h as int).spec_regions()[i],
                    q,
                ),
{
    lemma_regions_fit(rgba, w, h);
    lemma_regions_complete(rgba, w, h);
}


/// Two rasters of the same size that agree on which pixels are glyph pixels.
pub open spec fn same_mask(a: Raster, b: Raster) -> bool {
    &&& a.w == b.w
    &&& a.h == b.h
    &&& forall|p: (int, int)| #![trigger a.filled(p)] #![trigger b.filled(p)] a.filled(p) == b.filled(p)
}

proof fn lemma_same_mask_connected(a: Raster, b: Raster)
    requires
        same_mask(a, b),
    ensures
        forall|p: (int, int), q: (int, int)|
            #![trigger a.connected(p, q)]
            #![trigger b.connected(p, q)]
            a.connected(p, q) == b.connected(p, q),
{
    assert forall|path: Seq<(int, int)>| #[trigger] a.is_path(path) implies b.is_path(path) by {
        assert forall|i: int| 0 <= i < path.len() implies b.filled(#[trigger] path[i]) by {
            assert(a.filled(path[i]));
        }
    }
    assert forall|path: Seq<(int, int)>| #[trigger] b.is_path(path) implies a.is_path(path) by {
        assert forall|i: int| 0 <= i < path.len() implies a.filled(#[trigger] path[i]) by {
            assert(b.filled(path[i]));
        }
    }
    assert forall|p: (int, int), q: (int, int)| a.connected(p, q) implies b.connected(p, q) by {
        let path = choose|path: Seq<(int, int)>|
            #![trigger a.is_path(path), path[0], path.last()]
            a.is_path(path) && path[0] == p && path.last() == q;
        assert(b.is_path(path));
    }
    assert forall|p: (int, int), q: (int, int)| b.connected(p, q) implies a.connected(p, q) by {
        let path = choose|path: Seq<(int, int)>|
            #![trigger b.is_path(path), path[0], path.last()]
            b.is_path(path) && path[0] == p && path.last() == q;
        assert(a.is_path(path));
    }
}

proof fn lemma_same_mask_seeds(a: Raster, b: Raster)
    requires
        same_mask(a, b),
    ensures
        forall|p: (int, int)| #![trigger a.is_seed(p)] #![trigger b.is_seed(p)] a.is_seed(p) == b.is_seed(p),
        forall|y: int, n: nat| #[trigger] a.seeds_in_row(y, n) == b.seeds_in_row(y, n),
        forall|m: nat| #[trigger] a.seeds_before_row(m) == b.seeds_before_row(m),
{
    lemma_same_mask_connected(a, b);
    assert forall|p: (int, int)| a.is_seed(p) == b.is_seed(p) by {
        assert(a.filled(p) == b.filled(p));
        if a.is_seed(p) {
            assert forall|q: (int, int)| #[trigger] precedes(q, p) implies !b.connected(q, p) by {
                assert(!a.connected(q, p));
            }
        }
        if b.is_seed(p) {
            assert forall|q: (int, int)| #[trigger] precedes(q, p) implies !a.connected(q, p) by {
                assert(!b.connected(q, p));
            }
        }
    }
    assert forall|y: int, n: nat| #[trigger] a.seeds_in_row(y, n) == b.seeds_in_row(y, n) by {
        lemma_same_mask_row(a, b, y, n);
    }
    assert forall|m: nat| #[trigger] a.seeds_before_row(m) == b.seeds_before_row(m) by {
        lemma_same_mask_rows(a, b, m);
    }
}

proof fn lemma_same_mask_row(a: Raster, b: Raster, y: int, n: nat)
    requires
        same_mask(a, b),
        forall|p: (int, int)| #![trigger a.is_seed(p)] #![trigger b.is_seed(p)] a.is_seed(p) == b.is_seed(p),
    ensures
        a.seeds_in_row(y, n) == b.seeds_in_row(y, n),
    decreases n,
{
    if n > 0 {
        lemma_same_mask_row(a, b, y, (n - 1) as nat);
        assert(a.is_seed((n - 1, y)) == b.is_seed((n - 1, y)));
    }
}

proof fn lemma_same_mask_rows(a: Raster, b: Raster, m: nat)
    requires
        same_mask(a, b),
        forall|p: (int, int)| #![trigger a.is_seed(p)] #![trigger b.is_seed(p)] a.is_seed(p) == b.is_seed(p),
    ensures
        a.seeds_before_row(m) == b.seeds_before_row(m),
    decreases m,
{
    if m > 0 {
        lemma_same_mask_rows(a, b, (m - 1) as nat);
        lemma_same_mask_row(a, b, m - 1, a.w as nat);
    }
}

proof fn lemma_same_mask_bbox(a: Raster, b: Raster, s: (int, int))
    requires
        same_mask(a, b),
        a.filled(s),
    ensures
        a.bbox(s) == b.bbox(s),
{
    lemma_same_mask_connected(a, b);
    assert(b.filled(s));
    lemma_bbox_facts(a, s);
    lemma_bbox_facts(b, s);
    let v1 = a.comp_min_x(s);
    let v2 = a.comp_max_x(s);
    let v3 = a.comp_min_y(s);
    let v4 = a.comp_max_y(s);
    let u1 = b.comp_min_x(s);
    let u2 = b.comp_max_x(s);
    let u3 = b.comp_min_y(s);
    let u4 = b.comp_max_y(s);
    assert(b.is_min_x(s, v1)) by {
        let q = choose|q: (int, int)| #[trigger] a.connected(s, q) && q.0 == v1;
        assert(b.connected(s, q));
        assert forall|q: (int, int)| #[trigger] b.connected(s, q) implies v1 <= q.0 by {
            assert(a.connected(s, q));
        }
    }
    assert(b.is_max_x(s, v2)) by {
        let q = choose|q: (int, int)| #[trigger] a.connected(s, q) && q.0 == v2;
        assert(b.connected(s, q));
        assert forall|q: (int, int)| #[trigger] b.connected(s, q) implies q.0 <= v2 by {
            assert(a.connected(s, q));
        }
    }
    assert(b.is_min_y(s, v3)) by {
        let q = choose|q: (int, int)| #[trigger] a.connected(s, q) && q.1 == v3;
        assert(b.connected(s, q));
        assert forall|q: (int, int)| #[trigger] b.connected(s, q) implies v3 <= q.1 by {
            assert(a.connected(s, q));
        }
    }
    assert(b.is_max_y(s, v4)) by {
        let q = choose|q: (int, int)| #[trigger] a.connected(s, q) && q.1 == v4;
        assert(b.connected(s, q));
        assert forall|q: (int, int)| #[trigger] b.connected(s, q) implies q.1 <= v4 by {
            assert(a.connected(s, q));
        }
    }
    lemma_min_x_unique(b, s, v1);
    lemma_max_x_unique(b, s, v2);
    lemma_min_y_unique(b, s, v3);
    lemma_max_y_unique(b, s, v4);
}

/// The regions depend only on the size of the image and on which of its
/// pixels are glyph pixels: the colours of glyph pixels, and the bytes of
/// the buffer past the image, play no part.
pub proof fn law_regions_depend_on_mask(rgba1: Seq<u8>, rgba2: Seq<u8>, w: u32, h: u32)
    requires
        same_mask(raster(rgba1, w as int, h as int), raster(rgba2, w as int, h as int)),
    ensures
        raster(rgba1, w as int, h as int).spec_regions() == raster(
            rgba2,
            w as int,
            h as int,
        ).spec_regions(),
{
    let a = raster(rgba1, w as int, h as int);
    let b = raster(rgba2, w as int, h as int);
    lemma_same_mask_seeds(a, b);
    let sd = a.seeds();
    assert(sd == b.seeds());
    lemma_rows_seeds(a, a.h as nat);
    let ba = boxes_of(a, sd);
    let bb = boxes_of(b, sd);
    assert forall|i: int| 0 <= i < sd.len() implies ba[i] == bb[i] by {
        assert(a.is_seed(sd[i]));
        lemma_same_mask_bbox(a, b, sd[i]);
    }
    assert(ba =~= bb);
}
} // verus!
