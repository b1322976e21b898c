//! The image model behind glyph scanning: pixels, background, 4-neighbours,
//! paths and the regions they connect.
use vstd::prelude::*;

verus! {

/// An RGBA raster as the specifications see it: `w * h` pixels of four
/// bytes each, row by row, top-left first.
pub struct Raster {
    pub px: Seq<u8>,
    pub w: int,
    pub h: int,
}

/// The raster that `rgba`, `w` and `h` describe.
pub open spec fn raster(rgba: Seq<u8>, w: int, h: int) -> Raster {
    Raster { px: rgba, w, h }
}

/// `|x - y|` on bytes.
pub open spec fn byte_diff(x: u8, y: u8) -> int {
    if x >= y { x - y } else { y - x }
}

/// A pixel is background if it is fully transparent, or within 10 of the
/// magenta colour key (255, 0, 255) in each of red, green and blue.
pub open spec fn spec_pixel_empty(r: u8, g: u8, b: u8, a: u8) -> bool {
    a == 0 || (byte_diff(r, 255) <= 10 && byte_diff(g, 0) <= 10 && byte_diff(b, 255) <= 10)
}

/// Whether two pixels are 4-neighbours.
pub open spec fn adjacent(p: (int, int), q: (int, int)) -> bool {
    ||| p.0 == q.0 && (p.1 == q.1 + 1 || q.1 == p.1 + 1)
    ||| p.1 == q.1 && (p.0 == q.0 + 1 || q.0 == p.0 + 1)
}

/// Row-major order: `p` comes before `q`.
pub open spec fn precedes(p: (int, int), q: (int, int)) -> bool {
    p.1 < q.1 || (p.1 == q.1 && p.0 < q.0)
}

/// Consecutive entries `i` and `i + 1` of a path are neighbours.
pub open spec fn link(path: Seq<(int, int)>, i: int) -> bool {
    adjacent(path[i], path[i + 1])
}

impl Raster {
    /// The raster holds all of its pixels.
    pub open spec fn wf(self) -> bool {
        0 <= self.w && 0 <= self.h && self.w * self.h * 4 <= self.px.len()
    }

    pub open spec fn inside(self, p: (int, int)) -> bool {
        0 <= p.0 < self.w && 0 <= p.1 < self.h
    }

    /// Index of a pixel in row-major order.
    pub open spec fn idx(self, p: (int, int)) -> int {
        p.1 * self.w + p.0
    }

    /// A pixel inside the raster that is not background.
    pub open spec fn filled(self, p: (int, int)) -> bool {
        let o = self.idx(p) * 4;
        self.inside(p) && !spec_pixel_empty(
            self.px[o],
            self.px[o + 1],
            self.px[o + 2],
            self.px[o + 3],
        )
    }

    /// A non-empty chain of filled pixels, each a neighbour of the next.
    pub open spec fn is_path(self, path: Seq<(int, int)>) -> bool {
        &&& path.len() > 0
        &&& forall|i: int| 0 <= i < path.len() ==> self.filled(#[trigger] path[i])
        &&& forall|i: int| 0 <= i < path.len() - 1 ==> #[trigger] link(path, i)
    }

    /// `p` and `q` lie in the same 4-connected region of filled pixels.
    pub open spec fn connected(self, p: (int, int), q: (int, int)) -> bool {
        exists|path: Seq<(int, int)>|
            #![trigger self.is_path(path), path[0], path.last()]
            self.is_path(path) && path[0] == p && path.last() == q
    }

    /// `p` is the first pixel of its region in row-major order.
    pub open spec fn is_seed(self, p: (int, int)) -> bool {
        &&& self.filled(p)
        &&& forall|q: (int, int)| #[trigger] precedes(q, p) ==> !self.connected(q, p)
    }

    /// Some pixel before `c` in row-major order is connected to `q`.
    pub open spec fn reached(self, c: (int, int), q: (int, int)) -> bool {
        exists|p: (int, int)| #[trigger] precedes(p, c) && self.connected(p, q)
    }

    pub open spec fn is_min_x(self, s: (int, int), v: int) -> bool {
        &&& exists|q: (int, int)| #[trigger] self.connected(s, q) && q.0 == v
        &&& forall|q: (int, int)| #[trigger] self.connected(s, q) ==> v <= q.0
    }

    pub open spec fn is_max_x(self, s: (int, int), v: int) -> bool {
        &&& exists|q: (int, int)| #[trigger] self.connected(s, q) && q.0 == v
        &&& forall|q: (int, int)| #[trigger] self.connected(s, q) ==> q.0 <= v
    }

    pub open spec fn is_min_y(self, s: (int, int), v: int) -> bool {
        &&& exists|q: (int, int)| #[trigger] self.connected(s, q) && q.1 == v
        &&& forall|q: (int, int)| #[trigger] self.connected(s, q) ==> v <= q.1
    }

    pub open spec fn is_max_y(self, s: (int, int), v: int) -> bool {
        &&& exists|q: (int, int)| #[trigger] self.connected(s, q) && q.1 == v
        &&& forall|q: (int, int)| #[trigger] self.connected(s, q) ==> q.1 <= v
    }
}

pub proof fn lemma_connected_refl(img: Raster, p: (int, int))
    requires
        img.filled(p),
    ensures
        img.connected(p, p),
{
    let path = seq![p];
    assert(img.is_path(path));
    assert(path.last() == p);
}

pub proof fn lemma_connected_filled(img: Raster, p: (int, int), q: (int, int))
    requires
        img.connected(p, q),
    ensures
        img.filled(p),
        img.filled(q),
{
    let path = choose|path: Seq<(int, int)>|
        #![trigger img.is_path(path), path[0], path.last()]
        img.is_path(path) && path[0] == p && path.last() == q;
    assert(img.filled(path[0]));
    assert(img.filled(path[path.len() - 1]));
}

pub proof fn lemma_connected_step(img: Raster, p: (int, int), q: (int, int), r: (int, int))
    requires
        img.connected(p, q),
        adjacent(q, r),
        img.filled(r),
    ensures
        img.connected(p, r),
{
    let path = choose|path: Seq<(int, int)>|
        #![trigger img.is_path(path), path[0], path.last()]
        img.is_path(path) && path[0] == p && path.last() == q;
    let np = path.push(r);
    assert forall|i: int| 0 <= i < np.len() implies img.filled(#[trigger] np[i]) by {
        if i < path.len() {
            assert(np[i] == path[i]);
        }
    }
    assert forall|i: int| 0 <= i < np.len() - 1 implies #[trigger] link(np, i) by {
        if i < path.len() - 1 {
            assert(link(path, i));
        }
    }
    assert(img.is_path(np));
    assert(np[0] == p);
    assert(np.last() == r);
}

pub proof fn lemma_connected_sym(img: Raster, p: (int, int), q: (int, int))
    requires
        img.connected(p, q),
    ensures
        img.connected(q, p),
{
    let path = choose|path: Seq<(int, int)>|
        #![trigger img.is_path(path), path[0], path.last()]
        img.is_path(path) && path[0] == p && path.last() == q;
    let n = path.len();
    let rp = Seq::new(n, |i: int| path[n - 1 - i]);
    assert forall|i: int| 0 <= i < rp.len() implies img.filled(#[trigger] rp[i]) by {
        assert(img.filled(path[n - 1 - i]));
    }
    assert forall|i: int| 0 <= i < rp.len() - 1 implies #[trigger] link(rp, i) by {
        assert(link(path, n - 2 - i));
    }
    assert(img.is_path(rp));
    assert(rp[0] == q);
    assert(rp.last() == p);
}

pub proof fn lemma_connected_trans(img: Raster, p: (int, int), q: (int, int), r: (int, int))
    requires
        img.connected(p, q),
        img.connected(q, r),
    ensures
        img.connected(p, r),
{
    let a = choose|path: Seq<(int, int)>|
        #![trigger img.is_path(path), path[0], path.last()]
        img.is_path(path) && path[0] == p && path.last() == q;
    let b = choose|path: Seq<(int, int)>|
        #![trigger img.is_path(path), path[0], path.last()]
        img.is_path(path) && path[0] == q && path.last() == r;
    let c = a + b.drop_first();
    assert forall|i: int| 0 <= i < c.len() implies img.filled(#[trigger] c[i]) by {
        if i < a.len() {
            assert(c[i] == a[i]);
        } else {
            assert(c[i] == b[i - a.len() + 1]);
        }
    }
    assert forall|i: int| 0 <= i < c.len() - 1 implies #[trigger] link(c, i) by {
        if i < a.len() - 1 {
            assert(link(a, i));
        } else if i == a.len() - 1 {
            assert(c[i] == a.last());
            assert(c[i + 1] == b[1]);
            assert(link(b, 0));
        } else {
            assert(link(b, i - a.len() + 1));
        }
    }
    assert(img.is_path(c));
    assert(c[0] == p);
    if b.len() == 1 {
        assert(c =~= a);
    } else {
        assert(c.last() == b.last());
    }
}


/// Every filled neighbour of a marked pixel is marked.
pub open spec fn closed(img: Raster, vis: Seq<bool>) -> bool {
    forall|q: (int, int), n: (int, int)|
        #![trigger adjacent(q, n), vis[img.idx(q)], vis[img.idx(n)]]
        img.inside(q) && vis[img.idx(q)] && adjacent(q, n) && img.filled(n) ==> vis[img.idx(n)]
}

pub proof fn lemma_idx_bounds(img: Raster, p: (int, int))
    requires
        img.wf(),
        img.inside(p),
    ensures
        0 <= p.1 * img.w <= img.idx(p) < img.w * img.h,
        img.idx(p) * 4 + 3 < img.px.len(),
{
    let w = img.w;
    let h = img.h;
    let x = p.0;
    let y = p.1;
    assert(y * w + x < w * h) by (nonlinear_arith)
        requires
            0 <= x < w,
            0 <= y < h,
    ;
    assert(0 <= y * w) by (nonlinear_arith)
        requires
            0 <= y,
            0 <= w,
    ;
}

pub proof fn lemma_idx_inj(img: Raster, p: (int, int), q: (int, int))
    requires
        img.inside(p),
        img.inside(q),
        img.idx(p) == img.idx(q),
    ensures
        p == q,
{
    let w = img.w;
    assert(p.1 == q.1) by {
        if p.1 < q.1 {
            assert(p.1 * w + p.0 < q.1 * w + q.0) by (nonlinear_arith)
                requires
                    0 <= p.0 < w,
                    0 <= q.0 < w,
                    p.1 < q.1,
            ;
        } else if q.1 < p.1 {
            assert(q.1 * w + q.0 < p.1 * w + p.0) by (nonlinear_arith)
                requires
                    0 <= p.0 < w,
                    0 <= q.0 < w,
                    q.1 < p.1,
            ;
        }
    }
}

/// A closed set that holds `p` holds every pixel connected to `p`.
pub proof fn lemma_closed_connected(img: Raster, vis: Seq<bool>, p: (int, int), q: (int, int))
    requires
        closed(img, vis),
        vis[img.idx(p)],
        img.connected(p, q),
    ensures
        vis[img.idx(q)],
{
    let path = choose|path: Seq<(int, int)>|
        #![trigger img.is_path(path), path[0], path.last()]
        img.is_path(path) && path[0] == p && path.last() == q;
    lemma_closed_path(img, vis, path, path.len() - 1);
}

proof fn lemma_closed_path(img: Raster, vis: Seq<bool>, path: Seq<(int, int)>, i: int)
    requires
        closed(img, vis),
        img.is_path(path),
        vis[img.idx(path[0])],
        0 <= i < path.len(),
    ensures
        vis[img.idx(path[i])],
    decreases i,
{
    if i > 0 {
        lemma_closed_path(img, vis, path, i - 1);
        assert(link(path, i - 1));
        assert(img.filled(path[i - 1]));
        assert(img.filled(path[i]));
        assert(adjacent(path[i - 1], path[i]));
    }
}

/// Whether the pixel at `(x, y)` is part of a glyph.
pub(crate) fn pixel_filled(rgba: &[u8], w: usize, h: usize, x: usize, y: usize) -> (res: bool)
    requires
        raster(rgba@, w as int, h as int).wf(),
        x < w,
        y < h,
    ensures
        res == raster(rgba@, w as int, h as int).filled((x as int, y as int)),
{
    let ghost img = raster(rgba@, w as int, h as int);
    proof {
        lemma_idx_bounds(img, (x as int, y as int));
        assert(rgba@.len() == rgba.len());
    }
    let i = (y * w + x) * 4;
    !is_pixel_empty(rgba[i], rgba[i + 1], rgba[i + 2], rgba[i + 3])
}

/// A pixel is "empty" if it's fully transparent (alpha=0) OR
/// matches the magenta colour key.
pub fn is_pixel_empty(r: u8, g: u8, b: u8, a: u8) -> (res: bool)
    ensures
        res == spec_pixel_empty(r, g, b, a),
{
    if a == 0 {
        return true;
    }
    let dr = if r >= 255 { r - 255 } else { 255 - r };
    let dg = if g >= 0 { g - 0 } else { 0 - g };
    let db = if b >= 255 { b - 255 } else { 255 - b };
    dr <= 10 && dg <= 10 && db <= 10
}

} // verus!
