//! Marking one region of connected glyph pixels with an explicit stack.
use crate::raster::{
    adjacent, closed, lemma_closed_connected, lemma_connected_filled, lemma_connected_refl,
    lemma_connected_step, lemma_connected_sym, lemma_idx_bounds, lemma_idx_inj, pixel_filled,
    raster, Raster,
};
use vstd::prelude::*;

verus! {

/// The number of unmarked entries.
pub open spec fn count_false(s: Seq<bool>) -> nat
    decreases s.len(),
{
    if s.len() == 0 {
        0
    } else {
        count_false(s.drop_last()) + if s.last() {
            0nat
        } else {
            1nat
        }
    }
}

/// Some stack entry is the pixel `n`.
pub open spec fn stack_has(st: Seq<(usize, usize)>, n: (int, int)) -> bool {
    exists|i: int| 0 <= i < st.len() && #[trigger] st[i].0 == n.0 && st[i].1 == n.1
}

/// A neighbour that still needs attention is marked or waiting on the stack.
pub open spec fn nb_ok(img: Raster, vis: Seq<bool>, st: Seq<(usize, usize)>, n: (int, int)) -> bool {
    !img.filled(n) || vis[img.idx(n)] || stack_has(st, n)
}

/// All four neighbours of `q` are taken care of.
pub open spec fn frontier_ok(
    img: Raster,
    vis: Seq<bool>,
    st: Seq<(usize, usize)>,
    q: (int, int),
) -> bool {
    &&& nb_ok(img, vis, st, (q.0 - 1, q.1))
    &&& nb_ok(img, vis, st, (q.0 + 1, q.1))
    &&& nb_ok(img, vis, st, (q.0, q.1 - 1))
    &&& nb_ok(img, vis, st, (q.0, q.1 + 1))
}

pub proof fn lemma_count_false_update(s: Seq<bool>, i: int)
    requires
        0 <= i < s.len(),
        !s[i],
    ensures
        count_false(s.update(i, true)) + 1 == count_false(s),
    decreases s.len(),
{
    let t = s.update(i, true);
    if i == s.len() - 1 {
        assert(t.drop_last() =~= s.drop_last());
    } else {
        assert(t.drop_last() =~= s.drop_last().update(i, true));
        lemma_count_false_update(s.drop_last(), i);
    }
}

proof fn lemma_stack_has_push(st: Seq<(usize, usize)>, x: (usize, usize), n: (int, int))
    requires
        stack_has(st, n) || (x.0 == n.0 && x.1 == n.1),
    ensures
        stack_has(st.push(x), n),
{
    let st2 = st.push(x);
    if x.0 == n.0 && x.1 == n.1 {
        assert(st2[st.len() as int] == x);
    } else {
        let i = choose|i: int| 0 <= i < st.len() && #[trigger] st[i].0 == n.0 && st[i].1 == n.1;
        assert(st2[i] == st[i]);
    }
}

/// Pushes the neighbours of `(cx, cy)` that lie inside the raster.
fn push_neighbors(stack: &mut Vec<(usize, usize)>, cx: usize, cy: usize, w: usize, h: usize)
    requires
        cx < w,
        cy < h,
    ensures
        old(stack)@.len() <= final(stack)@.len() <= old(stack)@.len() + 4,
        forall|i: int| 0 <= i < old(stack)@.len() ==> #[trigger] final(stack)@[i] == old(stack)@[i],
        forall|i: int|
            old(stack)@.len() <= i < final(stack)@.len() ==> {
                &&& (#[trigger] final(stack)@[i]).0 < w
                &&& final(stack)@[i].1 < h
                &&& adjacent((cx as int, cy as int), (final(stack)@[i].0 as int, final(stack)@[i].1 as int))
            },
        forall|n: (int, int)|
            #[trigger] adjacent((cx as int, cy as int), n) && 0 <= n.0 < w && 0 <= n.1 < h
                ==> stack_has(final(stack)@, n),
{
    let ghost st0 = stack@;
    let ghost c = (cx as int, cy as int);
    if cx > 0 {
        proof { lemma_stack_has_push(stack@, ((cx - 1) as usize, cy), (cx - 1, cy as int)); }
        stack.push((cx - 1, cy));
    }
    let ghost st1 = stack@;
    if cx + 1 < w {
        proof {
            lemma_stack_has_push(stack@, ((cx + 1) as usize, cy), (cx + 1, cy as int));
            if cx > 0 {
                lemma_stack_has_push(stack@, ((cx + 1) as usize, cy), (cx - 1, cy as int));
            }
        }
        stack.push((cx + 1, cy));
    }
    let ghost st2 = stack@;
    if cy > 0 {
        proof {
            lemma_stack_has_push(stack@, (cx, (cy - 1) as usize), (cx as int, cy - 1));
            if cx > 0 {
                lemma_stack_has_push(stack@, (cx, (cy - 1) as usize), (cx - 1, cy as int));
            }
            if cx + 1 < w {
                lemma_stack_has_push(stack@, (cx, (cy - 1) as usize), (cx + 1, cy as int));
            }
        }
        stack.push((cx, cy - 1));
    }
    let ghost st3 = stack@;
    if cy + 1 < h {
        proof {
            lemma_stack_has_push(stack@, (cx, (cy + 1) as usize), (cx as int, cy + 1));
            if cx > 0 {
                lemma_stack_has_push(stack@, (cx, (cy + 1) as usize), (cx - 1, cy as int));
            }
            if cx + 1 < w {
                lemma_stack_has_push(stack@, (cx, (cy + 1) as usize), (cx + 1, cy as int));
            }
            if cy > 0 {
                lemma_stack_has_push(stack@, (cx, (cy + 1) as usize), (cx as int, cy - 1));
            }
        }
        stack.push((cx, cy + 1));
    }
    assert forall|n: (int, int)|
        #[trigger] adjacent(c, n) && 0 <= n.0 < w && 0 <= n.1 < h implies stack_has(stack@, n) by {
        if n == (cx as int, cy + 1) {
        } else if n == (cx as int, cy - 1) {
            if cy + 1 < h {
                lemma_stack_has_push(st3, (cx, (cy + 1) as usize), n);
            }
        } else if n == (cx + 1, cy as int) {
            if cy > 0 {
                lemma_stack_has_push(st2, (cx, (cy - 1) as usize), n);
            }
            if cy + 1 < h {
                lemma_stack_has_push(st3, (cx, (cy + 1) as usize), n);
            }
        } else {
            assert(n == (cx - 1, cy as int));
            if cx + 1 < w {
                lemma_stack_has_push(st1, ((cx + 1) as usize, cy), n);
            }
            if cy > 0 {
                lemma_stack_has_push(st2, (cx, (cy - 1) as usize), n);
            }
            if cy + 1 < h {
                lemma_stack_has_push(st3, (cx, (cy + 1) as usize), n);
            }
        }
    }
}


/// The pixel that the top of a non-empty stack names.
pub open spec fn top_pixel(st: Seq<(usize, usize)>) -> (int, int) {
    (st.last().0 as int, st.last().1 as int)
}

/// A neighbour that was taken care of stays so once the top of the stack has
/// been dealt with, marks only grow and the rest of the stack stays.
proof fn lemma_nb_ok_step(
    img: Raster,
    vis: Seq<bool>,
    st: Seq<(usize, usize)>,
    vis2: Seq<bool>,
    st2: Seq<(usize, usize)>,
    n: (int, int),
)
    requires
        nb_ok(img, vis, st, n),
        st.len() > 0,
        img.filled(top_pixel(st)) ==> vis2[img.idx(top_pixel(st))],
        st2.len() >= st.len() - 1,
        forall|i: int| 0 <= i < st.len() - 1 ==> #[trigger] st2[i] == st[i],
        img.filled(n) && vis[img.idx(n)] ==> vis2[img.idx(n)],
    ensures
        nb_ok(img, vis2, st2, n),
{
    if img.filled(n) && !vis[img.idx(n)] {
        let i = choose|i: int| 0 <= i < st.len() && #[trigger] st[i].0 == n.0 && st[i].1 == n.1;
        if i < st.len() - 1 {
            assert(st2[i] == st[i]);
        } else {
            assert(top_pixel(st) == n);
        }
    }
}

proof fn lemma_frontier_step(
    img: Raster,
    vis: Seq<bool>,
    st: Seq<(usize, usize)>,
    vis2: Seq<bool>,
    st2: Seq<(usize, usize)>,
    q: (int, int),
)
    requires
        frontier_ok(img, vis, st, q),
        st.len() > 0,
        img.filled(top_pixel(st)) ==> vis2[img.idx(top_pixel(st))],
        st2.len() >= st.len() - 1,
        forall|i: int| 0 <= i < st.len() - 1 ==> #[trigger] st2[i] == st[i],
        forall|n: (int, int)|
            img.filled(n) && #[trigger] vis[img.idx(n)] ==> vis2[img.idx(n)],
    ensures
        frontier_ok(img, vis2, st2, q),
{
    let a = (q.0 - 1, q.1);
    let b = (q.0 + 1, q.1);
    let c = (q.0, q.1 - 1);
    let d = (q.0, q.1 + 1);
    if img.filled(a) && vis[img.idx(a)] {
        assert(vis2[img.idx(a)]);
    }
    if img.filled(b) && vis[img.idx(b)] {
        assert(vis2[img.idx(b)]);
    }
    if img.filled(c) && vis[img.idx(c)] {
        assert(vis2[img.idx(c)]);
    }
    if img.filled(d) && vis[img.idx(d)] {
        assert(vis2[img.idx(d)]);
    }
    lemma_nb_ok_step(img, vis, st, vis2, st2, a);
    lemma_nb_ok_step(img, vis, st, vis2, st2, b);
    lemma_nb_ok_step(img, vis, st, vis2, st2, c);
    lemma_nb_ok_step(img, vis, st, vis2, st2, d);
}

/// Marks the 4-connected region of filled pixels that holds the seed
/// `(sx, sy)` and returns its bounding box as `(min_x, max_x, min_y, max_y)`.
pub(crate) fn flood_fill(
    rgba: &[u8],
    w: usize,
    h: usize,
    visited: &mut Vec<bool>,
    sx: usize,
    sy: usize,
) -> (bounds: (usize, usize, usize, usize))
    requires
        raster(rgba@, w as int, h as int).wf(),
        old(visited)@.len() == w * h,
        sx < w,
        sy < h,
        raster(rgba@, w as int, h as int).filled((sx as int, sy as int)),
        !old(visited)@[raster(rgba@, w as int, h as int).idx((sx as int, sy as int))],
        closed(raster(rgba@, w as int, h as int), old(visited)@),
    ensures
        ({
            let img = raster(rgba@, w as int, h as int);
            let s = (sx as int, sy as int);
            &&& final(visited)@.len() == old(visited)@.len()
            &&& forall|q: (int, int)|
                img.inside(q) ==> (#[trigger] final(visited)@[img.idx(q)] == (old(visited)@[img.idx(q)]
                    || img.connected(s, q)))
            &&& closed(img, final(visited)@)
            &&& img.is_min_x(s, bounds.0 as int)
            &&& img.is_max_x(s, bounds.1 as int)
            &&& img.is_min_y(s, bounds.2 as int)
            &&& img.is_max_y(s, bounds.3 as int)
        }),
{
    let ghost img = raster(rgba@, w as int, h as int);
    let ghost v0 = visited@;
    let ghost s = (sx as int, sy as int);
    let mut stack: Vec<(usize, usize)> = Vec::new();
    stack.push((sx, sy));
    let mut min_x = sx;
    let mut max_x = sx;
    let mut min_y = sy;
    let mut max_y = sy;
    let ghost mut wminx = s;
    let ghost mut wmaxx = s;
    let ghost mut wminy = s;
    let ghost mut wmaxy = s;
    proof {
        lemma_connected_refl(img, s);
        assert(stack@[0] == (sx, sy));
    }
    loop
        invariant
            img == raster(rgba@, w as int, h as int),
            img.wf(),
            visited@.len() == w * h,
            v0.len() == w * h,
            sx < w,
            sy < h,
            s == (sx as int, sy as int),
            img.filled(s),
            !v0[img.idx(s)],
            closed(img, v0),
            forall|q: (int, int)|
                img.inside(q) ==> {
                    &&& v0[img.idx(q)] ==> #[trigger] visited@[img.idx(q)]
                    &&& visited@[img.idx(q)] ==> v0[img.idx(q)] || img.connected(s, q)
                    &&& visited@[img.idx(q)] && !v0[img.idx(q)] ==> {
                        &&& frontier_ok(img, visited@, stack@, q)
                        &&& min_x <= q.0 <= max_x
                        &&& min_y <= q.1 <= max_y
                    }
                },
            forall|i: int|
                0 <= i < stack@.len() ==> {
                    &&& (#[trigger] stack@[i]).0 < w
                    &&& stack@[i].1 < h
                    &&& img.filled((stack@[i].0 as int, stack@[i].1 as int)) ==> img.connected(
                        s,
                        (stack@[i].0 as int, stack@[i].1 as int),
                    )
                },
            visited@[img.idx(s)] || stack_has(stack@, s),
            min_x <= sx <= max_x < w,
            min_y <= sy <= max_y < h,
            img.connected(s, wminx) && wminx.0 == min_x,
            img.connected(s, wmaxx) && wmaxx.0 == max_x,
            img.connected(s, wminy) && wminy.1 == min_y,
            img.connected(s, wmaxy) && wmaxy.1 == max_y,
        ensures
            stack@.len() == 0,
        decreases count_false(visited@) * 5 + stack@.len(),
    {
        let ghost vis_before = visited@;
        let ghost st_before = stack@;
        let top = stack.pop();
        match top {
            None => {
                break;
            },
            Some(item) => {
                let (cx, cy) = item;
                let ghost c = (cx as int, cy as int);
                assert(st_before[st_before.len() - 1] == item);
                if cx >= w || cy >= h {
                    continue;
                }
                proof {
                    lemma_idx_bounds(img, c);
                    assert(rgba@.len() == rgba.len());
                }
                let pi = cy * w + cx;
                if visited[pi] {
                    assert forall|q: (int, int)|
                        img.inside(q) && #[trigger] visited@[img.idx(q)] && !v0[img.idx(q)]
                        implies frontier_ok(img, visited@, stack@, q) by {
                        lemma_frontier_step(img, vis_before, st_before, visited@, stack@, q);
                    }
                    proof {
                        if !visited@[img.idx(s)] {
                            lemma_nb_ok_step(img, vis_before, st_before, visited@, stack@, s);
                        }
                    }
                    continue;
                }
                if !pixel_filled(rgba, w, h, cx, cy) {
                    assert forall|q: (int, int)|
                        img.inside(q) && #[trigger] visited@[img.idx(q)] && !v0[img.idx(q)]
                        implies frontier_ok(img, visited@, stack@, q) by {
                        lemma_frontier_step(img, vis_before, st_before, visited@, stack@, q);
                    }
                    proof {
                        if !visited@[img.idx(s)] {
                            lemma_nb_ok_step(img, vis_before, st_before, visited@, stack@, s);
                        }
                    }
                    continue;
                }
                // `c` is a filled pixel of the region that was not marked yet.
                assert(img.connected(s, c));
                visited.set(pi, true);
                proof {
                    lemma_count_false_update(vis_before, pi as int);
                }
                if cx < min_x {
                    min_x = cx;
                    proof { wminx = c; }
                }
                if cx > max_x {
                    max_x = cx;
                    proof { wmaxx = c; }
                }
                if cy < min_y {
                    min_y = cy;
                    proof { wminy = c; }
                }
                if cy > max_y {
                    max_y = cy;
                    proof { wmaxy = c; }
                }
                let ghost st_popped = stack@;
                push_neighbors(&mut stack, cx, cy, w, h);
                proof {
                    assert forall|q: (int, int)| img.inside(q) implies (
                        #[trigger] visited@[img.idx(q)] == (vis_before[img.idx(q)] || q == c)) by {
                        lemma_idx_bounds(img, q);
                        assert(img.idx(c) == pi as int);
                        if q != c {
                            if img.idx(q) == img.idx(c) {
                                lemma_idx_inj(img, q, c);
                            }
                        }
                    }
                    assert forall|n: (int, int)|
                        img.filled(n) && #[trigger] vis_before[img.idx(n)] implies visited@[img.idx(n)] by {
                        assert(img.inside(n));
                    }
                    assert forall|q: (int, int)|
                        img.inside(q) && #[trigger] visited@[img.idx(q)] && !v0[img.idx(q)]
                        implies frontier_ok(img, visited@, stack@, q) by {
                        if q == c {
                            let a = (q.0 - 1, q.1);
                            let b = (q.0 + 1, q.1);
                            let cc = (q.0, q.1 - 1);
                            let d = (q.0, q.1 + 1);
                            assert(adjacent(c, a));
                            assert(adjacent(c, b));
                            assert(adjacent(c, cc));
                            assert(adjacent(c, d));
                        } else {
                            lemma_frontier_step(img, vis_before, st_before, visited@, stack@, q);
                        }
                    }
                    assert forall|i: int| 0 <= i < stack@.len() implies {
                        &&& (#[trigger] stack@[i]).0 < w
                        &&& stack@[i].1 < h
                        &&& img.filled((stack@[i].0 as int, stack@[i].1 as int)) ==> img.connected(
                            s,
                            (stack@[i].0 as int, stack@[i].1 as int),
                        )
                    } by {
                        if i < st_popped.len() {
                            assert(stack@[i] == st_before[i]);
                        } else {
                            let n = (stack@[i].0 as int, stack@[i].1 as int);
                            if img.filled(n) {
                                lemma_connected_step(img, s, c, n);
                            }
                        }
                    }
                    if !visited@[img.idx(s)] {
                        lemma_nb_ok_step(img, vis_before, st_before, visited@, stack@, s);
                    }
                }
            },
        }
    }
    // The stack is empty: the marked set is closed again.
    proof {
        let v1 = visited@;
        assert forall|q: (int, int), n: (int, int)|
            #![trigger adjacent(q, n), v1[img.idx(q)], v1[img.idx(n)]]
            img.inside(q) && v1[img.idx(q)] && adjacent(q, n) && img.filled(n)
            implies v1[img.idx(n)] by {
            if v0[img.idx(q)] {
                assert(v0[img.idx(n)]);
            } else {
                assert(frontier_ok(img, v1, stack@, q));
                if n == (q.0 - 1, q.1) {
                } else if n == (q.0 + 1, q.1) {
                } else if n == (q.0, q.1 - 1) {
                } else {
                }
            }
        }
        assert(closed(img, v1));
        assert(v1[img.idx(s)]);
        assert forall|q: (int, int)| img.connected(s, q) implies v1[img.idx(q)] && !v0[img.idx(q)] by {
            lemma_closed_connected(img, v1, s, q);
            if v0[img.idx(q)] {
                lemma_connected_sym(img, s, q);
                lemma_closed_connected(img, v0, q, s);
            }
            lemma_connected_filled(img, s, q);
        }
        assert forall|q: (int, int)|
            img.inside(q) implies (#[trigger] v1[img.idx(q)] == (v0[img.idx(q)] || img.connected(s, q))) by {
            if img.connected(s, q) {
                assert(v1[img.idx(q)]);
            }
        }
        assert forall|q: (int, int)| #[trigger] img.connected(s, q) implies min_x <= q.0 <= max_x
            && min_y <= q.1 <= max_y by {
            assert(v1[img.idx(q)] && !v0[img.idx(q)]);
            lemma_connected_filled(img, s, q);
        }
    }
    (min_x, max_x, min_y, max_y)
}

} // verus!
