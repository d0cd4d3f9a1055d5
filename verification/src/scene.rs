//! The frame renderer: per-frame depth-buffer reset and the triangle
//! rasterization loop, plus the scene's frame-timing bookkeeping.

use std::time::{Duration, Instant};

use crate::aabb::{aabb_of_spec, floor_px, floor_to_pixel, lemma_pixel_floor, AABB};
use crate::triangle::{shade_pixel, shade_spec, ProjectedTriangle};
use crate::{DEPTH_INF, LIT_COLOR, MAX_DIM, SCALE};
use vstd::arithmetic::div_mod::{lemma_fundamental_div_mod, lemma_fundamental_div_mod_converse};
use vstd::prelude::*;

verus! {

#[verifier::external_type_specification]
#[verifier::external_body]
pub struct ExInstant(Instant);

/// Relies on std::time::Instant::now: a reading of the monotonic clock.
/// Nothing is assumed of the value read.
pub assume_specification[ Instant::now ]() -> Instant;

/// Relies on std::time::Instant::saturating_duration_since: the elapsed
/// time from `earlier` to `this`, zero if `earlier` is the later of the
/// two. Nothing is assumed of the value; the call never panics.
pub assume_specification[ Instant::saturating_duration_since ](
    this: &Instant,
    earlier: Instant,
) -> Duration;

/// The screen box `[0, width) x [0, height)` in fixed-point coordinates.
pub open spec fn viewport_spec(width: int, height: int) -> AABB {
    AABB {
        min_x: 0,
        max_x: (width * SCALE) as i64,
        min_y: 0,
        max_y: (height * SCALE) as i64,
    }
}

/// Whether rasterizing triangle `t` writes buffer index `i`, given the
/// depth-buffer entry `cur` at that index: the triangle's bounding box
/// clipped to the viewport must enumerate the pixel, and the per-pixel
/// coverage and depth tests must pass.
pub open spec fn tri_writes(
    t: ProjectedTriangle,
    width: int,
    height: int,
    i: int,
    cur: int,
) -> bool {
    let px = i % width;
    let py = i / width;
    let ta = aabb_of_spec(t.tri);
    let vp = viewport_spec(width, height);
    let cb = ta.intersection_spec(vp);
    &&& ta.intersects_spec(vp)
    &&& cb.covers_pixel(px, py)
    &&& shade_spec(t, px * SCALE, py * SCALE, cur) is Some
}

/// The depth a write at buffer index `i` stores.
pub open spec fn write_depth(t: ProjectedTriangle, width: int, i: int) -> int {
    t.depth_spec((i % width) * SCALE, (i / width) * SCALE)
}

/// One triangle's effect on the depth buffer.
pub open spec fn step_depth(d: Seq<i64>, t: ProjectedTriangle, width: int, height: int) -> Seq<
    i64,
> {
    Seq::new(
        d.len(),
        |i: int|
            if tri_writes(t, width, height, i, d[i] as int) {
                write_depth(t, width, i) as i64
            } else {
                d[i]
            },
    )
}

/// One triangle's effect on the color buffer, given the depth buffer as it
/// stood before that triangle.
pub open spec fn step_color(
    d: Seq<i64>,
    c: Seq<u32>,
    t: ProjectedTriangle,
    width: int,
    height: int,
) -> Seq<u32> {
    Seq::new(
        c.len(),
        |i: int|
            if tri_writes(t, width, height, i, d[i] as int) {
                LIT_COLOR
            } else {
                c[i]
            },
    )
}

/// The depth buffer after the first `n` triangles, starting from a buffer
/// reset to `DEPTH_INF` everywhere.
pub open spec fn depth_after(
    tris: Seq<ProjectedTriangle>,
    n: int,
    width: int,
    height: int,
) -> Seq<i64>
    decreases n,
{
    if n <= 0 {
        Seq::new((width * height) as nat, |i: int| DEPTH_INF)
    } else {
        step_depth(depth_after(tris, n - 1, width, height), tris[n - 1], width, height)
    }
}

/// The color buffer after the first `n` triangles, starting from the
/// externally owned contents `c0`.
pub open spec fn color_after(
    c0: Seq<u32>,
    tris: Seq<ProjectedTriangle>,
    n: int,
    width: int,
    height: int,
) -> Seq<u32>
    decreases n,
{
    if n <= 0 {
        c0
    } else {
        step_color(
            depth_after(tris, n - 1, width, height),
            color_after(c0, tris, n - 1, width, height),
            tris[n - 1],
            width,
            height,
        )
    }
}

/// A triangle with zero doubled signed area (collinear vertices) is
/// skipped: it changes neither the depth buffer nor the color buffer.
pub proof fn lemma_degenerate_triangle_writes_nothing(
    d: Seq<i64>,
    c: Seq<u32>,
    t: ProjectedTriangle,
    width: int,
    height: int,
)
    requires
        t.tri.wd_spec() == 0,
    ensures
        step_depth(d, t, width, height) == d,
        step_color(d, c, t, width, height) == c,
{
    assert forall|i: int, cur: int| !(#[trigger] tri_writes(t, width, height, i, cur)) by {
        assert(!t.tri.covered_spec((i % width) * SCALE, (i / width) * SCALE));
    }
    assert(step_depth(d, t, width, height) =~= d);
    assert(step_color(d, c, t, width, height) =~= c);
}

/// Depth-buffer entries only ever decrease within a frame.
pub proof fn lemma_depth_only_decreases(
    d: Seq<i64>,
    t: ProjectedTriangle,
    width: int,
    height: int,
    i: int,
)
    requires
        0 <= i < d.len(),
    ensures
        step_depth(d, t, width, height)[i] <= d[i],
{
}

/// A depth-buffer entry that changes takes a value strictly inside the
/// visible range `(0, SCALE)` — an interpolated depth of exactly zero,
/// exactly one, or outside the range is never stored.
pub proof fn lemma_written_depth_visible(
    d: Seq<i64>,
    t: ProjectedTriangle,
    width: int,
    height: int,
    i: int,
)
    requires
        0 <= i < d.len(),
        step_depth(d, t, width, height)[i] != d[i],
    ensures
        0 < step_depth(d, t, width, height)[i] < SCALE,
        step_depth(d, t, width, height)[i] < d[i],
{
}

/// Two triangles yield the same buffers in either submission order: the
/// depth test is a strict nearest-wins minimum re-evaluated per pixel, so
/// the nearer depth ends up stored either way, and a depth tie leaves the
/// same stored depth and the same fill value whichever triangle came
/// first.
pub proof fn lemma_two_triangles_commute(
    c0: Seq<u32>,
    t1: ProjectedTriangle,
    t2: ProjectedTriangle,
    width: int,
    height: int,
)
    requires
        c0.len() == width * height,
    ensures
        depth_after(seq![t1, t2], 2, width, height) == depth_after(seq![t2, t1], 2, width, height),
        color_after(c0, seq![t1, t2], 2, width, height) == color_after(
            c0,
            seq![t2, t1],
            2,
            width,
            height,
        ),
{
    let a = seq![t1, t2];
    let b = seq![t2, t1];
    let base = Seq::new((width * height) as nat, |i: int| DEPTH_INF);
    assert(depth_after(a, 0, width, height) == base);
    assert(depth_after(b, 0, width, height) == base);
    let d1a = step_depth(base, t1, width, height);
    let d1b = step_depth(base, t2, width, height);
    assert(depth_after(a, 1, width, height) == d1a);
    assert(depth_after(b, 1, width, height) == d1b);
    let inf = DEPTH_INF as int;
    assert forall|i: int| 0 <= i < width * height implies #[trigger] depth_after(
        a,
        2,
        width,
        height,
    )[i] == depth_after(b, 2, width, height)[i] by {
        let p1 = write_depth(t1, width, i);
        let p2 = write_depth(t2, width, i);
        assert(base[i] == DEPTH_INF);
        lemma_writes_decompose(t1, width, height, i, inf);
        lemma_writes_decompose(t2, width, height, i, inf);
        assert(d1a[i] == if tri_writes(t1, width, height, i, inf) {
            p1 as i64
        } else {
            DEPTH_INF
        });
        assert(d1b[i] == if tri_writes(t2, width, height, i, inf) {
            p2 as i64
        } else {
            DEPTH_INF
        });
        assert(depth_after(a, 2, width, height)[i] == if tri_writes(
            t2,
            width,
            height,
            i,
            d1a[i] as int,
        ) {
            p2 as i64
        } else {
            d1a[i]
        });
        assert(depth_after(b, 2, width, height)[i] == if tri_writes(
            t1,
            width,
            height,
            i,
            d1b[i] as int,
        ) {
            p1 as i64
        } else {
            d1b[i]
        });
        lemma_writes_decompose(t2, width, height, i, d1a[i] as int);
        lemma_writes_decompose(t1, width, height, i, d1b[i] as int);
    }
    assert(depth_after(a, 2, width, height) =~= depth_after(b, 2, width, height));
    let c1a = step_color(base, c0, t1, width, height);
    let c1b = step_color(base, c0, t2, width, height);
    assert(color_after(c0, a, 0, width, height) == c0);
    assert(color_after(c0, b, 0, width, height) == c0);
    assert(color_after(c0, a, 1, width, height) == c1a);
    assert(color_after(c0, b, 1, width, height) == c1b);
    assert forall|i: int| 0 <= i < width * height implies #[trigger] color_after(
        c0,
        a,
        2,
        width,
        height,
    )[i] == color_after(c0, b, 2, width, height)[i] by {
        let p1 = write_depth(t1, width, i);
        let p2 = write_depth(t2, width, i);
        assert(base[i] == DEPTH_INF);
        lemma_writes_decompose(t1, width, height, i, inf);
        lemma_writes_decompose(t2, width, height, i, inf);
        assert(d1a[i] == if tri_writes(t1, width, height, i, inf) {
            p1 as i64
        } else {
            DEPTH_INF
        });
        assert(d1b[i] == if tri_writes(t2, width, height, i, inf) {
            p2 as i64
        } else {
            DEPTH_INF
        });
        assert(c1a[i] == if tri_writes(t1, width, height, i, inf) {
            LIT_COLOR
        } else {
            c0[i]
        });
        assert(c1b[i] == if tri_writes(t2, width, height, i, inf) {
            LIT_COLOR
        } else {
            c0[i]
        });
        assert(color_after(c0, a, 2, width, height)[i] == if tri_writes(
            t2,
            width,
            height,
            i,
            d1a[i] as int,
        ) {
            LIT_COLOR
        } else {
            c1a[i]
        });
        assert(color_after(c0, b, 2, width, height)[i] == if tri_writes(
            t1,
            width,
            height,
            i,
            d1b[i] as int,
        ) {
            LIT_COLOR
        } else {
            c1b[i]
        });
        lemma_writes_decompose(t2, width, height, i, d1a[i] as int);
        lemma_writes_decompose(t1, width, height, i, d1b[i] as int);
    }
    assert(color_after(c0, a, 2, width, height) =~= color_after(c0, b, 2, width, height));
}

/// A triangle writes a pixel exactly when it would write it over a reset
/// depth entry and its interpolated depth beats the current entry; any
/// written depth lies strictly inside the visible range.
pub proof fn lemma_writes_decompose(
    t: ProjectedTriangle,
    width: int,
    height: int,
    i: int,
    cur: int,
)
    ensures
        tri_writes(t, width, height, i, cur) <==> (tri_writes(t, width, height, i, DEPTH_INF as int)
            && write_depth(t, width, i) < cur),
        tri_writes(t, width, height, i, DEPTH_INF as int) ==> 0 < write_depth(t, width, i) < SCALE,
{
}

/// The renderer's per-frame state: the viewport dimensions and the moment
/// the previous frame update ran.
pub struct Scene {
    pub width: u32,
    pub height: u32,
    pub prev_update_time: Instant,
}

impl Scene {
    pub fn new(screen_width: u32, screen_height: u32) -> (r: Self)
        ensures
            r.width == screen_width,
            r.height == screen_height,
    {
        Scene { width: screen_width, height: screen_height, prev_update_time: Instant::now() }
    }

    /// Time elapsed since the previous call (or since construction), read
    /// from the monotonic clock; the stored instant moves to now. The
    /// value depends on the clock, so nothing is stated of it.
    pub fn update_delta_time(&mut self) -> Duration {
        let now = Instant::now();
        let prev = self.prev_update_time;
        self.prev_update_time = now;
        now.saturating_duration_since(prev)
    }

    /// Rasterize `tris`, in order, into the color buffer `buffer` and the
    /// depth buffer `depth_buffer` for a `width x height` viewport. The
    /// depth buffer is reset to `DEPTH_INF` first; the color buffer keeps
    /// its previous contents wherever no triangle wins the depth test.
    /// The final buffers are exactly the fold of the per-triangle,
    /// per-pixel specification over the triangle list.
    pub fn render(
        &mut self,
        tris: &Vec<ProjectedTriangle>,
        buffer: &mut Vec<u32>,
        depth_buffer: &mut Vec<i64>,
        width: u32,
        height: u32,
    )
        requires
            width <= MAX_DIM,
            height <= MAX_DIM,
            old(buffer)@.len() == width * height,
            forall|k: int| 0 <= k < tris@.len() ==> (#[trigger] tris@[k]).wf(),
        ensures
            final(self).width == width,
            final(self).height == height,
            final(self).prev_update_time == old(self).prev_update_time,
            final(depth_buffer)@ == depth_after(
                tris@,
                tris@.len() as int,
                width as int,
                height as int,
            ),
            final(buffer)@ == color_after(
                old(buffer)@,
                tris@,
                tris@.len() as int,
                width as int,
                height as int,
            ),
    {
        let ghost w = width as int;
        let ghost h = height as int;
        let ghost c0 = buffer@;
        self.width = width;
        self.height = height;
        proof {
            assert((width as int) * (height as int) <= 0x4000_0000) by (nonlinear_arith)
                requires
                    0 <= width as int,
                    (width as int) <= 32768,
                    0 <= height as int,
                    (height as int) <= 32768,
            ;
        }
        let total: usize = (width as usize) * (height as usize);
        reset_depth_buffer(depth_buffer, total);
        proof {
            assert(depth_buffer@ =~= depth_after(tris@, 0, w, h));
            assert(buffer@ =~= color_after(c0, tris@, 0, w, h));
        }
        let vp = AABB::new(0, (width as i64) * SCALE, 0, (height as i64) * SCALE);
        assert(vp == viewport_spec(w, h));
        let mut k: usize = 0;
        while k < tris.len()
            invariant
                0 <= k <= tris@.len(),
                width <= MAX_DIM,
                height <= MAX_DIM,
                w == width as int,
                h == height as int,
                vp == viewport_spec(w, h),
                forall|j: int| 0 <= j < tris@.len() ==> (#[trigger] tris@[j]).wf(),
                depth_buffer@ == depth_after(tris@, k as int, w, h),
                buffer@ == color_after(c0, tris@, k as int, w, h),
                c0.len() == w * h,
            decreases tris@.len() - k,
        {
            let t = tris[k];
            let ghost d_pre = depth_buffer@;
            let ghost c_pre = buffer@;
            proof {
                lemma_state_lens(c0, tris@, k as int, w, h);
            }
            let wd = crate::triangle::wd_of(&t.tri);
            if wd != 0 {
                let ta = AABB::from_triangle(&t.tri);
                proof {
                    crate::aabb::lemma_triangle_aabb_wf(t.tri);
                }
                match ta.intersection(&vp) {
                    Some(cb) => {
                        if cb.max_x - cb.min_x >= SCALE && cb.max_y - cb.min_y >= SCALE {
                            rasterize_clipped(&t, cb, buffer, depth_buffer, width, height);
                            proof {
                                assert(depth_buffer@ == step_depth(d_pre, t, w, h));
                                assert(buffer@ == step_color(d_pre, c_pre, t, w, h));
                            }
                        } else {
                            proof {
                                lemma_small_clip_writes_nothing(d_pre, c_pre, t, w, h);
                            }
                        }
                    },
                    None => {
                        proof {
                            lemma_offscreen_triangle_writes_nothing(d_pre, c_pre, t, w, h);
                        }
                    },
                }
            } else {
                proof {
                    lemma_degenerate_triangle_writes_nothing(d_pre, c_pre, t, w, h);
                }
            }
            k = k + 1;
            proof {
                assert(depth_buffer@ == depth_after(tris@, k as int, w, h));
                assert(buffer@ == color_after(c0, tris@, k as int, w, h));
            }
        }
    }
}

/// A triangle whose bounding box misses the viewport entirely is skipped.
pub proof fn lemma_offscreen_triangle_writes_nothing(
    d: Seq<i64>,
    c: Seq<u32>,
    t: ProjectedTriangle,
    width: int,
    height: int,
)
    requires
        !aabb_of_spec(t.tri).intersects_spec(viewport_spec(width, height)),
    ensures
        step_depth(d, t, width, height) == d,
        step_color(d, c, t, width, height) == c,
{
    assert(step_depth(d, t, width, height) =~= d);
    assert(step_color(d, c, t, width, height) =~= c);
}

/// A clipped box spanning less than one pixel on either axis enumerates no
/// pixels, so the triangle is skipped.
pub proof fn lemma_small_clip_writes_nothing(
    d: Seq<i64>,
    c: Seq<u32>,
    t: ProjectedTriangle,
    width: int,
    height: int,
)
    requires
        aabb_of_spec(t.tri).intersection_spec(viewport_spec(width, height)).small(),
    ensures
        step_depth(d, t, width, height) == d,
        step_color(d, c, t, width, height) == c,
{
    assert(step_depth(d, t, width, height) =~= d);
    assert(step_color(d, c, t, width, height) =~= c);
}

/// The two render state sequences keep the viewport's length.
proof fn lemma_state_lens(
    c0: Seq<u32>,
    tris: Seq<ProjectedTriangle>,
    n: int,
    width: int,
    height: int,
)
    requires
        n >= 0,
    ensures
        depth_after(tris, n, width, height).len() == (width * height) as nat,
        color_after(c0, tris, n, width, height).len() == c0.len(),
    decreases n,
{
    if n > 0 {
        lemma_state_lens(c0, tris, n - 1, width, height);
    }
}

/// Reset the depth buffer to `DEPTH_INF` for `total` pixels.
fn reset_depth_buffer(depth_buffer: &mut Vec<i64>, total: usize)
    ensures
        final(depth_buffer)@ == Seq::new(total as nat, |i: int| DEPTH_INF),
{
    depth_buffer.clear();
    while depth_buffer.len() < total
        invariant
            depth_buffer@.len() <= total,
            forall|i: int| 0 <= i < depth_buffer@.len() ==> depth_buffer@[i] == DEPTH_INF,
        decreases total - depth_buffer@.len(),
    {
        depth_buffer.push(DEPTH_INF);
    }
    proof {
        assert(depth_buffer@ =~= Seq::new(total as nat, |i: int| DEPTH_INF));
    }
}

/// Whether the scan has already visited pixel `(qx, qy)` when it stands at
/// row `py`, column `px` (row-major order).
pub open spec fn pixel_processed(cb: AABB, qx: int, qy: int, py: int, px: int) -> bool {
    cb.covers_pixel(qx, qy) && (qy < py || (qy == py && qx < px))
}

/// What the pixel scan guarantees of buffer index `i` while it stands at
/// row `py`, column `px`: visited pixels that passed every test carry the
/// written depth and the fill color, all other indices are untouched.
pub open spec fn scan_inv_at(
    d0: Seq<i64>,
    c0: Seq<u32>,
    d: Seq<i64>,
    c: Seq<u32>,
    t: ProjectedTriangle,
    w: int,
    cb: AABB,
    py: int,
    px: int,
    i: int,
) -> bool {
    if pixel_processed(cb, i % w, i / w, py, px) && shade_spec(
        t,
        (i % w) * SCALE,
        (i / w) * SCALE,
        d0[i] as int,
    ) is Some {
        d[i] == write_depth(t, w, i) as i64 && c[i] == LIT_COLOR
    } else {
        d[i] == d0[i] && c[i] == c0[i]
    }
}

/// The pixel scan's whole-buffer invariant at scan position `(py, px)`.
pub open spec fn scan_inv(
    d0: Seq<i64>,
    c0: Seq<u32>,
    d: Seq<i64>,
    c: Seq<u32>,
    t: ProjectedTriangle,
    w: int,
    h: int,
    cb: AABB,
    py: int,
    px: int,
) -> bool {
    &&& d0.len() == w * h
    &&& c0.len() == w * h
    &&& d.len() == w * h
    &&& c.len() == w * h
    &&& forall|i: int|
        0 <= i < w * h ==> #[trigger] scan_inv_at(d0, c0, d, c, t, w, cb, py, px, i)
}

/// Before any pixel is visited the buffers are untouched.
proof fn lemma_scan_start(
    d0: Seq<i64>,
    c0: Seq<u32>,
    t: ProjectedTriangle,
    w: int,
    h: int,
    cb: AABB,
)
    requires
        d0.len() == w * h,
        c0.len() == w * h,
    ensures
        scan_inv(
            d0,
            c0,
            d0,
            c0,
            t,
            w,
            h,
            cb,
            floor_px(cb.min_y as int),
            floor_px(cb.min_x as int),
        ),
{
    let fy = floor_px(cb.min_y as int);
    let fx = floor_px(cb.min_x as int);
    assert forall|i: int| 0 <= i < w * h implies #[trigger] scan_inv_at(
        d0,
        c0,
        d0,
        c0,
        t,
        w,
        cb,
        fy,
        fx,
        i,
    ) by {
        assert(!pixel_processed(cb, i % w, i / w, fy, fx));
    }
}

/// Visiting one pixel preserves the scan invariant, whatever the per-pixel
/// decision was.
proof fn lemma_pixel_advance(
    d0: Seq<i64>,
    c0: Seq<u32>,
    d: Seq<i64>,
    c: Seq<u32>,
    d2: Seq<i64>,
    c2: Seq<u32>,
    t: ProjectedTriangle,
    w: int,
    h: int,
    cb: AABB,
    py: int,
    px: int,
    idx: int,
)
    requires
        scan_inv(d0, c0, d, c, t, w, h, cb, py, px),
        0 <= px < w,
        0 <= py < h,
        idx == py * w + px,
        cb.covers_pixel(px, py),
        shade_spec(t, px * SCALE, py * SCALE, d0[idx] as int) is Some ==> d2 == d.update(
            idx,
            write_depth(t, w, idx) as i64,
        ) && c2 == c.update(idx, LIT_COLOR),
        shade_spec(t, px * SCALE, py * SCALE, d0[idx] as int) is None ==> d2 == d && c2 == c,
    ensures
        scan_inv(d0, c0, d2, c2, t, w, h, cb, py, px + 1),
{
    assert(0 <= idx < w * h) by (nonlinear_arith)
        requires
            idx == py * w + px,
            0 <= px < w,
            0 <= py < h,
    ;
    lemma_fundamental_div_mod_converse(idx, w, py, px);
    assert forall|i: int| 0 <= i < w * h implies #[trigger] scan_inv_at(
        d0,
        c0,
        d2,
        c2,
        t,
        w,
        cb,
        py,
        px + 1,
        i,
    ) by {
        assert(scan_inv_at(d0, c0, d, c, t, w, cb, py, px, i));
        lemma_fundamental_div_mod(i, w);
        if i != idx {
            if i % w == px && i / w == py {
                assert(i == idx) by (nonlinear_arith)
                    requires
                        i == w * (i / w) + i % w,
                        i % w == px,
                        i / w == py,
                        idx == py * w + px,
                ;
            }
        }
    }
}

/// Finishing a row moves the scan to the start of the next row without
/// changing which pixels count as visited.
proof fn lemma_row_advance(
    d0: Seq<i64>,
    c0: Seq<u32>,
    d: Seq<i64>,
    c: Seq<u32>,
    t: ProjectedTriangle,
    w: int,
    h: int,
    cb: AABB,
    py: int,
    px: int,
)
    requires
        scan_inv(d0, c0, d, c, t, w, h, cb, py, px),
        px * SCALE >= cb.max_x,
    ensures
        scan_inv(d0, c0, d, c, t, w, h, cb, py + 1, floor_px(cb.min_x as int)),
{
    assert forall|i: int| 0 <= i < w * h implies #[trigger] scan_inv_at(
        d0,
        c0,
        d,
        c,
        t,
        w,
        cb,
        py + 1,
        floor_px(cb.min_x as int),
        i,
    ) by {
        assert(scan_inv_at(d0, c0, d, c, t, w, cb, py, px, i));
        let qx = i % w;
        let qy = i / w;
        if cb.covers_pixel(qx, qy) && qy == py {
            assert(qx * SCALE < cb.max_x);
            assert(qx < px);
        }
    }
}

/// Once the scan has passed the last row, the buffers are exactly the
/// per-triangle specification applied to the pre-triangle state.
proof fn lemma_scan_complete(
    d0: Seq<i64>,
    c0: Seq<u32>,
    d: Seq<i64>,
    c: Seq<u32>,
    t: ProjectedTriangle,
    w: int,
    h: int,
    cb: AABB,
    py: int,
    px: int,
)
    requires
        scan_inv(d0, c0, d, c, t, w, h, cb, py, px),
        py * SCALE >= cb.max_y,
        aabb_of_spec(t.tri).intersects_spec(viewport_spec(w, h)),
        cb == aabb_of_spec(t.tri).intersection_spec(viewport_spec(w, h)),
    ensures
        d == step_depth(d0, t, w, h),
        c == step_color(d0, c0, t, w, h),
{
    assert forall|i: int| 0 <= i < w * h implies #[trigger] d[i] == step_depth(d0, t, w, h)[i] by {
        assert(scan_inv_at(d0, c0, d, c, t, w, cb, py, px, i));
        let qx = i % w;
        let qy = i / w;
        if cb.covers_pixel(qx, qy) {
            assert(qy * SCALE < cb.max_y);
            assert(qy < py);
            assert(pixel_processed(cb, qx, qy, py, px));
        }
    }
    assert forall|i: int| 0 <= i < w * h implies #[trigger] c[i] == step_color(d0, c0, t, w, h)[i]
        by {
        assert(scan_inv_at(d0, c0, d, c, t, w, cb, py, px, i));
        let qx = i % w;
        let qy = i / w;
        if cb.covers_pixel(qx, qy) {
            assert(qy * SCALE < cb.max_y);
            assert(qy < py);
            assert(pixel_processed(cb, qx, qy, py, px));
        }
    }
    assert(d =~= step_depth(d0, t, w, h));
    assert(c =~= step_color(d0, c0, t, w, h));
}

/// Rasterize one non-degenerate triangle over its clipped, at-least-a-pixel
/// bounding box `cb`: the two-level pixel scan with per-pixel coverage and
/// depth tests.
#[verifier::loop_isolation(false)]
fn rasterize_clipped(
    t: &ProjectedTriangle,
    cb: AABB,
    buffer: &mut Vec<u32>,
    depth_buffer: &mut Vec<i64>,
    width: u32,
    height: u32,
)
    requires
        t.wf(),
        width <= MAX_DIM,
        height <= MAX_DIM,
        aabb_of_spec(t.tri).intersects_spec(viewport_spec(width as int, height as int)),
        cb == aabb_of_spec(t.tri).intersection_spec(viewport_spec(width as int, height as int)),
        cb.max_x - cb.min_x >= SCALE,
        cb.max_y - cb.min_y >= SCALE,
        old(buffer)@.len() == width * height,
        old(depth_buffer)@.len() == width * height,
    ensures
        final(depth_buffer)@ == step_depth(old(depth_buffer)@, *t, width as int, height as int),
        final(buffer)@ == step_color(
            old(depth_buffer)@,
            old(buffer)@,
            *t,
            width as int,
            height as int,
        ),
{
    let ghost w = width as int;
    let ghost h = height as int;
    let ghost d0 = depth_buffer@;
    let ghost cc0 = buffer@;
    proof {
        crate::aabb::lemma_triangle_aabb_wf(t.tri);
        assert(viewport_spec(w, h).in_bounds());
        assert(cb.in_bounds());
        assert(cb.min_x >= 0 && cb.min_y >= 0);
        assert(cb.max_x <= width * SCALE && cb.max_y <= height * SCALE);
        lemma_pixel_floor(cb.min_x as int);
        lemma_pixel_floor(cb.min_y as int);
        lemma_scan_start(d0, cc0, *t, w, h, cb);
    }
    let fx = floor_to_pixel(cb.min_x);
    let mut py = floor_to_pixel(cb.min_y);
    let ghost fyi = floor_px(cb.min_y as int);
    while py * SCALE < cb.max_y
        invariant
            fyi <= py,
            py * SCALE < cb.max_y + SCALE,
            scan_inv(d0, cc0, depth_buffer@, buffer@, *t, w, h, cb, py as int, fx as int),
        decreases cb.max_y + SCALE - py * SCALE,
    {
        proof {
            assert(py < height) by {
                assert(py * SCALE < cb.max_y);
                assert(cb.max_y <= height * SCALE);
            }
        }
        let mut px = fx;
        while px * SCALE < cb.max_x
            invariant
                fx as int <= px,
                px * SCALE < cb.max_x + SCALE,
                py * SCALE < cb.max_y,
                scan_inv(d0, cc0, depth_buffer@, buffer@, *t, w, h, cb, py as int, px as int),
            decreases cb.max_x + SCALE - px * SCALE,
        {
            proof {
                assert(px >= 0 && px < width) by {
                    assert(fx as int >= 0);
                    assert(px * SCALE < cb.max_x);
                    assert(cb.max_x <= width * SCALE);
                }
                assert(py >= 0);
                assert((py as int) * (width as int) < 0x4000_0000) by (nonlinear_arith)
                    requires
                        0 <= py as int,
                        (py as int) < (height as int),
                        0 <= width as int,
                        (width as int) <= 32768,
                        (height as int) <= 32768,
                ;
            }
            let idx: usize = (py as usize) * (width as usize) + (px as usize);
            let ghost pxi = px as int;
            let ghost pyi = py as int;
            proof {
                lemma_fundamental_div_mod_converse(idx as int, w, pyi, pxi);
                assert(idx < w * h) by (nonlinear_arith)
                    requires
                        idx as int == pyi * w + pxi,
                        0 <= pxi < w,
                        0 <= pyi < h,
                ;
                assert(scan_inv_at(
                    d0,
                    cc0,
                    depth_buffer@,
                    buffer@,
                    *t,
                    w,
                    cb,
                    pyi,
                    pxi,
                    idx as int,
                ));
            }
            let ghost d_before = depth_buffer@;
            let ghost c_before = buffer@;
            let cur = depth_buffer[idx];
            assert(cur == d0[idx as int]);
            let sx = px * SCALE;
            let sy = py * SCALE;
            match shade_pixel(t, sx, sy, cur) {
                Some(pz) => {
                    depth_buffer[idx] = pz;
                    buffer[idx] = LIT_COLOR;
                    proof {
                        assert(depth_buffer@ == d_before.update(
                            idx as int,
                            write_depth(*t, w, idx as int) as i64,
                        ));
                        assert(buffer@ == c_before.update(idx as int, LIT_COLOR));
                    }
                },
                None => {},
            }
            px = px + 1;
            proof {
                lemma_pixel_advance(
                    d0,
                    cc0,
                    d_before,
                    c_before,
                    depth_buffer@,
                    buffer@,
                    *t,
                    w,
                    h,
                    cb,
                    pyi,
                    pxi,
                    idx as int,
                );
            }
        }
        let ghost py_old = py as int;
        py = py + 1;
        proof {
            lemma_row_advance(
                d0,
                cc0,
                depth_buffer@,
                buffer@,
                *t,
                w,
                h,
                cb,
                py_old,
                px as int,
            );
        }
    }
    proof {
        lemma_scan_complete(
            d0,
            cc0,
            depth_buffer@,
            buffer@,
            *t,
            w,
            h,
            cb,
            py as int,
            fx as int,
        );
    }
}

} // verus!
