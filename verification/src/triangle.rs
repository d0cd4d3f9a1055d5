//! Screen-space triangles and the per-pixel rasterization decision:
//! barycentric coverage, depth interpolation and the depth test, all in
//! exact fixed-point arithmetic.

use crate::{COORD_LIMIT, SCALE};
use vstd::arithmetic::div_mod::lemma_fundamental_div_mod;
use vstd::prelude::*;

verus! {

/// A 2D point in fixed-point screen coordinates (`SCALE` units per pixel).
#[derive(Clone, Copy, PartialEq, Eq, Structural, Debug)]
pub struct Vec2Fix {
    pub x: i64,
    pub y: i64,
}

impl Vec2Fix {
    pub open spec fn in_bounds(self) -> bool {
        &&& -COORD_LIMIT <= self.x <= COORD_LIMIT
        &&& -COORD_LIMIT <= self.y <= COORD_LIMIT
    }

    pub fn new(x: i64, y: i64) -> (r: Self)
        ensures
            r == (Vec2Fix { x, y }),
    {
        Vec2Fix { x, y }
    }
}

/// A triangle already projected to fixed-point screen coordinates.
#[derive(Clone, Copy, PartialEq, Eq, Structural, Debug)]
pub struct Triangle2D {
    pub v0: Vec2Fix,
    pub v1: Vec2Fix,
    pub v2: Vec2Fix,
}

impl Triangle2D {
    pub open spec fn in_bounds(self) -> bool {
        self.v0.in_bounds() && self.v1.in_bounds() && self.v2.in_bounds()
    }

    /// Doubled signed area of the triangle: the barycentric denominator.
    pub open spec fn wd_spec(self) -> int {
        (self.v1.y - self.v2.y) * (self.v0.x - self.v2.x) + (self.v2.x - self.v1.x) * (self.v0.y
            - self.v2.y)
    }

    /// Numerator of the first barycentric weight at the point `(px, py)`
    /// (fixed-point coordinates): `w0 == e0_spec / wd_spec`.
    pub open spec fn e0_spec(self, px: int, py: int) -> int {
        (self.v1.y - self.v2.y) * (px - self.v2.x) + (self.v2.x - self.v1.x) * (py - self.v2.y)
    }

    /// Numerator of the second barycentric weight: `w1 == e1_spec / wd_spec`.
    pub open spec fn e1_spec(self, px: int, py: int) -> int {
        (self.v2.y - self.v0.y) * (px - self.v2.x) + (self.v0.x - self.v2.x) * (py - self.v2.y)
    }

    /// Numerator of the third barycentric weight, derived so that the three
    /// weights sum to one exactly: `w2 == 1 - w0 - w1`.
    pub open spec fn e2_spec(self, px: int, py: int) -> int {
        self.wd_spec() - self.e0_spec(px, py) - self.e1_spec(px, py)
    }

    /// Strict-interior coverage: all three barycentric weights positive.
    /// Points on an edge or vertex are excluded, so triangles sharing an
    /// edge never both claim a pixel on it.
    pub open spec fn covered_spec(self, px: int, py: int) -> bool {
        let wd = self.wd_spec();
        let e0 = self.e0_spec(px, py);
        let e1 = self.e1_spec(px, py);
        let e2 = self.e2_spec(px, py);
        ||| (wd > 0 && e0 > 0 && e1 > 0 && e2 > 0)
        ||| (wd < 0 && e0 < 0 && e1 < 0 && e2 < 0)
    }
}

/// A screen triangle together with the depth of each vertex
/// (fixed-point: `SCALE` is depth `1`).
#[derive(Clone, Copy, PartialEq, Eq, Structural, Debug)]
pub struct ProjectedTriangle {
    pub tri: Triangle2D,
    pub z0: i64,
    pub z1: i64,
    pub z2: i64,
}

impl ProjectedTriangle {
    pub open spec fn wf(self) -> bool {
        &&& self.tri.in_bounds()
        &&& -COORD_LIMIT <= self.z0 <= COORD_LIMIT
        &&& -COORD_LIMIT <= self.z1 <= COORD_LIMIT
        &&& -COORD_LIMIT <= self.z2 <= COORD_LIMIT
    }

    pub fn new(tri: Triangle2D, z0: i64, z1: i64, z2: i64) -> (r: Self)
        ensures
            r == (ProjectedTriangle { tri, z0, z1, z2 }),
    {
        ProjectedTriangle { tri, z0, z1, z2 }
    }

    /// Numerator of the interpolated depth `w0*z0 + w1*z1 + w2*z2`,
    /// still over the denominator `wd_spec`.
    pub open spec fn num_spec(self, px: int, py: int) -> int {
        self.tri.e0_spec(px, py) * self.z0 + self.tri.e1_spec(px, py) * self.z1 + self.tri.e2_spec(
            px,
            py,
        ) * self.z2
    }

    /// Interpolated fixed-point depth at `(px, py)`, rounded toward
    /// negative infinity; meaningful only when `wd_spec != 0`.
    pub open spec fn depth_spec(self, px: int, py: int) -> int {
        if self.tri.wd_spec() > 0 {
            self.num_spec(px, py) / self.tri.wd_spec()
        } else {
            (-self.num_spec(px, py)) / (-self.tri.wd_spec())
        }
    }
}

/// The whole per-pixel decision for one triangle: `Some(pz)` exactly when
/// the pixel is strictly inside the triangle, its interpolated depth `pz`
/// lies strictly inside the visible range `(0, SCALE)`, and `pz` is
/// strictly nearer than the current depth-buffer entry `cur`.
pub open spec fn shade_spec(t: ProjectedTriangle, px: int, py: int, cur: int) -> Option<int> {
    if t.tri.covered_spec(px, py) {
        let pz = t.depth_spec(px, py);
        if 0 < pz < SCALE && pz < cur {
            Some(pz)
        } else {
            None
        }
    } else {
        None
    }
}

/// The three barycentric numerators sum to the denominator exactly, by
/// construction of the derived third weight: the weights
/// `e0/wd + e1/wd + e2/wd` sum to one for every point.
pub proof fn lemma_weights_sum_to_whole(t: Triangle2D, px: int, py: int)
    ensures
        t.e0_spec(px, py) + t.e1_spec(px, py) + t.e2_spec(px, py) == t.wd_spec(),
{
}

/// The derived third numerator equals the direct edge function of the
/// remaining edge, so deriving it loses nothing.
pub proof fn lemma_third_weight_is_edge_function(t: Triangle2D, px: int, py: int)
    ensures
        t.e2_spec(px, py) == (t.v0.y - t.v1.y) * (px - t.v1.x) + (t.v1.x - t.v0.x) * (py - t.v1.y),
{
    let x0 = t.v0.x as int;
    let y0 = t.v0.y as int;
    let x1 = t.v1.x as int;
    let y1 = t.v1.y as int;
    let x2 = t.v2.x as int;
    let y2 = t.v2.y as int;
    assert((y1 - y2) * (x0 - x2) + (x2 - x1) * (y0 - y2) - ((y1 - y2) * (px - x2) + (x2 - x1) * (py
        - y2)) - ((y2 - y0) * (px - x2) + (x0 - x2) * (py - y2)) == (y0 - y1) * (px - x1) + (x1
        - x0) * (py - y1)) by (nonlinear_arith);
}

/// `|a * b| <= ca * cb` whenever `|a| <= ca` and `|b| <= cb`.
proof fn lemma_abs_mul_le(a: int, b: int, ca: int, cb: int)
    by (nonlinear_arith)
    requires
        -ca <= a <= ca,
        -cb <= b <= cb,
        0 <= ca,
        0 <= cb,
    ensures
        -(ca * cb) <= a * b <= ca * cb,
{
}

/// For a positive divisor, the floor quotient clears a threshold `k`
/// exactly when the dividend clears `k` times the divisor.
pub proof fn lemma_div_at_least(x: int, d: int, k: int)
    requires
        d > 0,
    ensures
        x / d >= k <==> x >= k * d,
{
    lemma_fundamental_div_mod(x, d);
    assert(x / d >= k ==> x >= k * d) by (nonlinear_arith)
        requires
            d > 0,
            x == d * (x / d) + x % d,
            x % d >= 0,
    ;
    assert(x >= k * d ==> x / d >= k) by (nonlinear_arith)
        requires
            d > 0,
            x == d * (x / d) + x % d,
            x % d < d,
    ;
}

/// A written depth always lies strictly inside the visible range and
/// strictly below the depth it replaces: depths at a pixel only decrease,
/// and depth `0`, depth `1` (`SCALE`) or anything outside is never stored.
pub proof fn lemma_written_depth_in_range(t: ProjectedTriangle, px: int, py: int, cur: int)
    ensures
        shade_spec(t, px, py, cur) matches Some(pz) ==> 0 < pz < SCALE && pz < cur,
{
}

/// The doubled signed area of a screen triangle, the rasterizer's
/// degeneracy test: a zero value means collinear vertices.
pub fn wd_of(t: &Triangle2D) -> (r: i128)
    requires
        t.in_bounds(),
    ensures
        r == t.wd_spec(),
{
    let ghost db: int = 0x1_0000_0000;
    let dy12: i128 = t.v1.y as i128 - t.v2.y as i128;
    let dx21: i128 = t.v2.x as i128 - t.v1.x as i128;
    let dx02: i128 = t.v0.x as i128 - t.v2.x as i128;
    let dy02: i128 = t.v0.y as i128 - t.v2.y as i128;
    proof {
        lemma_abs_mul_le(dy12 as int, dx02 as int, db, db);
        lemma_abs_mul_le(dx21 as int, dy02 as int, db, db);
    }
    dy12 * dx02 + dx21 * dy02
}

/// The per-pixel decision, executable. Coordinates are fixed-point; `cur`
/// is the current depth-buffer entry at the pixel.
pub fn shade_pixel(t: &ProjectedTriangle, px: i64, py: i64, cur: i64) -> (r: Option<i64>)
    requires
        t.wf(),
        -COORD_LIMIT <= px <= COORD_LIMIT,
        -COORD_LIMIT <= py <= COORD_LIMIT,
    ensures
        match r {
            Some(pz) => shade_spec(*t, px as int, py as int, cur as int) == Some(pz as int),
            None => shade_spec(*t, px as int, py as int, cur as int) is None,
        },
{
    let v0 = t.tri.v0;
    let v1 = t.tri.v1;
    let v2 = t.tri.v2;
    let ghost cl: int = 0x8000_0000;  // == COORD_LIMIT
    let ghost db: int = 0x1_0000_0000;  // bound on coordinate differences
    let ghost eb: int = 0x2_0000_0000_0000_0000;  // bound on wd, e0, e1
    let dy12: i128 = v1.y as i128 - v2.y as i128;
    let dx21: i128 = v2.x as i128 - v1.x as i128;
    let dy20: i128 = v2.y as i128 - v0.y as i128;
    let dx02: i128 = v0.x as i128 - v2.x as i128;
    let dy02: i128 = v0.y as i128 - v2.y as i128;
    proof {
        lemma_abs_mul_le(dy12 as int, dx02 as int, db, db);
        lemma_abs_mul_le(dx21 as int, dy02 as int, db, db);
    }
    let wd: i128 = dy12 * dx02 + dx21 * dy02;
    if wd == 0 {
        return None;
    }
    let dpx: i128 = px as i128 - v2.x as i128;
    let dpy: i128 = py as i128 - v2.y as i128;
    proof {
        lemma_abs_mul_le(dy12 as int, dpx as int, db, db);
        lemma_abs_mul_le(dx21 as int, dpy as int, db, db);
        lemma_abs_mul_le(dy20 as int, dpx as int, db, db);
        lemma_abs_mul_le(dx02 as int, dpy as int, db, db);
    }
    let e0: i128 = dy12 * dpx + dx21 * dpy;
    let e1: i128 = dy20 * dpx + dx02 * dpy;
    let e2: i128 = wd - e0 - e1;
    assert(wd == t.tri.wd_spec());
    assert(e0 == t.tri.e0_spec(px as int, py as int));
    assert(e1 == t.tri.e1_spec(px as int, py as int));
    assert(e2 == t.tri.e2_spec(px as int, py as int));
    // Normalize so the denominator is positive; the weights are unchanged.
    let nwd: i128 = if wd > 0 {
        wd
    } else {
        -wd
    };
    let n0: i128 = if wd > 0 {
        e0
    } else {
        -e0
    };
    let n1: i128 = if wd > 0 {
        e1
    } else {
        -e1
    };
    let n2: i128 = if wd > 0 {
        e2
    } else {
        -e2
    };
    if !(n0 > 0 && n1 > 0 && n2 > 0) {
        assert(!t.tri.covered_spec(px as int, py as int));
        return None;
    }
    assert(t.tri.covered_spec(px as int, py as int));
    let ghost nb: int = 0x6_0000_0000_0000_0000;  // bound on the normalized numerators
    proof {
        lemma_abs_mul_le(n0 as int, t.z0 as int, nb, cl);
        lemma_abs_mul_le(n1 as int, t.z1 as int, nb, cl);
        lemma_abs_mul_le(n2 as int, t.z2 as int, nb, cl);
    }
    let num: i128 = n0 * (t.z0 as i128) + n1 * (t.z1 as i128) + n2 * (t.z2 as i128);
    proof {
        let e0i = e0 as int;
        let e1i = e1 as int;
        let e2i = e2 as int;
        let z0i = t.z0 as int;
        let z1i = t.z1 as int;
        let z2i = t.z2 as int;
        assert((-e0i) * z0i == -(e0i * z0i) && (-e1i) * z1i == -(e1i * z1i) && (-e2i) * z2i == -(
        e2i * z2i)) by (nonlinear_arith);
    }
    assert(if wd > 0 {
        num == t.num_spec(px as int, py as int)
    } else {
        num == -t.num_spec(px as int, py as int)
    });
    let ghost pz_s = t.depth_spec(px as int, py as int);
    assert(pz_s == num as int / nwd as int);
    if num < nwd {
        // interpolated depth floors to zero or below: outside (0, 1)
        proof {
            lemma_div_at_least(num as int, nwd as int, 1);
        }
        return None;
    }
    proof {
        lemma_abs_mul_le(nwd as int, SCALE as int, nb, SCALE as int);
    }
    if num >= nwd * (SCALE as i128) {
        // interpolated depth is one or more: outside (0, 1)
        proof {
            lemma_div_at_least(num as int, nwd as int, SCALE as int);
        }
        return None;
    }
    proof {
        lemma_div_at_least(num as int, nwd as int, 1);
        lemma_div_at_least(num as int, nwd as int, SCALE as int);
    }
    let pz128 = num.checked_div_euclid(nwd).unwrap();
    let pz = pz128 as i64;
    if pz < cur {
        Some(pz)
    } else {
        None
    }
}

} // verus!
