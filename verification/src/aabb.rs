//! Axis-aligned bounding boxes over fixed-point screen coordinates:
//! construction from a triangle, strict intersection, and enumeration of
//! the integer pixel lattice a box covers.

use crate::triangle::{Triangle2D, Vec2Fix};
use crate::{COORD_LIMIT, SCALE};
use vstd::arithmetic::div_mod::{
    lemma_fundamental_div_mod, lemma_fundamental_div_mod_converse, lemma_mod_bound,
};
use vstd::prelude::*;

verus! {

/// Floor of `a / SCALE`: the first pixel column (or row) at or left of a
/// fixed-point coordinate.
pub open spec fn floor_px(a: int) -> int {
    a / (SCALE as int)
}

/// Ceiling of `a / SCALE`: the first pixel column (or row) at or right of
/// a fixed-point coordinate.
pub open spec fn ceil_px(a: int) -> int {
    (a + SCALE - 1) / (SCALE as int)
}

/// An axis-aligned box in fixed-point coordinates.
#[derive(Clone, Copy, PartialEq, Eq, Structural, Debug)]
pub struct AABB {
    pub min_x: i64,
    pub max_x: i64,
    pub min_y: i64,
    pub max_y: i64,
}

impl AABB {
    /// All four coordinates within the magnitude the rasterizer accepts.
    pub open spec fn in_bounds(self) -> bool {
        &&& -COORD_LIMIT <= self.min_x <= COORD_LIMIT
        &&& -COORD_LIMIT <= self.max_x <= COORD_LIMIT
        &&& -COORD_LIMIT <= self.min_y <= COORD_LIMIT
        &&& -COORD_LIMIT <= self.max_y <= COORD_LIMIT
    }

    /// Minima at or below maxima on both axes.
    pub open spec fn ordered(self) -> bool {
        self.min_x <= self.max_x && self.min_y <= self.max_y
    }

    /// Strict overlap: boxes that merely touch at an edge or a corner do
    /// not intersect.
    pub open spec fn intersects_spec(self, other: AABB) -> bool {
        &&& self.max_x > other.min_x
        &&& other.max_x > self.min_x
        &&& self.max_y > other.min_y
        &&& other.max_y > self.min_y
    }

    /// Componentwise tightest common box; meaningful when the boxes
    /// intersect.
    pub open spec fn intersection_spec(self, other: AABB) -> AABB {
        AABB {
            min_x: if self.min_x >= other.min_x {
                self.min_x
            } else {
                other.min_x
            },
            max_x: if self.max_x <= other.max_x {
                self.max_x
            } else {
                other.max_x
            },
            min_y: if self.min_y >= other.min_y {
                self.min_y
            } else {
                other.min_y
            },
            max_y: if self.max_y <= other.max_y {
                self.max_y
            } else {
                other.max_y
            },
        }
    }

    /// The intersection as an optional value: absence for disjoint boxes,
    /// never a sentinel box.
    pub open spec fn intersection_opt_spec(self, other: AABB) -> Option<AABB> {
        if self.intersects_spec(other) {
            Some(self.intersection_spec(other))
        } else {
            None
        }
    }

    /// A box spanning less than one pixel on either axis enumerates no
    /// pixels at all.
    pub open spec fn small(self) -> bool {
        self.max_x - self.min_x < SCALE || self.max_y - self.min_y < SCALE
    }

    /// Number of pixel columns enumerated per row.
    pub open spec fn count_x(self) -> int {
        ceil_px(self.max_x as int) - floor_px(self.min_x as int)
    }

    /// Number of pixel rows enumerated.
    pub open spec fn count_y(self) -> int {
        ceil_px(self.max_y as int) - floor_px(self.min_y as int)
    }

    pub open spec fn pixel_count(self) -> int {
        if self.small() {
            0
        } else {
            self.count_x() * self.count_y()
        }
    }

    /// The pixel lattice points the box covers, row-major, as fixed-point
    /// coordinates (each a multiple of `SCALE`).
    pub open spec fn pixel_seq(self) -> Seq<Vec2Fix> {
        Seq::new(
            self.pixel_count() as nat,
            |i: int|
                Vec2Fix {
                    x: ((floor_px(self.min_x as int) + i % self.count_x()) * SCALE) as i64,
                    y: ((floor_px(self.min_y as int) + i / self.count_x()) * SCALE) as i64,
                },
        )
    }

    /// Whether pixel `(px, py)` (lattice coordinates) is among the pixels
    /// the box enumerates.
    pub open spec fn covers_pixel(self, px: int, py: int) -> bool {
        &&& !self.small()
        &&& floor_px(self.min_x as int) <= px
        &&& px * SCALE < self.max_x
        &&& floor_px(self.min_y as int) <= py
        &&& py * SCALE < self.max_y
    }

    pub fn new(min_x: i64, max_x: i64, min_y: i64, max_y: i64) -> (r: Self)
        ensures
            r == (AABB { min_x, max_x, min_y, max_y }),
    {
        Self { min_x, max_x, min_y, max_y }
    }

    pub fn from_points(min: Vec2Fix, max: Vec2Fix) -> (r: Self)
        ensures
            r == (AABB { min_x: min.x, max_x: max.x, min_y: min.y, max_y: max.y }),
    {
        Self { min_x: min.x, max_x: max.x, min_y: min.y, max_y: max.y }
    }

    /// The componentwise bounding box of a triangle's three vertices.
    pub fn from_triangle(t: &Triangle2D) -> (r: Self)
        ensures
            r == aabb_of_spec(*t),
    {
        let mut min_x = t.v0.x;
        if t.v1.x < min_x {
            min_x = t.v1.x;
        }
        if t.v2.x < min_x {
            min_x = t.v2.x;
        }
        let mut max_x = t.v0.x;
        if t.v1.x > max_x {
            max_x = t.v1.x;
        }
        if t.v2.x > max_x {
            max_x = t.v2.x;
        }
        let mut min_y = t.v0.y;
        if t.v1.y < min_y {
            min_y = t.v1.y;
        }
        if t.v2.y < min_y {
            min_y = t.v2.y;
        }
        let mut max_y = t.v0.y;
        if t.v1.y > max_y {
            max_y = t.v1.y;
        }
        if t.v2.y > max_y {
            max_y = t.v2.y;
        }
        Self { min_x, max_x, min_y, max_y }
    }

    /// Open-region containment: boundary points are outside.
    pub fn point_in_aabb(&self, point: &Vec2Fix) -> (r: bool)
        ensures
            r == (point.x > self.min_x && point.x < self.max_x && point.y > self.min_y && point.y
                < self.max_y),
    {
        point.x > self.min_x && point.x < self.max_x && point.y > self.min_y && point.y
            < self.max_y
    }

    fn intersects(&self, other: &Self) -> (r: bool)
        ensures
            r == self.intersects_spec(*other),
    {
        self.max_x > other.min_x && other.max_x > self.min_x && self.max_y > other.min_y
            && other.max_y > self.min_y
    }

    /// Returns the intersection of `self` and `other` as a new `AABB`.
    /// Result is `None` if `self` and `other` do not intersect.
    pub fn intersection(&self, other: &Self) -> (r: Option<Self>)
        ensures
            r == self.intersection_opt_spec(*other),
            r is Some && self.ordered() && other.ordered() ==> r.unwrap().ordered(),
            r is Some && self.in_bounds() && other.in_bounds() ==> r.unwrap().in_bounds(),
    {
        if self.intersects(other) {
            Some(
                Self {
                    min_x: if self.min_x >= other.min_x {
                        self.min_x
                    } else {
                        other.min_x
                    },
                    max_x: if self.max_x <= other.max_x {
                        self.max_x
                    } else {
                        other.max_x
                    },
                    min_y: if self.min_y >= other.min_y {
                        self.min_y
                    } else {
                        other.min_y
                    },
                    max_y: if self.max_y <= other.max_y {
                        self.max_y
                    } else {
                        other.max_y
                    },
                },
            )
        } else {
            None
        }
    }
}

/// The componentwise min/max box of a triangle's vertices.
pub open spec fn aabb_of_spec(t: Triangle2D) -> AABB {
    AABB {
        min_x: min3(t.v0.x as int, t.v1.x as int, t.v2.x as int) as i64,
        max_x: max3(t.v0.x as int, t.v1.x as int, t.v2.x as int) as i64,
        min_y: min3(t.v0.y as int, t.v1.y as int, t.v2.y as int) as i64,
        max_y: max3(t.v0.y as int, t.v1.y as int, t.v2.y as int) as i64,
    }
}

pub open spec fn min3(a: int, b: int, c: int) -> int {
    if a <= b && a <= c {
        a
    } else if b <= c {
        b
    } else {
        c
    }
}

pub open spec fn max3(a: int, b: int, c: int) -> int {
    if a >= b && a >= c {
        a
    } else if b >= c {
        b
    } else {
        c
    }
}

/// Intersection is commutative, both in the overlap test and in the
/// resulting box, so either operand order gives the same answer.
pub proof fn lemma_intersection_commutative(a: AABB, b: AABB)
    ensures
        a.intersection_opt_spec(b) == b.intersection_opt_spec(a),
{
}

/// Boxes that only touch along an edge or at a corner (equal boundary
/// coordinates on some axis) never intersect.
pub proof fn lemma_touching_boxes_do_not_intersect(a: AABB, b: AABB)
    requires
        a.max_x == b.min_x || b.max_x == a.min_x || a.max_y == b.min_y || b.max_y == a.min_y,
    ensures
        a.intersection_opt_spec(b) is None,
{
}

/// A triangle's bounding box is ordered and stays within bounds whenever
/// the triangle does.
pub proof fn lemma_triangle_aabb_wf(t: Triangle2D)
    ensures
        aabb_of_spec(t).ordered(),
        t.in_bounds() ==> aabb_of_spec(t).in_bounds(),
{
}

/// `p * SCALE < m` exactly when `p < ceil_px(m)`: the enumeration's
/// exclusive upper test in pixel units.
pub proof fn lemma_pixel_threshold(m: int, p: int)
    ensures
        p * SCALE < m <==> p < ceil_px(m),
{
    lemma_fundamental_div_mod(m + SCALE - 1, SCALE as int);
    let q = ceil_px(m);
    assert(q * SCALE >= m && (q - 1) * SCALE < m) by (nonlinear_arith)
        requires
            m + SCALE - 1 == (SCALE as int) * q + (m + SCALE - 1) % (SCALE as int),
            0 <= (m + SCALE - 1) % (SCALE as int) < SCALE as int,
            SCALE == 65536,
    ;
    assert(p >= q ==> p * SCALE >= q * SCALE) by (nonlinear_arith)
        requires
            SCALE == 65536,
    ;
    assert(p <= q - 1 ==> p * SCALE <= (q - 1) * SCALE) by (nonlinear_arith)
        requires
            SCALE == 65536,
    ;
}

/// `floor_px(m) * SCALE` is at most `m`, and less than one pixel below it.
pub proof fn lemma_pixel_floor(m: int)
    ensures
        floor_px(m) * SCALE <= m,
        m < floor_px(m) * SCALE + SCALE,
        m >= 0 ==> floor_px(m) >= 0,
        m >= SCALE ==> floor_px(m) >= 1,
{
    lemma_fundamental_div_mod(m, SCALE as int);
    assert(floor_px(m) * SCALE <= m && m < floor_px(m) * SCALE + SCALE) by (nonlinear_arith)
        requires
            m == (SCALE as int) * floor_px(m) + m % (SCALE as int),
            0 <= m % (SCALE as int) < SCALE as int,
            SCALE == 65536,
    ;
    assert(m >= 0 ==> floor_px(m) >= 0) by (nonlinear_arith)
        requires
            m == (SCALE as int) * floor_px(m) + m % (SCALE as int),
            0 <= m % (SCALE as int) < SCALE as int,
            SCALE == 65536,
    ;
    assert(m >= SCALE ==> floor_px(m) >= 1) by (nonlinear_arith)
        requires
            m == (SCALE as int) * floor_px(m) + m % (SCALE as int),
            0 <= m % (SCALE as int) < SCALE as int,
            SCALE == 65536,
    ;
}

/// A box spanning at least one pixel on both axes enumerates exactly
/// `count_x * count_y` pixels — the pixel-unit widths
/// `ceil_px(max) - floor_px(min)` of its two extents — each a distinct
/// lattice point (a multiple of `SCALE` on both axes) lying in
/// `[floor_px(min) * SCALE, max)`.
pub proof fn lemma_pixel_enumeration_count(b: AABB)
    requires
        b.in_bounds(),
        b.max_x - b.min_x >= SCALE,
        b.max_y - b.min_y >= SCALE,
    ensures
        b.pixel_seq().len() == b.count_x() * b.count_y(),
        b.count_x() >= 1,
        b.count_y() >= 1,
        forall|i: int|
            0 <= i < b.pixel_seq().len() ==> ((#[trigger] b.pixel_seq()[i]).x as int) % (
            SCALE as int) == 0 && (b.pixel_seq()[i].y as int) % (SCALE as int) == 0 && floor_px(
                b.min_x as int,
            ) * SCALE <= b.pixel_seq()[i].x < b.max_x && floor_px(b.min_y as int) * SCALE
                <= b.pixel_seq()[i].y < b.max_y,
        forall|i: int, j: int|
            0 <= i < b.pixel_seq().len() && 0 <= j < b.pixel_seq().len() && i != j
                ==> #[trigger] b.pixel_seq()[i] != #[trigger] b.pixel_seq()[j],
{
    let fx = floor_px(b.min_x as int);
    let fy = floor_px(b.min_y as int);
    let cx = b.count_x();
    let cy = b.count_y();
    let s = SCALE as int;
    lemma_pixel_floor(b.min_x as int);
    lemma_pixel_floor(b.min_y as int);
    lemma_pixel_threshold(b.max_x as int, fx);
    lemma_pixel_threshold(b.max_y as int, fy);
    assert(fx * s < b.max_x);
    assert(fy * s < b.max_y);
    assert(cx >= 1 && cy >= 1);
    assert(b.pixel_seq().len() == cx * cy) by (nonlinear_arith)
        requires
            cx >= 1,
            cy >= 1,
            b.pixel_count() == cx * cy,
            b.pixel_seq().len() == b.pixel_count() as nat,
    ;
    assert forall|i: int| 0 <= i < b.pixel_seq().len() implies ((#[trigger] b.pixel_seq()[i]).x
        as int) % (SCALE as int) == 0 && (b.pixel_seq()[i].y as int) % (SCALE as int) == 0
        && floor_px(b.min_x as int) * SCALE <= b.pixel_seq()[i].x < b.max_x && floor_px(
        b.min_y as int,
    ) * SCALE <= b.pixel_seq()[i].y < b.max_y by {
        lemma_pixel_item(b, i);
    }
    assert forall|i: int, j: int|
        0 <= i < b.pixel_seq().len() && 0 <= j < b.pixel_seq().len() && i
            != j implies #[trigger] b.pixel_seq()[i] != #[trigger] b.pixel_seq()[j] by {
        lemma_pixel_item(b, i);
        lemma_pixel_item(b, j);
        lemma_fundamental_div_mod(i, cx);
        lemma_fundamental_div_mod(j, cx);
        if i % cx == j % cx && i / cx == j / cx {
            assert(i == j) by (nonlinear_arith)
                requires
                    i == cx * (i / cx) + i % cx,
                    j == cx * (j / cx) + j % cx,
                    i % cx == j % cx,
                    i / cx == j / cx,
            ;
        }
        if i % cx != j % cx {
            assert((fx + i % cx) * s != (fx + j % cx) * s) by (nonlinear_arith)
                requires
                    s == 65536,
                    i % cx != j % cx,
            ;
        } else {
            assert((fy + i / cx) * s != (fy + j / cx) * s) by (nonlinear_arith)
                requires
                    s == 65536,
                    i / cx != j / cx,
            ;
        }
    }
}

/// Shape, location and alignment of one enumerated pixel of a box that
/// spans at least a pixel on both axes.
proof fn lemma_pixel_item(b: AABB, i: int)
    requires
        b.in_bounds(),
        b.max_x - b.min_x >= SCALE,
        b.max_y - b.min_y >= SCALE,
        0 <= i < b.pixel_seq().len(),
    ensures
        ({
            let fx = floor_px(b.min_x as int);
            let fy = floor_px(b.min_y as int);
            let cx = b.count_x();
            let s = SCALE as int;
            &&& 0 <= i % cx < cx
            &&& 0 <= i / cx < b.count_y()
            &&& b.pixel_seq()[i].x as int == (fx + i % cx) * s
            &&& b.pixel_seq()[i].y as int == (fy + i / cx) * s
            &&& fx * s <= b.pixel_seq()[i].x < b.max_x
            &&& fy * s <= b.pixel_seq()[i].y < b.max_y
            &&& (b.pixel_seq()[i].x as int) % s == 0
            &&& (b.pixel_seq()[i].y as int) % s == 0
        }),
{
    let fx = floor_px(b.min_x as int);
    let fy = floor_px(b.min_y as int);
    let cx = b.count_x();
    let cy = b.count_y();
    let s = SCALE as int;
    lemma_pixel_floor(b.min_x as int);
    lemma_pixel_floor(b.min_y as int);
    lemma_pixel_threshold(b.max_x as int, fx);
    lemma_pixel_threshold(b.max_y as int, fy);
    assert(cx >= 1 && cy >= 1);
    lemma_mod_bound(i, cx);
    lemma_fundamental_div_mod(i, cx);
    let mx = i % cx;
    let my = i / cx;
    assert(i < cx * cy) by (nonlinear_arith)
        requires
            0 <= i < b.pixel_seq().len(),
            b.pixel_seq().len() == b.pixel_count() as nat,
            b.pixel_count() == cx * cy,
            cx >= 1,
            cy >= 1,
    ;
    assert(0 <= my < cy) by (nonlinear_arith)
        requires
            cx >= 1,
            0 <= i < cx * cy,
            i == cx * (i / cx) + i % cx,
            0 <= i % cx < cx,
            my == i / cx,
    ;
    lemma_pixel_threshold(b.max_x as int, fx + mx);
    lemma_pixel_threshold(b.max_y as int, fy + my);
    let x = (fx + mx) * s;
    let y = (fy + my) * s;
    assert(fx * s <= x && x < b.max_x) by (nonlinear_arith)
        requires
            0 <= mx,
            fx + mx < ceil_px(b.max_x as int) ==> x < b.max_x,
            mx < cx,
            cx == ceil_px(b.max_x as int) - fx,
            x == (fx + mx) * s,
            s == 65536,
    ;
    assert(fy * s <= y && y < b.max_y) by (nonlinear_arith)
        requires
            0 <= my,
            fy + my < ceil_px(b.max_y as int) ==> y < b.max_y,
            my < cy,
            cy == ceil_px(b.max_y as int) - fy,
            y == (fy + my) * s,
            s == 65536,
    ;
    assert(-COORD_LIMIT - SCALE <= x <= COORD_LIMIT) by (nonlinear_arith)
        requires
            fx * s <= b.min_x as int,
            fx * s > b.min_x as int - s,
            b.min_x as int >= -COORD_LIMIT,
            fx * s <= x < b.max_x,
            b.max_x as int <= COORD_LIMIT,
            s == 65536,
            COORD_LIMIT == 0x8000_0000,
    ;
    assert(-COORD_LIMIT - SCALE <= y <= COORD_LIMIT) by (nonlinear_arith)
        requires
            fy * s <= b.min_y as int,
            fy * s > b.min_y as int - s,
            b.min_y as int >= -COORD_LIMIT,
            fy * s <= y < b.max_y,
            b.max_y as int <= COORD_LIMIT,
            s == 65536,
            COORD_LIMIT == 0x8000_0000,
    ;
    assert(b.pixel_seq()[i].x as int == x && b.pixel_seq()[i].y as int == y);
    assert(x % s == 0) by (nonlinear_arith)
        requires
            x == (fx + mx) * s,
            s == 65536,
    ;
    assert(y % s == 0) by (nonlinear_arith)
        requires
            y == (fy + my) * s,
            s == 65536,
    ;
}

/// The scan predicate and the enumerated sequence agree: a pixel is
/// covered exactly when the box's pixel sequence contains it.
pub proof fn lemma_covers_pixel_iff_enumerated(b: AABB, px: int, py: int)
    requires
        b.in_bounds(),
    ensures
        b.covers_pixel(px, py) <==> exists|i: int|
            0 <= i < b.pixel_seq().len() && (#[trigger] b.pixel_seq()[i]).x as int == px * SCALE
                && b.pixel_seq()[i].y as int == py * SCALE,
{
    let fx = floor_px(b.min_x as int);
    let fy = floor_px(b.min_y as int);
    let cx = b.count_x();
    let cy = b.count_y();
    let s = SCALE as int;
    if b.covers_pixel(px, py) {
        lemma_pixel_floor(b.min_x as int);
        lemma_pixel_floor(b.min_y as int);
        lemma_pixel_threshold(b.max_x as int, px);
        lemma_pixel_threshold(b.max_y as int, py);
        lemma_pixel_threshold(b.max_x as int, fx);
        lemma_pixel_threshold(b.max_y as int, fy);
        let i = (py - fy) * cx + (px - fx);
        lemma_fundamental_div_mod_converse(i, cx, py - fy, px - fx);
        assert(0 <= i < cx * cy && cx * cy >= 1) by (nonlinear_arith)
            requires
                i == (py - fy) * cx + (px - fx),
                0 <= py - fy <= cy - 1,
                0 <= px - fx <= cx - 1,
                cx >= 1,
                cy >= 1,
        ;
        assert(b.pixel_seq().len() as int == cx * cy);
        lemma_pixel_item(b, i);
        assert(b.pixel_seq()[i].x as int == px * s && b.pixel_seq()[i].y as int == py * s);
    }
    if exists|i: int|
        0 <= i < b.pixel_seq().len() && (#[trigger] b.pixel_seq()[i]).x as int == px * SCALE
            && b.pixel_seq()[i].y as int == py * SCALE {
        let i = choose|i: int|
            0 <= i < b.pixel_seq().len() && (#[trigger] b.pixel_seq()[i]).x as int == px * SCALE
                && b.pixel_seq()[i].y as int == py * SCALE;
        assert(!b.small());
        lemma_pixel_item(b, i);
        assert(px == fx + i % cx && py == fy + i / cx) by (nonlinear_arith)
            requires
                px * s == (fx + i % cx) * s,
                py * s == (fy + i / cx) * s,
                s == 65536,
        ;
        lemma_pixel_threshold(b.max_x as int, px);
        lemma_pixel_threshold(b.max_y as int, py);
        assert(b.covers_pixel(px, py));
    }
}

/// A box spanning less than one pixel on either axis enumerates no pixels.
pub proof fn lemma_small_box_has_no_pixels(b: AABB)
    requires
        b.max_x - b.min_x < SCALE || b.max_y - b.min_y < SCALE,
    ensures
        b.pixel_seq().len() == 0,
{
}

/// Floor division of a fixed-point coordinate down to its pixel index.
pub fn floor_to_pixel(a: i64) -> (r: i64)
    requires
        -COORD_LIMIT - SCALE <= a <= COORD_LIMIT + SCALE,
    ensures
        r == floor_px(a as int),
{
    proof {
        crate::triangle::lemma_div_at_least(a as int, SCALE as int, -COORD_LIMIT - SCALE);
        crate::triangle::lemma_div_at_least(a as int, SCALE as int, COORD_LIMIT + SCALE + 1);
    }
    let q = a.checked_div_euclid(SCALE);
    q.unwrap()
}

/// An iterator over the pixel lattice points of a box, row-major. The
/// sequence it produces is `pixel_seq` of the box; reconstructing the
/// iterator restarts the sequence.
pub struct AABBIter {
    inner: AABB,
    px: i64,
    py: i64,
}

impl AABBIter {
    pub closed spec fn aabb(self) -> AABB {
        self.inner
    }

    /// How many pixels have been yielded so far.
    pub closed spec fn pos(self) -> int {
        if self.inner.small() {
            0
        } else {
            (self.py - floor_px(self.inner.min_y as int)) * self.inner.count_x() + (self.px
                - floor_px(self.inner.min_x as int))
        }
    }

    pub closed spec fn wf(self) -> bool {
        let b = self.inner;
        let fx = floor_px(b.min_x as int);
        let fy = floor_px(b.min_y as int);
        &&& b.in_bounds()
        &&& if b.small() {
            self.px == fx && self.py == fy
        } else {
            &&& fx <= self.px <= fx + b.count_x()
            &&& fy <= self.py <= fy + b.count_y()
            &&& (self.py == fy + b.count_y() ==> self.px == fx)
        }
    }

    pub fn new(inner: AABB) -> (r: Self)
        requires
            inner.in_bounds(),
        ensures
            r.wf(),
            r.aabb() == inner,
            r.pos() == 0,
    {
        let px = floor_to_pixel(inner.min_x);
        let py = floor_to_pixel(inner.min_y);
        proof {
            lemma_pixel_floor(inner.min_x as int);
            lemma_pixel_floor(inner.min_y as int);
            lemma_pixel_threshold(inner.max_x as int, px as int);
            lemma_pixel_threshold(inner.max_y as int, py as int);
        }
        AABBIter { inner, px, py }
    }

    /// Yields the pixels of `pixel_seq` in order, then `None` forever.
    pub fn next(&mut self) -> (r: Option<Vec2Fix>)
        requires
            old(self).wf(),
        ensures
            final(self).wf(),
            final(self).aabb() == old(self).aabb(),
            ({
                let s = old(self).aabb().pixel_seq();
                if old(self).pos() < s.len() {
                    r == Some(s[old(self).pos()]) && final(self).pos() == old(self).pos() + 1
                } else {
                    r is None && final(self).pos() == old(self).pos()
                }
            }),
    {
        let b = self.inner;
        if b.max_x - b.min_x < SCALE || b.max_y - b.min_y < SCALE {
            return None;
        }
        let ghost fx = floor_px(b.min_x as int);
        let ghost fy = floor_px(b.min_y as int);
        let ghost cx = b.count_x();
        let ghost cy = b.count_y();
        let ghost s = SCALE as int;
        proof {
            lemma_pixel_floor(b.min_x as int);
            lemma_pixel_floor(b.min_y as int);
            lemma_pixel_threshold(b.max_x as int, fx);
            lemma_pixel_threshold(b.max_y as int, fy);
            lemma_pixel_threshold(b.max_x as int, self.px as int);
            lemma_pixel_threshold(b.max_y as int, self.py as int);
            lemma_iter_coord_bounds(b, self.px as int, self.py as int);
        }
        if self.px * SCALE >= b.max_x {
            // row finished: move to the start of the next row
            let ghost pos0 = self.pos();
            let ghost py0 = self.py as int;
            self.px = floor_to_pixel(b.min_x);
            self.py = self.py + 1;
            proof {
                assert(self.px == fx);
                assert((py0 - fy) * cx + cx == (self.py - fy) * cx) by (nonlinear_arith)
                    requires
                        self.py == py0 + 1,
                ;
                assert(self.pos() == pos0);
                lemma_pixel_threshold(b.max_x as int, self.px as int);
                lemma_pixel_threshold(b.max_y as int, self.py as int);
                lemma_iter_coord_bounds(b, self.px as int, self.py as int);
            }
        }
        assert(self.px * SCALE < b.max_x);
        assert(fx <= self.px < fx + cx);
        if self.py * SCALE >= b.max_y {
            proof {
                assert(self.py == fy + cy);
                assert(self.px == fx);
                assert(self.pos() == cx * cy && cx * cy >= 1) by (nonlinear_arith)
                    requires
                        self.pos() == (self.py as int - fy) * cx + (self.px as int - fx),
                        self.py as int - fy == cy,
                        self.px as int == fx,
                        cx >= 1,
                        cy >= 1,
                ;
                assert(b.pixel_seq().len() as int == cx * cy);
                assert(self.pos() >= b.pixel_seq().len());
            }
            return None;
        }
        assert(fy <= self.py < fy + cy);
        let r = Vec2Fix { x: self.px * SCALE, y: self.py * SCALE };
        let ghost pos0 = self.pos();
        proof {
            lemma_fundamental_div_mod_converse(
                pos0,
                cx,
                self.py as int - fy,
                self.px as int - fx,
            );
            assert(pos0 < cx * cy && cx * cy >= 1) by (nonlinear_arith)
                requires
                    pos0 == (self.py as int - fy) * cx + (self.px as int - fx),
                    0 <= self.py as int - fy <= cy - 1,
                    0 <= self.px as int - fx <= cx - 1,
                    cx >= 1,
                    cy >= 1,
            ;
            assert(b.pixel_seq().len() as int == cx * cy);
            assert(b.pixel_seq()[pos0] == r);
        }
        self.px = self.px + 1;
        proof {
            assert(self.pos() == pos0 + 1);
        }
        Some(r)
    }
}

/// Bounds that keep the iterator's pixel-unit arithmetic inside `i64`.
proof fn lemma_iter_coord_bounds(b: AABB, px: int, py: int)
    requires
        b.in_bounds(),
        !b.small(),
        floor_px(b.min_x as int) <= px <= floor_px(b.min_x as int) + b.count_x(),
        floor_px(b.min_y as int) <= py <= floor_px(b.min_y as int) + b.count_y(),
    ensures
        -COORD_LIMIT - SCALE <= px * SCALE <= COORD_LIMIT + SCALE,
        -COORD_LIMIT - SCALE <= py * SCALE <= COORD_LIMIT + SCALE,
        -COORD_LIMIT <= px <= COORD_LIMIT,
        -COORD_LIMIT <= py <= COORD_LIMIT,
{
    let s = SCALE as int;
    let fx = floor_px(b.min_x as int);
    let fy = floor_px(b.min_y as int);
    let qx = ceil_px(b.max_x as int);
    let qy = ceil_px(b.max_y as int);
    lemma_pixel_floor(b.min_x as int);
    lemma_pixel_floor(b.min_y as int);
    lemma_fundamental_div_mod(b.max_x as int + s - 1, s);
    lemma_fundamental_div_mod(b.max_y as int + s - 1, s);
    assert(qx * s <= b.max_x as int + s - 1 && qx * s >= b.max_x) by (nonlinear_arith)
        requires
            b.max_x as int + s - 1 == s * qx + (b.max_x as int + s - 1) % s,
            0 <= (b.max_x as int + s - 1) % s < s,
    ;
    assert(qy * s <= b.max_y as int + s - 1 && qy * s >= b.max_y) by (nonlinear_arith)
        requires
            b.max_y as int + s - 1 == s * qy + (b.max_y as int + s - 1) % s,
            0 <= (b.max_y as int + s - 1) % s < s,
    ;
    assert(fx * s <= px * s <= qx * s) by (nonlinear_arith)
        requires
            fx <= px <= qx,
            s == 65536,
    ;
    assert(fy * s <= py * s <= qy * s) by (nonlinear_arith)
        requires
            fy <= py <= qy,
            s == 65536,
    ;
    assert(-COORD_LIMIT <= px <= COORD_LIMIT) by (nonlinear_arith)
        requires
            fx * s <= px * s <= qx * s,
            fx * s >= b.min_x - s,
            qx * s <= b.max_x as int + s - 1,
            -COORD_LIMIT <= b.min_x,
            b.max_x <= COORD_LIMIT,
            s == 65536,
            COORD_LIMIT == 0x8000_0000,
    ;
    assert(-COORD_LIMIT <= py <= COORD_LIMIT) by (nonlinear_arith)
        requires
            fy * s <= py * s <= qy * s,
            fy * s >= b.min_y - s,
            qy * s <= b.max_y as int + s - 1,
            -COORD_LIMIT <= b.min_y,
            b.max_y <= COORD_LIMIT,
            s == 65536,
            COORD_LIMIT == 0x8000_0000,
    ;
}

} // verus!
