use rasterizer::aabb::{floor_to_pixel, AABBIter, AABB};
use rasterizer::scene::Scene;
use rasterizer::triangle::{shade_pixel, ProjectedTriangle, Triangle2D, Vec2Fix};
use rasterizer::{DEPTH_INF, LIT_COLOR, SCALE};

/// Pixels to fixed-point units.
fn fx(p: i64) -> i64 {
    p * SCALE
}

fn tri(ax: i64, ay: i64, bx: i64, by: i64, cx: i64, cy: i64) -> Triangle2D {
    Triangle2D {
        v0: Vec2Fix { x: ax, y: ay },
        v1: Vec2Fix { x: bx, y: by },
        v2: Vec2Fix { x: cx, y: cy },
    }
}

/// Reference strict-interior test, written out independently of the
/// library: all three barycentric numerators share the denominator's sign.
fn strictly_inside(t: &Triangle2D, px: i64, py: i64) -> bool {
    let (x0, y0) = (t.v0.x as i128, t.v0.y as i128);
    let (x1, y1) = (t.v1.x as i128, t.v1.y as i128);
    let (x2, y2) = (t.v2.x as i128, t.v2.y as i128);
    let (px, py) = (px as i128, py as i128);
    let wd = (y1 - y2) * (x0 - x2) + (x2 - x1) * (y0 - y2);
    let e0 = (y1 - y2) * (px - x2) + (x2 - x1) * (py - y2);
    let e1 = (y2 - y0) * (px - x2) + (x0 - x2) * (py - y2);
    let e2 = wd - e0 - e1;
    (wd > 0 && e0 > 0 && e1 > 0 && e2 > 0) || (wd < 0 && e0 < 0 && e1 < 0 && e2 < 0)
}

fn collect_pixels(b: AABB) -> Vec<(i64, i64)> {
    let mut it = AABBIter::new(b);
    let mut out = Vec::new();
    while let Some(p) = it.next() {
        out.push((p.x, p.y));
    }
    out
}

#[test]
fn aabb_new_stores_coordinates() {
    let b = AABB::new(1, 5, -3, 9);
    assert_eq!(b.min_x, 1);
    assert_eq!(b.max_x, 5);
    assert_eq!(b.min_y, -3);
    assert_eq!(b.max_y, 9);
}

#[test]
fn aabb_from_points_stores_coordinates() {
    let b = AABB::from_points(Vec2Fix { x: -2, y: 4 }, Vec2Fix { x: 7, y: 11 });
    assert_eq!((b.min_x, b.max_x, b.min_y, b.max_y), (-2, 7, 4, 11));
}

#[test]
fn aabb_from_triangle_is_componentwise_bounds() {
    let t = tri(fx(3), fx(1), fx(-2), fx(5), fx(4), fx(-7));
    let b = AABB::from_triangle(&t);
    assert_eq!((b.min_x, b.max_x), (fx(-2), fx(4)));
    assert_eq!((b.min_y, b.max_y), (fx(-7), fx(5)));
}

#[test]
fn point_containment_is_open_region() {
    let b = AABB::new(0, fx(2), 0, fx(2));
    assert!(b.point_in_aabb(&Vec2Fix { x: fx(1), y: fx(1) }));
    // boundary points are outside
    assert!(!b.point_in_aabb(&Vec2Fix { x: 0, y: fx(1) }));
    assert!(!b.point_in_aabb(&Vec2Fix { x: fx(2), y: fx(1) }));
    assert!(!b.point_in_aabb(&Vec2Fix { x: fx(1), y: 0 }));
    assert!(!b.point_in_aabb(&Vec2Fix { x: fx(1), y: fx(2) }));
}

#[test]
fn intersection_of_overlapping_boxes_is_tightest_box() {
    let a = AABB::new(0, fx(4), 0, fx(4));
    let b = AABB::new(fx(2), fx(6), fx(-1), fx(3));
    let r = a.intersection(&b).unwrap();
    assert_eq!((r.min_x, r.max_x, r.min_y, r.max_y), (fx(2), fx(4), 0, fx(3)));
}

#[test]
fn intersection_of_touching_boxes_is_none() {
    // unit boxes sharing only an edge
    let a = AABB::new(0, fx(1), 0, fx(1));
    let b = AABB::new(fx(1), fx(2), 0, fx(1));
    assert!(a.intersection(&b).is_none());
    assert!(b.intersection(&a).is_none());
    // sharing only a corner
    let c = AABB::new(fx(1), fx(2), fx(1), fx(2));
    assert!(a.intersection(&c).is_none());
}

#[test]
fn intersection_zero_area_overlap_is_distinguishable_from_none() {
    let a = AABB::new(0, fx(2), 0, fx(2));
    let line = AABB::new(fx(1), fx(1), 0, fx(2));
    let r = a.intersection(&line).unwrap();
    assert_eq!((r.min_x, r.max_x), (fx(1), fx(1)));
}

#[test]
fn intersection_is_commutative_on_samples() {
    let samples = [
        (AABB::new(0, fx(4), 0, fx(4)), AABB::new(fx(2), fx(6), fx(1), fx(3))),
        (AABB::new(0, fx(1), 0, fx(1)), AABB::new(fx(1), fx(2), 0, fx(1))),
        (AABB::new(-fx(3), fx(3), -fx(3), fx(3)), AABB::new(fx(5), fx(7), 0, fx(1))),
        (AABB::new(0, 0, 0, 0), AABB::new(0, 0, 0, 0)),
    ];
    for (a, b) in samples.iter() {
        assert_eq!(a.intersection(b), b.intersection(a));
    }
}

#[test]
fn floor_to_pixel_rounds_toward_negative_infinity() {
    assert_eq!(floor_to_pixel(0), 0);
    assert_eq!(floor_to_pixel(SCALE - 1), 0);
    assert_eq!(floor_to_pixel(SCALE), 1);
    assert_eq!(floor_to_pixel(-1), -1);
    assert_eq!(floor_to_pixel(-SCALE), -1);
    assert_eq!(floor_to_pixel(-SCALE - 1), -2);
}

#[test]
fn pixel_enumeration_counts_whole_box() {
    // [0, 3) x [0, 2) pixels: six lattice points, row-major
    let b = AABB::new(0, fx(3), 0, fx(2));
    let ps = collect_pixels(b);
    assert_eq!(
        ps,
        vec![
            (0, 0),
            (fx(1), 0),
            (fx(2), 0),
            (0, fx(1)),
            (fx(1), fx(1)),
            (fx(2), fx(1)),
        ]
    );
}

#[test]
fn pixel_enumeration_counts_fractional_box() {
    // [0.5, 2.5] x [0.25, 1.5]: columns 0..=2, rows 0..=1
    let b = AABB::new(SCALE / 2, 2 * SCALE + SCALE / 2, SCALE / 4, SCALE + SCALE / 2);
    let ps = collect_pixels(b);
    assert_eq!(ps.len(), 6);
    assert_eq!(ps[0], (0, 0));
    assert_eq!(ps[5], (fx(2), fx(1)));
    // ceil(max) - floor(min) on each axis
    for (x, y) in ps {
        assert_eq!(x % SCALE, 0);
        assert_eq!(y % SCALE, 0);
        assert!((0..=fx(2)).contains(&x));
        assert!((0..=fx(1)).contains(&y));
    }
}

#[test]
fn pixel_enumeration_of_thin_box_is_empty() {
    // spans less than one pixel on one axis
    let mut it = AABBIter::new(AABB::new(0, SCALE - 1, 0, fx(10)));
    assert!(it.next().is_none());
    let mut it = AABBIter::new(AABB::new(0, fx(10), fx(3), fx(3) + SCALE - 1));
    assert!(it.next().is_none());
}

#[test]
fn pixel_enumeration_stays_exhausted() {
    let b = AABB::new(0, fx(1), 0, fx(1));
    let mut it = AABBIter::new(b);
    assert_eq!(it.next(), Some(Vec2Fix { x: 0, y: 0 }));
    assert!(it.next().is_none());
    assert!(it.next().is_none());
    // reconstruction restarts the sequence
    let mut it2 = AABBIter::new(b);
    assert_eq!(it2.next(), Some(Vec2Fix { x: 0, y: 0 }));
}

#[test]
fn shade_interior_pixel_interpolates_depth() {
    let t = tri(0, 0, fx(4), 0, 0, fx(4));
    let half = SCALE / 2;
    let p = ProjectedTriangle::new(t, half, half, half);
    // constant depth: the weights sum to one, so the result is exact
    assert_eq!(shade_pixel(&p, fx(1), fx(1), DEPTH_INF), Some(half));
}

#[test]
fn shade_pixel_on_edge_is_excluded() {
    let t = tri(0, 0, fx(4), 0, 0, fx(4));
    let half = SCALE / 2;
    let p = ProjectedTriangle::new(t, half, half, half);
    // on the bottom edge, on the left edge, and on a vertex
    assert_eq!(shade_pixel(&p, fx(1), 0, DEPTH_INF), None);
    assert_eq!(shade_pixel(&p, 0, fx(1), DEPTH_INF), None);
    assert_eq!(shade_pixel(&p, 0, 0, DEPTH_INF), None);
}

#[test]
fn shade_depth_zero_or_one_is_never_written() {
    let t = tri(0, 0, fx(4), 0, 0, fx(4));
    let zero = ProjectedTriangle::new(t, 0, 0, 0);
    assert_eq!(shade_pixel(&zero, fx(1), fx(1), DEPTH_INF), None);
    let one = ProjectedTriangle::new(t, SCALE, SCALE, SCALE);
    assert_eq!(shade_pixel(&one, fx(1), fx(1), DEPTH_INF), None);
    let negative = ProjectedTriangle::new(t, -SCALE, -SCALE, -SCALE);
    assert_eq!(shade_pixel(&negative, fx(1), fx(1), DEPTH_INF), None);
    let beyond = ProjectedTriangle::new(t, 2 * SCALE, 2 * SCALE, 2 * SCALE);
    assert_eq!(shade_pixel(&beyond, fx(1), fx(1), DEPTH_INF), None);
}

#[test]
fn shade_depth_test_is_strict() {
    let t = tri(0, 0, fx(4), 0, 0, fx(4));
    let half = SCALE / 2;
    let p = ProjectedTriangle::new(t, half, half, half);
    // an equal stored depth is not overwritten; a farther one is
    assert_eq!(shade_pixel(&p, fx(1), fx(1), half), None);
    assert_eq!(shade_pixel(&p, fx(1), fx(1), half - 1), None);
    assert_eq!(shade_pixel(&p, fx(1), fx(1), half + 1), Some(half));
}

#[test]
fn degenerate_triangle_writes_nothing() {
    // collinear vertices: zero doubled area
    let t = tri(0, 0, fx(1), fx(1), fx(2), fx(2));
    let p = ProjectedTriangle::new(t, SCALE / 2, SCALE / 2, SCALE / 2);
    let mut scene = Scene::new(8, 8);
    let mut color = vec![7u32; 64];
    let mut depth = Vec::new();
    scene.render(&vec![p], &mut color, &mut depth, 8, 8);
    assert!(color.iter().all(|&c| c == 7));
    assert!(depth.iter().all(|&d| d == DEPTH_INF));
    assert_eq!(depth.len(), 64);
}

#[test]
fn nearer_triangle_wins_in_either_order() {
    let t = tri(0, 0, fx(8), 0, 0, fx(8));
    let near = ProjectedTriangle::new(t, 19661, 19661, 19661);
    let far = ProjectedTriangle::new(t, 45875, 45875, 45875);
    let mut scene = Scene::new(8, 8);

    let mut color_a = vec![0u32; 64];
    let mut depth_a = Vec::new();
    scene.render(&vec![near, far], &mut color_a, &mut depth_a, 8, 8);

    let mut color_b = vec![0u32; 64];
    let mut depth_b = Vec::new();
    scene.render(&vec![far, near], &mut color_b, &mut depth_b, 8, 8);

    let idx = 2 * 8 + 2;
    assert!(strictly_inside(&t, fx(2), fx(2)));
    assert_eq!(depth_a[idx], 19661);
    assert_eq!(depth_b[idx], 19661);
    assert_eq!(color_a[idx], LIT_COLOR);
    assert_eq!(color_b[idx], LIT_COLOR);
    assert_eq!(depth_a, depth_b);
    assert_eq!(color_a, color_b);
}

#[test]
fn offscreen_triangle_writes_nothing() {
    let t = tri(fx(100), fx(100), fx(120), fx(100), fx(100), fx(120));
    let p = ProjectedTriangle::new(t, SCALE / 2, SCALE / 2, SCALE / 2);
    let mut scene = Scene::new(8, 8);
    let mut color = vec![0u32; 64];
    let mut depth = Vec::new();
    scene.render(&vec![p], &mut color, &mut depth, 8, 8);
    assert!(color.iter().all(|&c| c == 0));
    assert!(depth.iter().all(|&d| d == DEPTH_INF));
}

#[test]
fn render_single_triangle_end_to_end() {
    // screen vertices (10,10), (50,10), (30,40), all at depth one half,
    // into an 80 x 50 viewport
    let t = tri(fx(10), fx(10), fx(50), fx(10), fx(30), fx(40));
    let half = SCALE / 2;
    let p = ProjectedTriangle::new(t, half, half, half);
    let (w, h) = (80u32, 50u32);
    let mut scene = Scene::new(w, h);
    let mut color = vec![0u32; (w * h) as usize];
    let mut depth = Vec::new();
    scene.render(&vec![p], &mut color, &mut depth, w, h);
    for py in 0..h as i64 {
        for px in 0..w as i64 {
            let idx = (py * w as i64 + px) as usize;
            if strictly_inside(&t, fx(px), fx(py)) {
                assert_eq!(color[idx], LIT_COLOR, "pixel ({px},{py}) should be lit");
                assert_eq!(depth[idx], half, "pixel ({px},{py}) should hold depth one half");
            } else {
                assert_eq!(color[idx], 0, "pixel ({px},{py}) should be untouched");
                assert_eq!(depth[idx], DEPTH_INF, "pixel ({px},{py}) depth should stay infinite");
            }
        }
    }
}

#[test]
fn scene_tracks_viewport_and_time() {
    let mut scene = Scene::new(320, 200);
    assert_eq!(scene.width, 320);
    assert_eq!(scene.height, 200);
    let first = scene.update_delta_time();
    let second = scene.update_delta_time();
    // deltas are measured from the previous call, so both are finite values
    let _ = first.checked_add(second).unwrap();
    let mut color = vec![0u32; 4];
    let mut depth = Vec::new();
    scene.render(&Vec::new(), &mut color, &mut depth, 2, 2);
    assert_eq!(scene.width, 2);
    assert_eq!(scene.height, 2);
    assert_eq!(depth, vec![DEPTH_INF; 4]);
    assert_eq!(color, vec![0u32; 4]);
}
