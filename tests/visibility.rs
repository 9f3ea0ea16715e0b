use sight::{closest_intersect, get_intersection, unique_points_from_segments};
use sight::{Intersection, Point, Ray, Segment, Sight};

fn pt(x: i64, y: i64) -> Point {
    Point { x, y }
}

fn seg(ax: i64, ay: i64, bx: i64, by: i64) -> Segment {
    Segment { a: pt(ax, ay), b: pt(bx, by) }
}

fn ray(ox: i64, oy: i64, dx: i64, dy: i64) -> Ray {
    Ray { ox, oy, scale: 1, dx, dy }
}

fn coords(h: &Intersection) -> (f64, f64) {
    (h.x as f64 / h.den as f64, h.y as f64 / h.den as f64)
}

fn polygon(points: &[(i64, i64)]) -> Vec<Segment> {
    let mut out = Vec::new();
    for i in 0..points.len() {
        let (ax, ay) = points[i];
        let (bx, by) = points[(i + 1) % points.len()];
        out.push(seg(ax, ay, bx, by));
    }
    out
}

fn near(a: (f64, f64), b: (f64, f64)) -> bool {
    (a.0 - b.0).abs() < 1e-3 && (a.1 - b.1).abs() < 1e-3
}

#[test]
fn square_seen_from_its_centre() {
    let sight = Sight::new(polygon(&[(0, 0), (2, 0), (2, 2), (0, 2)]), vec![]);
    let out = sight.sight_polygon(pt(1, 1));
    assert_eq!(out.len(), 8);
    let corners = [(0.0, 0.0), (2.0, 0.0), (2.0, 2.0), (0.0, 2.0)];
    for (i, h) in out.iter().enumerate() {
        assert!(near(coords(h), corners[i / 2]), "{:?} at {}", coords(h), i);
    }
    // the corner (2, 0): first the hit on the bottom edge, then on the right one
    let k: i128 = 100000;
    assert_eq!(out[2].y, 0);
    assert_eq!(out[2].x * (k + 1), 2 * k * out[2].den);
    assert_eq!(out[3].x, 2 * out[3].den);
    assert_eq!(out[3].y * (k + 1), 2 * out[3].den);
}

#[test]
fn convex_triangle_gives_its_corners_in_angle_order() {
    let sight = Sight::new(polygon(&[(0, 0), (12, 0), (0, 12)]), vec![]);
    let out = sight.sight_polygon(pt(2, 2));
    assert_eq!(out.len(), 6);
    // angles from (2, 2): (0, 0) at -135 deg, (12, 0) at about -11 deg, (0, 12) at about 101 deg
    let corners = [(0.0, 0.0), (12.0, 0.0), (0.0, 12.0)];
    for (i, h) in out.iter().enumerate() {
        assert!(near(coords(h), corners[i / 2]), "{:?} at {}", coords(h), i);
    }
}

#[test]
fn border_blocks_like_an_occluder() {
    let inner = vec![seg(4, -1, 4, 1)];
    let border = polygon(&[(-10, -10), (10, -10), (10, 10), (-10, 10)]);
    let sight = Sight::new(inner, border);
    assert_eq!(sight.unique_points().len(), 6);
    let out = sight.sight_polygon(pt(0, 0));
    assert_eq!(out.len(), 12);
    for h in out.iter() {
        let (x, y) = coords(h);
        assert!(x.abs() <= 10.0 + 1e-9 && y.abs() <= 10.0 + 1e-9);
    }
    // the probes past the ends of the short wall stop at the wall's ends or reach the border
    let near_wall = out.iter().filter(|h| near(coords(h), (4.0, 1.0)) || near(coords(h), (4.0, -1.0))).count();
    assert_eq!(near_wall, 2);
}

#[test]
fn same_direction_segment_is_not_hit() {
    assert_eq!(get_intersection(&ray(0, 0, 1, 0), &seg(2, 0, 3, 0)), None);
    assert_eq!(get_intersection(&ray(0, 0, 2, 2), &seg(1, 1, 4, 4)), None);
}

#[test]
fn opposite_direction_segment_is_not_hit() {
    assert_eq!(get_intersection(&ray(0, 0, 1, 0), &seg(3, 0, 2, 0)), None);
}

#[test]
fn degenerate_segment_is_not_hit() {
    assert_eq!(get_intersection(&ray(0, 0, 1, 0), &seg(3, 0, 3, 0)), None);
}

#[test]
fn segment_parameter_outside_unit_range_is_rejected() {
    // the line of the segment crosses the ray at (5, 0), half a length before its start
    assert_eq!(get_intersection(&ray(0, 0, 1, 0), &seg(5, 1, 5, 3)), None);
    // and one and a half lengths past its start
    assert_eq!(get_intersection(&ray(0, 0, 1, 0), &seg(5, -3, 5, -1)), None);
}

#[test]
fn segment_behind_the_ray_is_rejected() {
    assert_eq!(get_intersection(&ray(0, 0, 1, 0), &seg(-5, -1, -5, 1)), None);
}

#[test]
fn crossing_segment_is_hit_exactly() {
    let h = get_intersection(&ray(0, 0, 1, 0), &seg(5, -1, 5, 1)).unwrap();
    assert_eq!(coords(&h), (5.0, 0.0));
    assert_eq!(h.param as f64 / h.param_den as f64, 5.0);
    let h = get_intersection(&ray(1, 1, 2, 1), &seg(5, 0, 5, 10)).unwrap();
    assert_eq!(coords(&h), (5.0, 3.0));
    assert_eq!(h.param * 2, h.param_den * 4);
}

#[test]
fn segment_end_is_hit() {
    let h = get_intersection(&ray(0, 0, 1, 0), &seg(5, 0, 5, 4)).unwrap();
    assert_eq!(coords(&h), (5.0, 0.0));
}

#[test]
fn scaled_ray_origin() {
    let r = Ray { ox: 1, oy: 0, scale: 2, dx: 1, dy: 0 };
    let h = get_intersection(&r, &seg(3, -1, 3, 1)).unwrap();
    assert_eq!(coords(&h), (3.0, 0.0));
    assert_eq!(h.param as f64 / h.param_den as f64, 5.0);
}

#[test]
fn closest_of_several_walls() {
    let walls = vec![seg(3, -1, 3, 1), seg(1, -1, 1, 1), seg(5, -1, 5, 1)];
    let h = closest_intersect(&walls, &ray(0, 0, 1, 0)).unwrap();
    assert_eq!(coords(&h), (1.0, 0.0));
    assert_eq!(h.param, h.param_den);
}

#[test]
fn closest_with_no_hit() {
    let walls = vec![seg(3, 1, 3, 2), seg(-1, -1, -1, 1)];
    assert_eq!(closest_intersect(&walls, &ray(0, 0, 1, 0)), None);
    assert_eq!(closest_intersect(&vec![], &ray(0, 0, 1, 0)), None);
}

#[test]
fn closest_prefers_the_earlier_of_equal_hits() {
    // both segments end at (2, 0); the first one given is kept
    let walls = vec![seg(2, 0, 2, 3), seg(2, -3, 2, 0)];
    let h = closest_intersect(&walls, &ray(0, 0, 1, 0)).unwrap();
    assert_eq!(h, get_intersection(&ray(0, 0, 1, 0), &walls[0]).unwrap());
    assert_eq!(coords(&h), (2.0, 0.0));
}

#[test]
fn repeated_queries_agree() {
    let sight = Sight::new(
        polygon(&[(0, 0), (7, 1), (9, 6), (2, 8)]),
        polygon(&[(-20, -20), (20, -20), (20, 20), (-20, 20)]),
    );
    assert_eq!(sight.sight_polygon(pt(4, 4)), sight.sight_polygon(pt(4, 4)));
    assert_eq!(sight.sight_polygon(pt(-15, 3)), sight.sight_polygon(pt(-15, 3)));
    assert_eq!(sight.isometric_sight(pt(3, 1)), sight.isometric_sight(pt(3, 1)));
}

#[test]
fn parallel_rays_on_a_rectangle() {
    let sight = Sight::new(polygon(&[(0, 0), (4, 0), (4, 2), (0, 2)]), vec![]);
    let out = sight.isometric_sight(pt(1, 0));
    // probes just outside the rectangle miss; those starting on a vertical edge hit it at once
    assert_eq!(out.len(), 4);
    // the normal of (1, 0) is (0, -1): projections are -y, and must not decrease
    for w in out.windows(2) {
        let (_, y0) = coords(&w[0]);
        let (_, y1) = coords(&w[1]);
        assert!(-y0 <= -y1);
    }
    let expected = [(4.0, 2.0 - 1e-4), (0.0, 2.0 - 1e-4), (0.0, 1e-4), (4.0, 1e-4)];
    for (h, e) in out.iter().zip(expected.iter()) {
        let (x, y) = coords(h);
        assert!((x - e.0).abs() < 1e-12 && (y - e.1).abs() < 1e-12, "{:?}", (x, y));
    }
}

#[test]
fn parallel_rays_diagonal() {
    let sight = Sight::new(polygon(&[(0, 0), (4, 0), (4, 4), (0, 4)]), vec![]);
    let out = sight.isometric_sight(pt(1, 1));
    assert!(!out.is_empty());
    for w in out.windows(2) {
        let (x0, y0) = coords(&w[0]);
        let (x1, y1) = coords(&w[1]);
        assert!(x0 - y0 <= x1 - y1 + 1e-12);
    }
}

#[test]
fn parallel_rays_with_no_direction_hit_nothing() {
    let sight = Sight::new(polygon(&[(0, 0), (4, 0), (4, 2), (0, 2)]), vec![]);
    assert!(sight.isometric_sight(pt(0, 0)).is_empty());
}

#[test]
fn endpoints_are_deduplicated_in_order() {
    let segs = polygon(&[(0, 0), (2, 0), (2, 2), (0, 2)]);
    assert_eq!(unique_points_from_segments(&segs), vec![pt(0, 0), pt(2, 0), pt(2, 2), pt(0, 2)]);
    // points that share x but not y stay apart
    let segs = vec![seg(1, 0, 1, 5), seg(1, 5, 1, 0)];
    assert_eq!(unique_points_from_segments(&segs), vec![pt(1, 0), pt(1, 5)]);
    assert!(unique_points_from_segments(&vec![]).is_empty());
}

#[test]
fn vertex_at_the_source_is_hit_at_once() {
    // every probe from a segment's own end meets that segment at its start
    let sight = Sight::new(vec![seg(0, 0, 0, 5), seg(5, -5, 5, 5)], vec![]);
    let out = sight.sight_polygon(pt(0, 0));
    assert_eq!(out.len(), 8);
    assert!(out.iter().filter(|h| h.x == 0 && h.y == 0).count() >= 2);
    assert!(out.iter().all(|h| h.param >= 0));
}

#[test]
fn empty_scene_sees_nothing() {
    let sight = Sight::new(vec![], vec![]);
    assert!(sight.sight_polygon(pt(0, 0)).is_empty());
    assert!(sight.isometric_sight(pt(1, 0)).is_empty());
}

#[test]
fn close_vertices_follow_their_probe_angles() {
    let m: i64 = 1_000_000;
    let sight = Sight::new(polygon(&[(m, 0), (m, 10), (-m, m), (-m, -m)]), vec![]);
    let out = sight.sight_polygon(pt(0, 0));
    assert_eq!(out.len(), 8);
    // the clockwise probe of (m, 10) runs along the x axis and meets (m, 0);
    // the counterclockwise probe of (m, 0) meets (m, 10): angle 0 comes first
    assert_eq!(out[3].x, (m as i128) * out[3].den);
    assert_eq!(out[3].y, 0);
    assert_eq!(out[4].x, (m as i128) * out[4].den);
    assert_eq!(out[4].y, 10 * out[4].den);
    let angles: Vec<f64> = out.iter().map(|h| {
        let (x, y) = coords(h);
        y.atan2(x)
    }).collect();
    for w in angles.windows(2) {
        assert!(w[0] <= w[1], "{:?}", angles);
    }
}

#[test]
fn probe_turned_past_the_negative_x_axis_comes_last() {
    // from (0, 0) the vertex (-10, 0) lies at angle pi: its counterclockwise
    // probe points just below the negative x axis, at pi plus the turn
    let sight = Sight::new(polygon(&[(-10, 0), (10, -10), (10, 10)]), vec![]);
    let out = sight.sight_polygon(pt(0, 0));
    assert_eq!(out.len(), 6);
    let (x, y) = coords(&out[5]);
    assert!(near((x, y), (-10.0, 0.0)));
    assert!(y < 0.0);
    let (x, y) = coords(&out[4]);
    assert!(near((x, y), (-10.0, 0.0)));
    assert!(y > 0.0);
    let (x, y) = coords(&out[0]);
    assert!(near((x, y), (10.0, -10.0)));
}

#[test]
fn unit_square_at_a_thousand_cells_per_unit() {
    let sight = Sight::new(polygon(&[(0, 0), (1000, 0), (1000, 1000), (0, 1000)]), vec![]);
    let out = sight.sight_polygon(pt(500, 500));
    assert_eq!(out.len(), 8);
    let corners = [(0.0, 0.0), (1.0, 0.0), (1.0, 1.0), (0.0, 1.0)];
    for (i, h) in out.iter().enumerate() {
        let (x, y) = coords(h);
        let (x, y) = (x / 1000.0, y / 1000.0);
        let c = corners[i / 2];
        assert!((x - c.0).abs() < 1e-4 && (y - c.1).abs() < 1e-4, "{:?} at {}", (x, y), i);
        // every point lies on the square's boundary
        assert!(x == 0.0 || x == 1.0 || y == 0.0 || y == 1.0);
    }
}
