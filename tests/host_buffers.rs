use sight::{Point, Segment, Sight, WasmSight};

fn square_components() -> Vec<i64> {
    vec![0, 0, 2, 0, 2, 0, 2, 2, 2, 2, 0, 2, 0, 2, 0, 0]
}

#[test]
fn fresh_binding_is_empty() {
    let w = WasmSight::new();
    assert_eq!(w.polygon_size(), 0);
    assert!(w.polygon().is_empty());
}

#[test]
fn query_before_a_scene_fails() {
    let mut w = WasmSight::new();
    assert!(!w.generate_polygon(1, 1));
    assert!(!w.generate_isometric_polygon(1, 0));
    assert_eq!(w.polygon_size(), 0);
}

#[test]
fn short_buffer_is_refused() {
    let mut w = WasmSight::new();
    assert!(!w.initialize_sight(&square_components(), 5));
    assert!(!w.generate_polygon(1, 1));
}

#[test]
fn coordinate_out_of_range_is_refused() {
    let mut w = WasmSight::new();
    let mut c = square_components();
    c[5] = 3_000_000;
    assert!(!w.initialize_sight(&c, 4));
    assert!(!w.generate_polygon(1, 1));
}

#[test]
fn buffer_round_trip_matches_direct_query() {
    let mut w = WasmSight::new();
    assert!(w.initialize_sight(&square_components(), 4));
    assert!(w.generate_polygon(1, 1));
    assert_eq!(w.polygon_size(), 8);
    let c = square_components();
    let segs: Vec<Segment> = (0..4)
        .map(|i| Segment {
            a: Point { x: c[4 * i], y: c[4 * i + 1] },
            b: Point { x: c[4 * i + 2], y: c[4 * i + 3] },
        })
        .collect();
    let direct = Sight::new(segs, vec![]).sight_polygon(Point { x: 1, y: 1 });
    let flat: Vec<i128> = direct.iter().flat_map(|h| vec![h.x, h.y, h.den]).collect();
    assert_eq!(w.polygon(), &flat);
}

#[test]
fn out_of_range_source_keeps_previous_boundary() {
    let mut w = WasmSight::new();
    assert!(w.initialize_sight(&square_components(), 4));
    assert!(w.generate_polygon(1, 1));
    let before = w.polygon().clone();
    assert!(!w.generate_polygon(5_000_000, 1));
    assert_eq!(w.polygon(), &before);
}

#[test]
fn isometric_through_buffers() {
    let mut w = WasmSight::new();
    assert!(w.initialize_sight(&square_components(), 4));
    assert!(w.generate_isometric_polygon(1, 0));
    assert_eq!(w.polygon_size(), 4);
    assert!(!w.generate_isometric_polygon(1, -4_000_000));
    assert_eq!(w.polygon_size(), 4);
}
