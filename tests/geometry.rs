use world_builder::geometry::{Coord, Line, Shape, Slope, Vertex, PRECISION};
use world_builder::numeric::UNIT;

fn v(x: i32, y: i32) -> Vertex {
    Vertex::from_vector(Coord { x, y })
}

fn line(x1: i32, y1: i32, x2: i32, y2: i32) -> Line {
    Line::new(v(x1, y1), v(x2, y2))
}

#[test]
fn parallel_lines_do_not_intersect() {
    let a = line(0, 0, UNIT, 0);
    let b = line(0, UNIT, UNIT, UNIT);
    assert_eq!(a.get_intersection(b), None);
    assert_eq!(b.get_intersection(a), None);
}

#[test]
fn diagonals_cross_in_the_middle() {
    let a = line(0, 0, 2 * UNIT, 2 * UNIT);
    let b = line(0, 2 * UNIT, 2 * UNIT, 0);
    assert_eq!(a.get_intersection(b), Some(v(UNIT, UNIT)));
    let small_a = line(0, 0, 2, 2);
    let small_b = line(0, 2, 2, 0);
    assert_eq!(small_a.get_intersection(small_b), Some(v(1, 1)));
}

#[test]
fn intersection_is_symmetric() {
    let pairs = [
        (line(0, 0, 2 * UNIT, 2 * UNIT), line(0, 2 * UNIT, 2 * UNIT, 0)),
        (line(-3, 7, 11, -5), line(-9, -9, 13, 4)),
        (line(0, 0, 10, 1), line(3, -4, 4, 8)),
        (line(0, 0, 10, 0), line(20, -5, 20, 5)),
    ];
    for (a, b) in pairs {
        assert_eq!(a.get_intersection(b), b.get_intersection(a));
    }
}

#[test]
fn equal_slopes_never_intersect() {
    // Collinear and overlapping.
    let a = line(0, 0, 4, 4);
    let b = line(2, 2, 6, 6);
    assert!(a.has_same_slope(&b));
    assert_eq!(a.get_intersection(b), None);
    // Both vertical.
    let c = line(1, 0, 1, 5);
    let d = line(1, 3, 1, 9);
    assert!(c.has_same_slope(&d));
    assert_eq!(c.get_intersection(d), None);
}

#[test]
fn crossing_outside_either_segment_is_none() {
    // The lines through these cross at (5, 5), beyond both segments.
    let a = line(0, 0, 2, 2);
    let b = line(10, 0, 8, 2);
    assert_eq!(a.get_intersection(b), None);
}

#[test]
fn touching_at_an_end_point_counts() {
    let a = line(0, 0, 4, 0);
    let b = line(4, 0, 4, 4);
    assert_eq!(a.get_intersection(b), Some(v(4, 0)));
}

#[test]
fn crossing_is_rounded_to_nearest() {
    // The lines cross at (1.5, 1.5).
    let a = line(0, 0, 3, 3);
    let b = line(0, 3, 3, 0);
    assert_eq!(a.get_intersection(b), Some(v(2, 2)));
}

#[test]
fn point_on_segment_test() {
    let l = line(0, 0, 10 * UNIT, 0);
    assert!(l.is_point_on_line(Coord { x: 3 * UNIT, y: 0 }));
    assert!(l.is_point_on_line(Coord { x: 0, y: 0 }));
    assert!(!l.is_point_on_line(Coord { x: 11 * UNIT, y: 0 }));
    assert!(!l.is_point_on_line(Coord { x: 3 * UNIT, y: UNIT }));
    assert!(l.is_point_on_line_within(Coord { x: 5 * UNIT, y: UNIT }, 60000));
    assert!(!l.is_point_on_line_within(Coord { x: 5 * UNIT, y: UNIT }, 12000));
}

#[test]
fn point_on_segment_is_decided_exactly() {
    let l = line(0, 0, 1, 0);
    // sqrt 13 + sqrt 20 - 1 is about 7.08: not below 7.
    assert!(!l.is_point_on_line(Coord { x: -3, y: -2 }));
    // sqrt 13 + sqrt 18 - 1 is about 6.85.
    assert!(l.is_point_on_line(Coord { x: -2, y: -3 }));
    assert!(l.is_point_on_line(Coord { x: 1, y: 0 }));
    // 5 + 5 - 0 is exactly 10.
    let dot = line(0, 0, 0, 0);
    assert!(!dot.is_point_on_line_within(Coord { x: 3, y: 4 }, 10));
    assert!(dot.is_point_on_line_within(Coord { x: 3, y: 4 }, 11));
}

#[test]
fn length_rise_run_and_slope() {
    let l = line(0, 0, 3 * UNIT, 4 * UNIT);
    assert_eq!(l.get_length(), 5 * UNIT as i64);
    assert_eq!(l.get_rise(), 4 * UNIT as i64);
    assert_eq!(l.get_run(), 3 * UNIT as i64);
    assert_eq!(l.get_rise_and_run(), (4 * UNIT as i64, 3 * UNIT as i64));
    assert_eq!(line(0, 0, 2, 4).get_slope(), Slope::Finite(2, 1));
    assert_eq!(line(0, 0, 2, 4).get_slope(), Slope::Finite(4, 2));
    assert_eq!(line(0, 0, -2, 1).get_slope(), Slope::Finite(-1, 2));
    assert_eq!(line(5, 0, 5, 9).get_slope(), Slope::Vertical);
    assert_eq!(line(0, 0, 1, 1).get_length(), 1);
    assert_eq!(line(0, 0, 0, 0).get_length(), 0);
}

#[test]
fn extreme_coordinates_do_not_overflow() {
    let a = line(i32::MIN, i32::MIN, i32::MAX, i32::MAX);
    let b = line(i32::MIN, i32::MAX, i32::MAX, i32::MIN);
    assert_eq!(a.get_intersection(b), Some(v(0, 0)));
    assert_eq!(a.get_rise(), u32::MAX as i64);
    assert!(a.get_length() > 0);
}

#[test]
fn vertex_accessors_and_tolerant_equality() {
    let p = Vertex { position: Coord { x: 3, y: -7 }, tex_coords: Coord { x: 0, y: 0 } };
    assert_eq!(p.get_x(), 3);
    assert_eq!(p.get_y(), -7);
    assert_eq!(p.as_vector(), Coord { x: 3, y: -7 });
    let near = v(3 + PRECISION as i32, -7);
    let far = v(3, -7 - PRECISION as i32 - 1);
    assert!(p.eq(near));
    assert!(!p.eq(far));
}

#[test]
fn line_from_rise_and_run() {
    let l = Line::new_from_rise_run(v(1, 2), 10, -4);
    assert_eq!(l.get_start(), v(1, 2));
    assert_eq!(l.get_end(), v(-3, 12));
}

#[test]
fn fallback_rectangle() {
    let s = Shape::new_rectangle(2 * UNIT);
    let pos: Vec<(i32, i32)> = s.vertices.iter().map(|v| (v.position.x, v.position.y)).collect();
    let tex: Vec<(i32, i32)> = s.vertices.iter().map(|v| (v.tex_coords.x, v.tex_coords.y)).collect();
    let a = 2 * UNIT;
    assert_eq!(
        pos,
        vec![(-a, UNIT), (-a, -UNIT), (a, -UNIT), (a, -UNIT), (a, UNIT), (-a, UNIT)]
    );
    assert_eq!(tex, vec![(0, UNIT), (0, 0), (UNIT, 0), (UNIT, 0), (UNIT, UNIT), (0, UNIT)]);
}

#[test]
fn nearly_flat_slopes_are_told_apart() {
    let a = line(0, 0, 1048576, 1);
    let b = line(0, 0, 1048576, 0);
    assert_ne!(a.get_slope(), b.get_slope());
    assert_eq!(a.get_intersection(b), Some(v(0, 0)));
    let c = line(5, 5, 5 + 1048576, 6);
    assert_eq!(a.get_slope(), c.get_slope());
    assert_eq!(a.get_intersection(c), None);
    assert_eq!(line(3, 0, 3, 9).get_slope(), line(7, 9, 7, 1).get_slope());
}
