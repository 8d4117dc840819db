use world_builder::geometry::{Coord, Line, Vertex, PRECISION};
use world_builder::numeric::UNIT;
use world_builder::utils::{
    get_point_along_line, normal_point_to_point, vertices_from_line_points, vertices_from_lines,
};

fn v(x: i32, y: i32) -> Vertex {
    Vertex::from_vector(Coord { x, y })
}

fn line(x1: i32, y1: i32, x2: i32, y2: i32) -> Line {
    Line::new(v(x1, y1), v(x2, y2))
}

/// 0.1 world units.
const TENTH: i32 = 6554;

#[test]
fn ribbon_of_a_horizontal_segment() {
    let mesh = vertices_from_lines(TENTH, &vec![line(0, 0, UNIT, 0)]);
    assert_eq!(mesh.len(), 6);
    let half = UNIT as i64 / 20;
    for p in &mesh {
        let y = p.position.y as i64;
        assert!((y.abs() - half).abs() <= PRECISION);
        assert!(p.position.x >= 0 && p.position.x <= UNIT);
        assert_eq!(p.position, p.tex_coords);
    }
    assert_eq!(mesh[0].position, Coord { x: 0, y: -3277 });
    assert_eq!(mesh[1].position, Coord { x: 0, y: 3277 });
    assert_eq!(mesh[2].position, Coord { x: UNIT, y: 3277 });
    assert_eq!(mesh[3].position, Coord { x: UNIT, y: 3277 });
    assert_eq!(mesh[4].position, Coord { x: UNIT, y: -3277 });
    assert_eq!(mesh[5].position, Coord { x: 0, y: -3277 });
}

#[test]
fn six_vertices_per_segment_with_a_length() {
    let lines = vec![
        line(0, 0, UNIT, UNIT),
        line(5, 5, 5, 5),
        line(-UNIT, 0, -UNIT, 3 * UNIT),
        line(7, -2, 7, -2),
    ];
    assert_eq!(vertices_from_lines(TENTH, &lines).len(), 12);
    assert_eq!(vertices_from_lines(0, &lines).len(), 12);
    assert!(vertices_from_lines(TENTH, &vec![]).is_empty());
}

#[test]
fn zero_thickness_collapses_every_triangle() {
    let lines = vec![line(0, 0, UNIT, UNIT), line(3, 9, -40, 2)];
    let mesh = vertices_from_lines(0, &lines);
    assert_eq!(mesh.len(), 12);
    for quad in mesh.chunks(6) {
        assert_eq!(quad[0], quad[1]);
        assert_eq!(quad[3], quad[4]);
        assert_eq!(quad[2], quad[3]);
        assert_eq!(quad[0], quad[5]);
    }
    assert_eq!(mesh[0], v(0, 0));
    assert_eq!(mesh[2], v(UNIT, UNIT));
}

#[test]
fn diagonal_ribbon_offsets_along_the_normal() {
    // A 3-4-5 segment: the normal (4, -3) / 5 scaled by 5 units.
    let p = normal_point_to_point(Coord { x: 0, y: 0 }, 4 * UNIT as i64, 3 * UNIT as i64, 5 * UNIT);
    assert_eq!(p, Coord { x: 4 * UNIT, y: -3 * UNIT });
    let q = normal_point_to_point(Coord { x: 10, y: 10 }, 0, 0, 99);
    assert_eq!(q, Coord { x: 10, y: 10 });
}

#[test]
fn point_along_a_direction() {
    let p = get_point_along_line(Coord { x: 1, y: 1 }, 4, 3, 5, 10);
    assert_eq!(p, Coord { x: 7, y: 9 });
    // The length is computed from rise and run; the given one is not read.
    assert_eq!(get_point_along_line(Coord { x: 1, y: 1 }, 4, 3, 0, 10), p);
    assert_eq!(get_point_along_line(Coord { x: 0, y: 0 }, 0, 10, 5, 10), Coord { x: 10, y: 0 });
    let none = get_point_along_line(Coord { x: 1, y: 1 }, 0, 0, 5, 10);
    assert_eq!(none, Coord { x: 1, y: 1 });
    let clamped = get_point_along_line(Coord { x: i32::MAX, y: 0 }, 0, 1, 1, i32::MAX);
    assert_eq!(clamped, Coord { x: i32::MAX, y: 0 });
    let back = get_point_along_line(Coord { x: 0, y: 0 }, 4, 3, 5, -10);
    assert_eq!(back, Coord { x: -6, y: -8 });
}

#[test]
fn short_segments_get_a_full_width_ribbon() {
    // Offset 100 along the normal of a unit diagonal: 100 / sqrt 2 each way.
    let p = normal_point_to_point(Coord { x: 0, y: 0 }, 1, 1, 100);
    assert_eq!(p, Coord { x: 70, y: -70 });
}

#[test]
fn end_points_as_a_line_list() {
    let lines = vec![line(0, 1, 2, 3), line(4, 5, 6, 7)];
    assert_eq!(
        vertices_from_line_points(&lines),
        vec![v(0, 1), v(2, 3), v(4, 5), v(6, 7)]
    );
}
