use world_builder::geometry::{Coord, Line, Vertex};
use world_builder::numeric::UNIT;
use world_builder::simulate::{angle_less, rotate_around, simulate_ocean_flows, STEPS};

fn v(x: i32, y: i32) -> Vertex {
    Vertex::from_vector(Coord { x, y })
}

fn line(x1: i32, y1: i32, x2: i32, y2: i32) -> Line {
    Line::new(v(x1, y1), v(x2, y2))
}

#[test]
fn flow_without_boundaries_stays_put() {
    let horiz = line(-UNIT, 0, UNIT, 0);
    let flow = simulate_ocean_flows(horiz, vec![]);
    assert_eq!(flow.len(), STEPS);
    assert!(flow.iter().all(|l| *l == horiz));
}

#[test]
fn flow_turns_towards_a_crossed_boundary() {
    let horiz = line(0, 0, UNIT, 0);
    let wall = line(UNIT / 2, -UNIT, UNIT / 2, UNIT);
    let flow = simulate_ocean_flows(horiz, vec![line(5 * UNIT, 5 * UNIT, 6 * UNIT, 6 * UNIT), wall]);
    assert_eq!(flow.len(), STEPS);
    // Angle 0 is below the wall's pi / 2: turn anticlockwise by 0.01.
    assert_eq!(flow[0].start, horiz.start);
    assert_eq!(flow[0].end.position, Coord { x: 65533, y: 655 });
    assert_eq!(flow[1], rotate_around(&flow[0], 1));
    assert!(flow[1].end.position.y > flow[0].end.position.y);
}

#[test]
fn flow_turns_clockwise_towards_a_lower_angle() {
    let up = line(0, 0, 0, UNIT);
    let wall = line(-UNIT, UNIT / 2, UNIT, UNIT / 2);
    let flow = simulate_ocean_flows(up, vec![wall]);
    assert_eq!(flow[0].end.position, Coord { x: 655, y: 65533 });
}

#[test]
fn angles_compare_like_atan2() {
    assert!(angle_less((1, 0), (0, 1)));
    assert!(angle_less((0, -1), (1, 0)));
    assert!(angle_less((0, 1), (-1, 0)));
    assert!(angle_less((-1, -1), (1, -1)));
    assert!(!angle_less((-1, 0), (-1, 0)));
    assert!(!angle_less((1, 0), (0, 0)));
    assert!(!angle_less((0, 0), (1, 0)));
    assert!(angle_less((3, 1), (1, 3)));
    assert!(!angle_less((1, 3), (3, 1)));
}
