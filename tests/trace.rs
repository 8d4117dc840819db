use world_builder::geometry::{Coord, Line};
use world_builder::numeric::UNIT;
use world_builder::raster::{Raster, Rgba};
use world_builder::segment::{segment, Connectivity};
use world_builder::trace::{generate_mesh_from_image, trace_boundaries};

const CLEAR: Rgba = Rgba { r: 0, g: 0, b: 0, a: 0 };
const SOLID: Rgba = Rgba { r: 1, g: 2, b: 3, a: 200 };

fn raster(width: u32, height: u32, opaque: &[(u32, u32)]) -> Raster {
    let mut pixels = vec![CLEAR; (width * height) as usize];
    for &(x, y) in opaque {
        pixels[(y * width + x) as usize] = SOLID;
    }
    Raster::new(width, height, pixels).unwrap()
}

fn in_square(c: Coord) -> bool {
    -UNIT <= c.x && c.x <= UNIT && -UNIT <= c.y && c.y <= UNIT
}

#[test]
fn lone_pixel_has_eight_edges() {
    let r = raster(4, 4, &[(2, 2)]);
    let lines = generate_mesh_from_image(&r, false);
    assert_eq!(lines.len(), 8);
    // Pixel (2, 2) of a 4 by 4 raster sits at the origin.
    for l in &lines {
        assert_eq!(l.start.position, Coord { x: 0, y: 0 });
        assert_eq!(l.start.tex_coords, Coord { x: 0, y: 0 });
    }
    // The first neighbour is the one below, then clockwise.
    assert_eq!(lines[0].end.position, Coord { x: 0, y: -UNIT / 2 });
    assert_eq!(lines[2].end.position, Coord { x: UNIT / 2, y: 0 });
    assert_eq!(lines[6].end.position, Coord { x: -UNIT / 2, y: 0 });
}

#[test]
fn full_raster_has_no_boundary() {
    let mut opaque = Vec::new();
    for x in 0..3 {
        for y in 0..3 {
            opaque.push((x, y));
        }
    }
    let r = raster(3, 3, &opaque);
    assert!(generate_mesh_from_image(&r, false).is_empty());
    let single = raster(1, 1, &[(0, 0)]);
    assert!(generate_mesh_from_image(&single, true).is_empty());
}

#[test]
fn interior_edges_stay_in_the_square() {
    let r = raster(6, 5, &[(1, 1), (2, 1), (2, 2), (4, 3), (5, 4)]);
    let lines = generate_mesh_from_image(&r, false);
    assert!(!lines.is_empty());
    for l in &lines {
        assert!(in_square(l.start.tex_coords));
        assert!(in_square(l.end.tex_coords));
        assert_eq!(l.start.position, l.start.tex_coords);
        assert_eq!(l.end.position, l.end.tex_coords);
    }
}

#[test]
fn corner_pixel_faces_only_neighbours_on_the_raster() {
    let r = raster(2, 2, &[(0, 0)]);
    let lines = generate_mesh_from_image(&r, false);
    assert_eq!(lines.len(), 3);
    for l in &lines {
        assert!(in_square(l.start.tex_coords));
        assert!(in_square(l.end.tex_coords));
        assert_eq!(l.start.tex_coords, Coord { x: -UNIT, y: UNIT });
    }
    // Below, below right, right.
    assert_eq!(lines[0].end.tex_coords, Coord { x: -UNIT, y: 0 });
    assert_eq!(lines[1].end.tex_coords, Coord { x: 0, y: 0 });
    assert_eq!(lines[2].end.tex_coords, Coord { x: 0, y: UNIT });
}

#[test]
fn aspect_stretches_positions_only() {
    let r = raster(4, 2, &[(3, 1)]);
    let plain = generate_mesh_from_image(&r, false);
    let wide = generate_mesh_from_image(&r, true);
    assert_eq!(plain.len(), wide.len());
    for (a, b) in plain.iter().zip(wide.iter()) {
        assert_eq!(a.start.tex_coords, b.start.tex_coords);
        assert_eq!(a.end.tex_coords, b.end.tex_coords);
        assert_eq!(a.start.position.y, b.start.position.y);
    }
    // Column 3 of 4: x = 0.5 unstretched, 1.0 at aspect 2.
    assert_eq!(plain[0].start.position.x, UNIT / 2);
    assert_eq!(wide[0].start.position.x, UNIT);
}

#[test]
fn tracing_segments_in_island_order() {
    let r = raster(5, 1, &[(0, 0), (1, 0), (3, 0)]);
    let seg = segment(&r, Connectivity::Four);
    let lines: Vec<Line> = trace_boundaries(&r, &seg.islands, false);
    let whole = generate_mesh_from_image(&r, false);
    assert_eq!(lines, whole);
    // Only the clear pixels (2, 0) and (4, 0) are faced.
    assert_eq!(lines.len(), 3);
}

#[test]
fn transparent_raster_has_no_lines() {
    let r = raster(3, 3, &[]);
    assert!(generate_mesh_from_image(&r, true).is_empty());
}
