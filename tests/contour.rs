use world_builder::contour::{contour_lines, walk_contour};
use world_builder::geometry::Coord;
use world_builder::numeric::UNIT;
use world_builder::raster::{Raster, Rgba};
use world_builder::segment::{segment, Connectivity};

const CLEAR: Rgba = Rgba { r: 0, g: 0, b: 0, a: 0 };
const SOLID: Rgba = Rgba { r: 9, g: 9, b: 9, a: 255 };

fn raster(width: u32, height: u32, opaque: &[(u32, u32)]) -> Raster {
    let mut pixels = vec![CLEAR; (width * height) as usize];
    for &(x, y) in opaque {
        pixels[(y * width + x) as usize] = SOLID;
    }
    Raster::new(width, height, pixels).unwrap()
}

#[test]
fn walk_covers_a_full_square() {
    let mut opaque = Vec::new();
    for x in 0..3 {
        for y in 0..3 {
            opaque.push((x, y));
        }
    }
    let r = raster(3, 3, &opaque);
    let seg = segment(&r, Connectivity::Four);
    let path = walk_contour(&seg.labels, 2, (0, 0));
    assert_eq!(
        path,
        vec![(0, 0), (0, 1), (0, 2), (1, 2), (2, 2), (2, 1), (2, 0), (1, 0), (1, 1)]
    );
    let lines = contour_lines(&r, false, &path);
    assert_eq!(lines.len(), 9);
    assert_eq!(lines[8].end, lines[0].start);
    for l in &lines {
        for c in [l.start.tex_coords, l.end.tex_coords] {
            assert!(-UNIT <= c.x && c.x <= UNIT && -UNIT <= c.y && c.y <= UNIT);
        }
    }
}

#[test]
fn single_pixel_has_an_empty_contour() {
    let r = raster(1, 1, &[(0, 0)]);
    let seg = segment(&r, Connectivity::Four);
    let path = walk_contour(&seg.labels, 2, (0, 0));
    assert_eq!(path, vec![(0, 0)]);
    assert!(contour_lines(&r, true, &path).is_empty());
}

#[test]
fn walk_stops_at_a_dead_end() {
    let r = raster(3, 1, &[(0, 0), (1, 0), (2, 0)]);
    let seg = segment(&r, Connectivity::Four);
    let path = walk_contour(&seg.labels, 2, (1, 0));
    assert_eq!(path, vec![(1, 0), (2, 0)]);
    let lines = contour_lines(&r, false, &path);
    assert_eq!(lines.len(), 2);
    // Column 1 of 3 maps to -1/3, rounded down; row 0 of 1 to the top edge.
    assert_eq!(lines[0].start.position, Coord { x: -21846, y: UNIT });
    assert_eq!(lines[1].end.position, Coord { x: -21846, y: UNIT });
    assert_eq!(lines[0].end.position, Coord { x: 21845, y: UNIT });
}

#[test]
fn walk_keeps_to_its_label() {
    let r = raster(4, 1, &[(0, 0), (1, 0), (3, 0)]);
    let seg = segment(&r, Connectivity::Four);
    let label = seg.labels.cells[0];
    let path = walk_contour(&seg.labels, label, (0, 0));
    assert_eq!(path, vec![(0, 0), (1, 0)]);
}
