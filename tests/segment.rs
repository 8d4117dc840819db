use world_builder::raster::{LabelGrid, Raster, Rgba};
use world_builder::segment::{
    fill, fresh_marker, pick_marker, segment, Connectivity, TRANSPARENT_LABEL,
};

const CLEAR: Rgba = Rgba { r: 0, g: 0, b: 0, a: 0 };
const SOLID: Rgba = Rgba { r: 10, g: 20, b: 30, a: 255 };

fn raster(width: u32, height: u32, opaque: &[(u32, u32)]) -> Raster {
    let mut pixels = vec![CLEAR; (width * height) as usize];
    for &(x, y) in opaque {
        pixels[(y * width + x) as usize] = SOLID;
    }
    Raster::new(width, height, pixels).unwrap()
}

fn block(x0: u32, y0: u32, w: u32, h: u32) -> Vec<(u32, u32)> {
    let mut v = Vec::new();
    for x in x0..x0 + w {
        for y in y0..y0 + h {
            v.push((x, y));
        }
    }
    v
}

#[test]
fn full_three_by_three_is_one_island() {
    let r = raster(3, 3, &block(0, 0, 3, 3));
    let seg = segment(&r, Connectivity::Four);
    assert_eq!(seg.islands.len(), 1);
    let isl = &seg.islands[0];
    assert_eq!(isl.pixel_coordinates.len(), 9);
    let mut sorted = isl.pixel_coordinates.clone();
    sorted.sort();
    assert_eq!(sorted, block(0, 0, 3, 3));
    assert_eq!(isl.top_right, (2, 2));
    assert_eq!(isl.bottom_left, (0, 0));
    assert_eq!(isl.marker, Rgba { r: 255, g: 0, b: 0, a: 255 });
}

#[test]
fn two_blocks_are_two_islands() {
    let mut opaque = block(1, 1, 2, 2);
    opaque.extend(block(6, 6, 2, 2));
    let r = raster(10, 10, &opaque);
    let seg = segment(&r, Connectivity::Four);
    assert_eq!(seg.islands.len(), 2);
    assert_eq!(seg.islands[0].pixel_coordinates.len(), 4);
    assert_eq!(seg.islands[1].pixel_coordinates.len(), 4);
    assert_ne!(seg.islands[0].marker, seg.islands[1].marker);
    let white = Rgba { r: 255, g: 255, b: 255, a: 255 };
    assert!(seg.islands.iter().all(|i| i.marker != white && i.marker.a == 255));
    assert_eq!(seg.islands[0].id, 0);
    assert_eq!(seg.islands[1].id, 1);
    assert_eq!(seg.islands[1].top_right, (7, 7));
    assert_eq!(seg.islands[1].bottom_left, (6, 6));
}

#[test]
fn islands_partition_the_opaque_pixels() {
    // A ring, a diagonal pair and a lone pixel.
    let mut opaque = vec![(1, 1), (2, 1), (3, 1), (1, 2), (3, 2), (1, 3), (2, 3), (3, 3)];
    opaque.extend([(6, 6), (7, 7), (9, 0)]);
    let r = raster(10, 10, &opaque);
    let seg = segment(&r, Connectivity::Four);
    assert_eq!(seg.islands.len(), 4);
    let mut all: Vec<(u32, u32)> = seg
        .islands
        .iter()
        .flat_map(|i| i.pixel_coordinates.iter().copied())
        .collect();
    all.sort();
    let mut expected = opaque.clone();
    expected.sort();
    assert_eq!(all, expected);
    for (k, isl) in seg.islands.iter().enumerate() {
        for &(x, y) in &isl.pixel_coordinates {
            assert_eq!(seg.labels.cells[(y * 10 + x) as usize], k + 2);
        }
    }
    assert_eq!(seg.labels.cells[(2 * 10 + 2) as usize], TRANSPARENT_LABEL);
}

#[test]
fn eight_connectivity_joins_diagonals() {
    let r = raster(4, 4, &[(0, 0), (1, 1), (2, 2), (3, 0)]);
    assert_eq!(segment(&r, Connectivity::Four).islands.len(), 4);
    let seg = segment(&r, Connectivity::Eight);
    assert_eq!(seg.islands.len(), 2);
}

#[test]
fn transparent_raster_has_no_islands() {
    let r = raster(5, 4, &[]);
    let seg = segment(&r, Connectivity::Four);
    assert!(seg.islands.is_empty());
    assert!(seg.labels.cells.iter().all(|&c| c == TRANSPARENT_LABEL));
}

#[test]
fn single_pixel_raster() {
    let r = raster(1, 1, &[(0, 0)]);
    let seg = segment(&r, Connectivity::Four);
    assert_eq!(seg.islands.len(), 1);
    assert_eq!(seg.islands[0].pixel_coordinates, vec![(0, 0)]);
}

#[test]
fn malformed_rasters_are_rejected() {
    assert!(Raster::new(0, 3, vec![]).is_none());
    assert!(Raster::new(3, 0, vec![]).is_none());
    assert!(Raster::new(2, 2, vec![SOLID; 3]).is_none());
    assert!(Raster::new(2, 2, vec![SOLID; 4]).is_some());
}

#[test]
fn fill_relabels_the_connected_region() {
    // 1 1 0
    // 0 1 0
    // 1 0 1
    let cells = vec![1, 1, 0, 0, 1, 0, 1, 0, 1];
    let mut grid = LabelGrid { width: 3, height: 3, cells };
    let (pixels, top_right, bottom_left) = fill(1, 1, &mut grid, 7, Connectivity::Four);
    let mut sorted = pixels.clone();
    sorted.sort();
    assert_eq!(sorted, vec![(0, 0), (1, 0), (1, 1)]);
    assert_eq!(pixels[0], (1, 1));
    assert_eq!(top_right, (1, 1));
    assert_eq!(bottom_left, (0, 0));
    assert_eq!(grid.cells, vec![7, 7, 0, 0, 7, 0, 1, 0, 1]);
}

#[test]
fn fill_with_the_seed_label_changes_nothing() {
    let mut grid = LabelGrid { width: 2, height: 1, cells: vec![4, 4] };
    let (pixels, _, _) = fill(0, 0, &mut grid, 4, Connectivity::Four);
    assert!(pixels.is_empty());
    assert_eq!(grid.cells, vec![4, 4]);
}

#[test]
fn drawn_markers_are_fresh_and_opaque() {
    let used = vec![Rgba { r: 255, g: 0, b: 0, a: 255 }];
    for _ in 1..50 {
        let m = fresh_marker(&used);
        assert_eq!(m.a, 255);
        assert!(m.r >= 1 && m.r < 255);
        assert!(m.g >= 1 && m.g < 255);
        assert!(m.b >= 1 && m.b < 255);
        assert!(!used.contains(&m));
    }
}

#[test]
fn many_islands_get_distinct_markers() {
    let mut opaque = Vec::new();
    for x in (0..40).step_by(2) {
        for y in (0..40).step_by(2) {
            opaque.push((x, y));
        }
    }
    let r = raster(40, 40, &opaque);
    let seg = segment(&r, Connectivity::Four);
    assert_eq!(seg.islands.len(), 400);
    for i in 0..seg.islands.len() {
        for j in i + 1..seg.islands.len() {
            assert_ne!(seg.islands[i].marker, seg.islands[j].marker);
        }
    }
}

#[test]
fn recolored_copy_paints_islands_and_keeps_the_rest() {
    let mut opaque = block(0, 0, 2, 2);
    opaque.push((4, 3));
    let r = raster(5, 4, &opaque);
    let seg = segment(&r, Connectivity::Four);
    assert_eq!(seg.islands.len(), 2);
    assert_eq!((seg.recolored.width, seg.recolored.height), (5, 4));
    for y in 0..4u32 {
        for x in 0..5u32 {
            let i = (y * 5 + x) as usize;
            let label = seg.labels.cells[i];
            if opaque.contains(&(x, y)) {
                assert_eq!(seg.recolored.pixels[i], seg.islands[label - 2].marker);
            } else {
                assert_eq!(seg.recolored.pixels[i], CLEAR);
            }
        }
    }
    // The caller's raster is untouched.
    assert_eq!(r.pixels[0], SOLID);
}

#[test]
fn neighbouring_opaque_pixels_share_an_island() {
    let opaque = vec![(0, 0), (1, 0), (1, 1), (3, 3), (2, 3), (0, 3)];
    let r = raster(4, 4, &opaque);
    let seg = segment(&r, Connectivity::Four);
    let label = |x: u32, y: u32| seg.labels.cells[(y * 4 + x) as usize];
    assert_eq!(label(0, 0), label(1, 0));
    assert_eq!(label(1, 0), label(1, 1));
    assert_eq!(label(3, 3), label(2, 3));
    assert_ne!(label(0, 3), label(2, 3));
    assert_ne!(label(0, 0), label(3, 3));
    assert_eq!(seg.islands.len(), 3);
}

#[test]
fn picking_takes_the_first_unused_candidate() {
    let red = Rgba { r: 255, g: 0, b: 0, a: 255 };
    let a = Rgba { r: 1, g: 2, b: 3, a: 255 };
    let b = Rgba { r: 4, g: 5, b: 6, a: 255 };
    let used = vec![red, a];
    assert_eq!(pick_marker(&vec![a, red, b, a], &used), b);
    assert_eq!(pick_marker(&vec![b], &vec![]), b);
}

#[test]
fn picking_falls_back_to_the_first_unused_colour() {
    let a = Rgba { r: 1, g: 2, b: 3, a: 255 };
    let black = Rgba { r: 0, g: 0, b: 0, a: 255 };
    assert_eq!(pick_marker(&vec![a, a], &vec![a]), black);
    assert_eq!(pick_marker(&vec![], &vec![]), black);
    let used = vec![black, Rgba { r: 0, g: 0, b: 1, a: 255 }, a];
    assert_eq!(pick_marker(&vec![a], &used), Rgba { r: 0, g: 0, b: 2, a: 255 });
}

#[test]
fn fill_with_the_seed_label_returns_an_empty_box() {
    let mut grid = LabelGrid { width: 2, height: 2, cells: vec![3, 3, 3, 3] };
    let (pixels, top_right, bottom_left) = fill(1, 1, &mut grid, 3, Connectivity::Eight);
    assert!(pixels.is_empty());
    assert_eq!((top_right, bottom_left), ((0, 0), (0, 0)));
}
