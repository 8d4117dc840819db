//! The greedy contour walk: from one pixel of an island, step to the first
//! neighbour of the ring that belongs to the island and has not been walked
//! yet, until none is left; the walk, closed back to its start, outlines the
//! island. It may stop early where the island narrows to a one-pixel neck:
//! it never backtracks.
use crate::geometry::Line;
use crate::raster::{idx, in_bounds, index_of, lemma_idx_bounds, lemma_idx_injective, LabelGrid, Pixel, Raster};
use crate::segment::{count, lemma_count_update, step, step_in, step_pixel};
use crate::trace::{aspect_fits, in_square, lemma_norm_in_range, norm_x, norm_y, pixel_vertex, pixel_vertex_exec, ring, ring_exec};
use vstd::prelude::*;

verus! {

broadcast use vstd::seq_lib::group_seq_properties;

/// The neighbour of `p` at ring offset `k` lies on the grid, carries
/// `label`, and is not in `walked`.
pub open spec fn open_step(grid: LabelGrid, label: usize, walked: Seq<Pixel>, p: Pixel, k: int) -> bool {
    step_in(grid.width as int, grid.height as int, p, ring()[k]) && grid.at(
        step(p, ring()[k]).0,
        step(p, ring()[k]).1,
    ) == label && !walked.contains(step_pixel(p, ring()[k]))
}

/// The first open neighbour of `p` at ring offset `k` or later.
pub open spec fn first_open(grid: LabelGrid, label: usize, walked: Seq<Pixel>, p: Pixel, k: int) -> Option<
    Pixel,
>
    decreases 8 - k,
{
    if k >= 8 || k < 0 {
        None
    } else if open_step(grid, label, walked, p, k) {
        Some(step_pixel(p, ring()[k]))
    } else {
        first_open(grid, label, walked, p, k + 1)
    }
}

/// `path` is the greedy walk from `start`: each pixel is the first open
/// neighbour of the one before, and the last pixel has none.
pub open spec fn is_greedy_walk(grid: LabelGrid, label: usize, start: Pixel, path: Seq<Pixel>) -> bool {
    &&& path.len() >= 1
    &&& path[0] == start
    &&& forall|i: int|
        0 <= i < path.len() - 1 ==> first_open(grid, label, path.take(i + 1), #[trigger] path[i], 0)
            == Some(path[i + 1])
    &&& first_open(grid, label, path, path.last(), 0) is None
}

/// The walk closed into a polygon: a segment from each pixel to the next
/// and from the last back to the first. A walk of one pixel outlines
/// nothing.
pub open spec fn polygon(raster: Raster, aspect: bool, path: Seq<Pixel>) -> Seq<Line> {
    if path.len() < 2 {
        Seq::empty()
    } else {
        Seq::new(
            path.len(),
            |i: int|
                Line {
                    start: pixel_vertex(raster, aspect, path[i].0 as int, path[i].1 as int),
                    end: pixel_vertex(
                        raster,
                        aspect,
                        path[(i + 1) % (path.len() as int)].0 as int,
                        path[(i + 1) % (path.len() as int)].1 as int,
                    ),
                },
        )
    }
}

proof fn lemma_first_open(grid: LabelGrid, label: usize, walked: Seq<Pixel>, p: Pixel, from: int, k: int)
    requires
        0 <= from <= k < 8,
        forall|j: int| from <= j < k ==> !open_step(grid, label, walked, p, j),
        open_step(grid, label, walked, p, k),
    ensures
        first_open(grid, label, walked, p, from) == Some(step_pixel(p, ring()[k])),
    decreases k - from,
{
    if from < k {
        lemma_first_open(grid, label, walked, p, from + 1, k);
    }
}

proof fn lemma_none_open(grid: LabelGrid, label: usize, walked: Seq<Pixel>, p: Pixel, from: int)
    requires
        0 <= from <= 8,
        forall|j: int| from <= j < 8 ==> !open_step(grid, label, walked, p, j),
    ensures
        first_open(grid, label, walked, p, from) is None,
    decreases 8 - from,
{
    if from < 8 {
        lemma_none_open(grid, label, walked, p, from + 1);
    }
}

/// Walks the pixels labelled `label` greedily from `start` (see
/// `is_greedy_walk`).
pub fn walk_contour(grid: &LabelGrid, label: usize, start: Pixel) -> (r: Vec<Pixel>)
    requires
        grid.wf(),
        start.0 < grid.width,
        start.1 < grid.height,
    ensures
        is_greedy_walk(*grid, label, start, r@),
        forall|i: int| 0 <= i < r@.len() ==> in_bounds(grid.width as int, grid.height as int, (#[trigger] r@[i]).0 as int, r@[i].1 as int),
{
    let w = grid.width;
    let h = grid.height;
    let ghost (wi, hi) = (w as int, h as int);
    let offs = ring_exec();
    let n = grid.cells.len();
    let mut walked: Vec<bool> = Vec::new();
    let mut i: usize = 0;
    while i < n
        invariant
            0 <= i <= n,
            walked@.len() == i,
            forall|j: int| 0 <= j < i ==> !(#[trigger] walked@[j]),
        decreases n - i,
    {
        walked.push(false);
        i += 1;
    }
    let mut path: Vec<Pixel> = Vec::new();
    path.push(start);
    let si = index_of(w, h, start.0, start.1);
    proof {
        lemma_count_update(walked@, si as int, false, true);
    }
    walked.set(si, true);
    let mut cur = start;
    proof {
        assert forall|x: u32, y: u32| in_bounds(wi, hi, x as int, y as int) implies #[trigger] walked@[idx(wi, x as int, y as int)] == path@.contains((x, y)) by {
            lemma_idx_bounds(wi, hi, x as int, y as int);
            if idx(wi, x as int, y as int) == si {
                lemma_idx_injective(wi, hi, x as int, y as int, start.0 as int, start.1 as int);
            }
            if path@.contains((x, y)) {
                assert(path@[0] == (x, y));
            }
        }
    }
    loop
        invariant
            grid.wf(),
            grid.width == w,
            grid.height == h,
            wi == w,
            hi == h,
            offs@ == ring(),
            walked@.len() == grid.cells@.len(),
            path@.len() >= 1,
            path@[0] == start,
            cur == path@.last(),
            forall|j: int| 0 <= j < path@.len() ==> in_bounds(wi, hi, (#[trigger] path@[j]).0 as int, path@[j].1 as int),
            forall|x: u32, y: u32| in_bounds(wi, hi, x as int, y as int) ==> #[trigger] walked@[idx(wi, x as int, y as int)] == path@.contains((x, y)),
            forall|j: int|
                0 <= j < path@.len() - 1 ==> first_open(*grid, label, path@.take(j + 1), #[trigger] path@[j], 0)
                    == Some(path@[j + 1]),
        ensures
            path@.len() >= 1,
            path@[0] == start,
            forall|j: int| 0 <= j < path@.len() ==> in_bounds(wi, hi, (#[trigger] path@[j]).0 as int, path@[j].1 as int),
            forall|j: int|
                0 <= j < path@.len() - 1 ==> first_open(*grid, label, path@.take(j + 1), #[trigger] path@[j], 0)
                    == Some(path@[j + 1]),
            first_open(*grid, label, path@, path@.last(), 0) is None,
        decreases count(walked@, false),
    {
        assert(in_bounds(wi, hi, path@[path@.len() - 1].0 as int, path@[path@.len() - 1].1 as int));
        let mut k: usize = 0;
        let mut next: Option<(Pixel, usize)> = None;
        while k < 8
            invariant_except_break
                next is None,
            invariant
                0 <= k <= 8,
                offs@ == ring(),
                cur.0 < w,
                cur.1 < h,
                wi == w,
                hi == h,
                grid.wf(),
                grid.width == w,
                grid.height == h,
                walked@.len() == grid.cells@.len(),
                forall|x: u32, y: u32| in_bounds(wi, hi, x as int, y as int) ==> #[trigger] walked@[idx(wi, x as int, y as int)] == path@.contains((x, y)),
                forall|j: int| 0 <= j < k ==> !open_step(*grid, label, path@, cur, j),
            ensures
                next is None ==> forall|j: int| 0 <= j < 8 ==> !open_step(*grid, label, path@, cur, j),
                next matches Some((q, kk)) ==> kk < 8 && (forall|j: int| 0 <= j < kk ==> !open_step(*grid, label, path@, cur, j))
                    && open_step(*grid, label, path@, cur, kk as int) && q == step_pixel(cur, ring()[kk as int]),
            decreases 8 - k,
        {
            let (dx, dy) = offs[k];
            let nx = cur.0 as i64 + dx as i64;
            let ny = cur.1 as i64 + dy as i64;
            proof {
                assert(nx == step(cur, ring()[k as int]).0);
                assert(ny == step(cur, ring()[k as int]).1);
            }
            if 0 <= nx && nx < w as i64 && 0 <= ny && ny < h as i64 {
                let q: Pixel = (nx as u32, ny as u32);
                let qi = index_of(w, h, q.0, q.1);
                proof {
                    assert(q == step_pixel(cur, ring()[k as int]));
                    assert(walked@[idx(wi, q.0 as int, q.1 as int)] == path@.contains(q));
                }
                if grid.cells[qi] == label && !walked[qi] {
                    next = Some((q, k));
                    break;
                }
            }
            k += 1;
        }
        match next {
            None => {
                proof {
                    lemma_none_open(*grid, label, path@, cur, 0);
                }
                break;
            },
            Some((q, kk)) => {
                proof {
                    lemma_first_open(*grid, label, path@, cur, 0, kk as int);
                }
                let qi = index_of(w, h, q.0, q.1);
                let ghost old_path = path@;
                proof {
                    assert(!walked@[qi as int]);
                    lemma_count_update(walked@, qi as int, false, true);
                }
                walked.set(qi, true);
                path.push(q);
                cur = q;
                proof {
                    assert(old_path.take(old_path.len() as int) =~= old_path);
                    assert forall|j: int| 0 <= j < path@.len() - 1 implies first_open(*grid, label, path@.take(j + 1), #[trigger] path@[j], 0)
                        == Some(path@[j + 1]) by {
                        assert(path@.take(j + 1) =~= old_path.take(j + 1));
                    }
                    assert forall|x: u32, y: u32| in_bounds(wi, hi, x as int, y as int) implies #[trigger] walked@[idx(wi, x as int, y as int)] == path@.contains((x, y)) by {
                        lemma_idx_bounds(wi, hi, x as int, y as int);
                        if idx(wi, x as int, y as int) == qi {
                            lemma_idx_injective(wi, hi, x as int, y as int, q.0 as int, q.1 as int);
                        }
                    }
                }
            },
        }
    }
    path
}

/// The walk closed into a polygon (see `polygon`).
pub fn contour_lines(raster: &Raster, aspect: bool, path: &Vec<Pixel>) -> (r: Vec<Line>)
    requires
        raster.wf(),
        aspect ==> aspect_fits(*raster),
        forall|i: int| 0 <= i < path@.len() ==> in_bounds(raster.width as int, raster.height as int, (#[trigger] path@[i]).0 as int, path@[i].1 as int),
    ensures
        r@ == polygon(*raster, aspect, path@),
{
    let mut lines: Vec<Line> = Vec::new();
    let n = path.len();
    if n < 2 {
        return lines;
    }
    let mut i: usize = 0;
    while i < n
        invariant
            0 <= i <= n,
            n == path@.len(),
            n >= 2,
            raster.wf(),
            aspect ==> aspect_fits(*raster),
            forall|j: int| 0 <= j < path@.len() ==> in_bounds(raster.width as int, raster.height as int, (#[trigger] path@[j]).0 as int, path@[j].1 as int),
            lines@.len() == i,
            forall|j: int| 0 <= j < i ==> #[trigger] lines@[j] == polygon(*raster, aspect, path@)[j],
        decreases n - i,
    {
        let a = path[i];
        let b = if i + 1 < n {
            path[i + 1]
        } else {
            path[0]
        };
        proof {
            let ii = i as int;
            if ii + 1 < n {
                vstd::arithmetic::div_mod::lemma_small_mod((ii + 1) as nat, n as nat);
            } else {
                vstd::arithmetic::div_mod::lemma_mod_self_0(n as int);
            }
            assert(b == path@[(ii + 1) % (n as int)]);
            assert(in_bounds(raster.width as int, raster.height as int, path@[ii].0 as int, path@[ii].1 as int));
            assert(in_bounds(raster.width as int, raster.height as int, path@[(ii + 1) % (n as int)].0 as int, path@[(ii + 1) % (n as int)].1 as int));
        }
        let start = pixel_vertex_exec(raster, aspect, a.0 as i64, a.1 as i64);
        let end = pixel_vertex_exec(raster, aspect, b.0 as i64, b.1 as i64);
        lines.push(Line { start, end });
        i += 1;
    }
    proof {
        assert(lines@ =~= polygon(*raster, aspect, path@));
    }
    lines
}

/// A contour of pixels of the raster lies inside the normalized square, in
/// texture coordinates at both ends of every segment.
pub proof fn lemma_contour_in_square(raster: Raster, aspect: bool, path: Seq<Pixel>, i: int)
    requires
        raster.wf(),
        forall|j: int| 0 <= j < path.len() ==> in_bounds(raster.width as int, raster.height as int, (#[trigger] path[j]).0 as int, path[j].1 as int),
        0 <= i < polygon(raster, aspect, path).len(),
    ensures
        in_square(polygon(raster, aspect, path)[i].start.tex_coords),
        in_square(polygon(raster, aspect, path)[i].end.tex_coords),
{
    let (w, h) = (raster.width as int, raster.height as int);
    let n = path.len() as int;
    let nxt = (i + 1) % n;
    vstd::arithmetic::div_mod::lemma_mod_bound(i + 1, n);
    let (a, b) = (path[i], path[nxt]);
    lemma_norm_in_range(a.0 as int, w);
    lemma_norm_in_range(h - a.1, h);
    assert(norm_y(a.1 as int, h) == norm_x(h - a.1, h));
    lemma_norm_in_range(b.0 as int, w);
    lemma_norm_in_range(h - b.1, h);
    assert(norm_y(b.1 as int, h) == norm_x(h - b.1, h));
}

} // verus!
