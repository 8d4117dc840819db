//! Segmentation: flood fill over a label grid, and the partition of a
//! raster's opaque pixels into islands.
use crate::raster::{
    dims_ok, idx, in_bounds, index_of, lemma_idx_bounds, lemma_idx_injective, lemma_idx_onto,
    LabelGrid, Pixel, Raster, Rgba,
};
use rand::rngs::ThreadRng;
use rand::Rng;
use std::collections::VecDeque;
use vstd::prelude::*;

verus! {

broadcast use vstd::seq_lib::group_seq_properties;

/// Which pixels count as neighbours: the four sharing an edge, or the eight
/// sharing an edge or a corner.
#[derive(Clone, Copy, Debug, PartialEq, Eq, Structural)]
pub enum Connectivity {
    Four,
    Eight,
}

/// The neighbour offsets for a connectivity, in the order they are visited.
pub open spec fn offsets(conn: Connectivity) -> Seq<(i32, i32)> {
    let four = seq![(-1i32, 0i32), (1i32, 0i32), (0i32, -1i32), (0i32, 1i32)];
    match conn {
        Connectivity::Four => four,
        Connectivity::Eight => four + seq![
            (-1i32, -1i32),
            (1i32, -1i32),
            (-1i32, 1i32),
            (1i32, 1i32),
        ],
    }
}

/// The position `o` away from `p`, which may lie outside the raster.
pub open spec fn step(p: Pixel, o: (i32, i32)) -> (int, int) {
    (p.0 + o.0, p.1 + o.1)
}

/// The pixel `o` away from `p`, read as a pixel position.
pub open spec fn step_pixel(p: Pixel, o: (i32, i32)) -> Pixel {
    ((p.0 + o.0) as u32, (p.1 + o.1) as u32)
}

/// `q`, `o` away from `p`, lies in a `w` by `h` raster.
pub open spec fn step_in(w: int, h: int, p: Pixel, o: (i32, i32)) -> bool {
    in_bounds(w, h, step(p, o).0, step(p, o).1)
}

/// How many entries of `s` equal `v`.
pub open spec fn count<T>(s: Seq<T>, v: T) -> nat
    decreases s.len(),
{
    if s.len() == 0 {
        0
    } else {
        count(s.drop_last(), v) + if s.last() == v {
            1nat
        } else {
            0nat
        }
    }
}

pub proof fn lemma_count_update<T>(s: Seq<T>, i: int, v: T, m: T)
    requires
        0 <= i < s.len(),
        s[i] == v,
        m != v,
    ensures
        count(s.update(i, m), v) + 1 == count(s, v),
    decreases s.len(),
{
    if i == s.len() - 1 {
        assert(s.update(i, m).drop_last() =~= s.drop_last());
    } else {
        assert(s.update(i, m).drop_last() =~= s.drop_last().update(i, m));
        lemma_count_update(s.drop_last(), i, v, m);
    }
}

fn offsets_exec(conn: Connectivity) -> (r: Vec<(i32, i32)>)
    ensures
        r@ == offsets(conn),
{
    let mut r = Vec::new();
    r.push((-1, 0));
    r.push((1, 0));
    r.push((0, -1));
    r.push((0, 1));
    if conn == Connectivity::Eight {
        r.push((-1, -1));
        r.push((1, -1));
        r.push((-1, 1));
        r.push((1, 1));
    }
    proof {
        assert(r@ =~= offsets(conn));
    }
    r
}

/// `pixels` are the cells of `before` holding `from` that the fill rewrote to
/// `label`, and they bound the box `top_right`, `bottom_left` tightly.
pub open spec fn filled(
    before: Seq<usize>,
    after: Seq<usize>,
    w: int,
    h: int,
    from: usize,
    label: usize,
    pixels: Seq<Pixel>,
    top_right: Pixel,
    bottom_left: Pixel,
) -> bool {
    &&& after.len() == before.len()
    &&& pixels.no_duplicates()
    &&& forall|j: int|
        0 <= j < pixels.len() ==> in_bounds(w, h, pixels[j].0 as int, pixels[j].1 as int)
            && before[idx(w, pixels[j].0 as int, pixels[j].1 as int)] == from
    &&& forall|x: u32, y: u32|
        in_bounds(w, h, x as int, y as int) ==> #[trigger] after[idx(w, x as int, y as int)] == if pixels.contains((x, y)) {
            label
        } else {
            before[idx(w, x as int, y as int)]
        }
    &&& boxed(pixels, top_right, bottom_left)
}

/// `top_right` holds the largest x and y of the pixels and `bottom_left`
/// the smallest.
pub open spec fn boxed(pixels: Seq<Pixel>, top_right: Pixel, bottom_left: Pixel) -> bool {
    &&& forall|j: int|
        0 <= j < pixels.len() ==> bottom_left.0 <= #[trigger] pixels[j].0 <= top_right.0
            && bottom_left.1 <= pixels[j].1 <= top_right.1
    &&& pixels.len() > 0 ==> {
        &&& exists|j: int| 0 <= j < pixels.len() && #[trigger] pixels[j].0 == top_right.0
        &&& exists|j: int| 0 <= j < pixels.len() && #[trigger] pixels[j].1 == top_right.1
        &&& exists|j: int| 0 <= j < pixels.len() && #[trigger] pixels[j].0 == bottom_left.0
        &&& exists|j: int| 0 <= j < pixels.len() && #[trigger] pixels[j].1 == bottom_left.1
    }
}

/// No neighbour of a filled pixel still holds `from`: the fill took the
/// whole region of `from` around its seed.
pub open spec fn closed(
    before: Seq<usize>,
    w: int,
    h: int,
    from: usize,
    conn: Connectivity,
    pixels: Seq<Pixel>,
) -> bool {
    forall|j: int, k: int|
        0 <= j < pixels.len() && 0 <= k < offsets(conn).len() && step_in(
            w,
            h,
            pixels[j],
            offsets(conn)[k],
        ) && before[idx(
            w,
            step(pixels[j], offsets(conn)[k]).0,
            step(pixels[j], offsets(conn)[k]).1,
        )] == from ==> pixels.contains(#[trigger] step_pixel(pixels[j], offsets(conn)[k]))
}

/// `origin[j]` names, for each pixel `j` after the first, an earlier pixel
/// and the offset from it that reaches `j`.
pub open spec fn chained_by(pixels: Seq<Pixel>, conn: Connectivity, origin: Seq<(int, int)>) -> bool {
    &&& origin.len() == pixels.len()
    &&& forall|j: int|
        0 < j < pixels.len() ==> 0 <= (#[trigger] origin[j]).0 < j && 0 <= origin[j].1
            < offsets(conn).len() && pixels[j] == step_pixel(
            pixels[origin[j].0],
            offsets(conn)[origin[j].1],
        )
}

/// Each pixel after the first neighbours, through `conn`, one before it:
/// the pixels form one connected region.
pub open spec fn chained(pixels: Seq<Pixel>, conn: Connectivity) -> bool {
    exists|origin: Seq<(int, int)>| chained_by(pixels, conn, origin)
}

/// Why `q` is queued: it is the seed (`from.0 == -1`), or the neighbour at
/// offset `from.1` of filled pixel `from.0`.
spec fn queued_from(
    q: Pixel,
    from: (int, int),
    pixels: Seq<Pixel>,
    offs: Seq<(i32, i32)>,
    seed: Pixel,
) -> bool {
    (from.0 == -1 && q == seed) || (0 <= from.0 < pixels.len() && 0 <= from.1 < offs.len() && q
        == step_pixel(pixels[from.0], offs[from.1]))
}

/// Flood fill: relabels the region of cells that hold the seed's label and
/// are connected to the seed, breadth first, with `label`. Returns the
/// relabelled pixels in the order they were reached and their bounding box
/// as (largest x and y, smallest x and y). Nothing changes when the seed
/// already holds `label`.
pub fn fill(x: u32, y: u32, grid: &mut LabelGrid, label: usize, conn: Connectivity) -> (r: (
    Vec<Pixel>,
    Pixel,
    Pixel,
))
    requires
        old(grid).wf(),
        x < old(grid).width,
        y < old(grid).height,
    ensures
        final(grid).width == old(grid).width,
        final(grid).height == old(grid).height,
        final(grid).wf(),
        old(grid).at(x as int, y as int) == label ==> r.0@.len() == 0 && r.1 == (0u32, 0u32)
            && r.2 == (0u32, 0u32) && final(grid).cells@ == old(grid).cells@,
        old(grid).at(x as int, y as int) != label ==> {
            &&& r.0@.contains((x, y))
            &&& r.0@[0] == (x, y)
            &&& chained(r.0@, conn)
            &&& filled(
                old(grid).cells@,
                final(grid).cells@,
                old(grid).width as int,
                old(grid).height as int,
                old(grid).at(x as int, y as int),
                label,
                r.0@,
                r.1,
                r.2,
            )
            &&& closed(
                old(grid).cells@,
                old(grid).width as int,
                old(grid).height as int,
                old(grid).at(x as int, y as int),
                conn,
                r.0@,
            )
        },
{
    let w = grid.width;
    let h = grid.height;
    let ghost g0 = grid.cells@;
    let ghost (wi, hi) = (w as int, h as int);
    let offs = offsets_exec(conn);
    let v0 = grid.cells[index_of(w, h, x, y)];
    if v0 == label {
        return (Vec::new(), (0, 0), (0, 0));
    }
    let mut cells: VecDeque<Pixel> = VecDeque::new();
    let mut pixels: Vec<Pixel> = Vec::new();
    cells.push_back((x, y));
    let mut top_right: Pixel = (x, y);
    let mut bottom_left: Pixel = (x, y);
    let ghost mut parent: Seq<(int, int)> = seq![(-1int, 0int)];
    let ghost mut origin: Seq<(int, int)> = Seq::empty();
    while cells.len() > 0
        invariant
            parent.len() == cells@.len(),
            forall|t: int|
                0 <= t < cells@.len() ==> queued_from(
                    #[trigger] cells@[t],
                    parent[t],
                    pixels@,
                    offs@,
                    (x, y),
                ),
            origin.len() == pixels@.len(),
            pixels@.len() > 0 ==> pixels@[0] == (x, y),
            forall|j: int|
                0 < j < pixels@.len() ==> 0 <= (#[trigger] origin[j]).0 < j && 0 <= origin[j].1
                    < offs@.len() && pixels@[j] == step_pixel(pixels@[origin[j].0], offs@[origin[j].1]),
            grid.width == w,
            grid.height == h,
            wi == w as int,
            hi == h as int,
            dims_ok(wi, hi, g0.len() as int),
            grid.cells@.len() == g0.len(),
            offs@ == offsets(conn),
            v0 != label,
            x < w,
            y < h,
            g0[idx(wi, x as int, y as int)] == v0,
            forall|j: int|
                0 <= j < cells@.len() ==> in_bounds(wi, hi, cells@[j].0 as int, cells@[j].1 as int),
            grid.cells@[idx(wi, x as int, y as int)] == label || cells@.contains((x, y)),
            filled(g0, grid.cells@, wi, hi, v0, label, pixels@, top_right, bottom_left),
            pixels@.len() == 0 ==> top_right == (x, y) && bottom_left == (x, y) && cells@ == seq![
                (x, y),
            ],
            forall|j: int, k: int|
                0 <= j < pixels@.len() && 0 <= k < offs@.len() && step_in(
                    wi,
                    hi,
                    pixels@[j],
                    offs@[k],
                ) ==> (grid.cells@[idx(
                    wi,
                    step(pixels@[j], offs@[k]).0,
                    step(pixels@[j], offs@[k]).1,
                )] != v0 || cells@.contains(#[trigger] step_pixel(pixels@[j], offs@[k]))),
        decreases 8 * count(grid.cells@, v0) + cells@.len(),
    {
        let ghost q_before = cells@;
        let p = match cells.pop_front() {
            Some(p) => p,
            None => {
                return (pixels, top_right, bottom_left);
            },
        };
        let ghost q_after = cells@;
        let ghost par = parent[0];
        proof {
            assert(queued_from(q_before[0], parent[0], pixels@, offs@, (x, y)));
            parent = parent.subrange(1, parent.len() as int);
        }
        assert(p == q_before[0]);
        assert(in_bounds(wi, hi, q_before[0].0 as int, q_before[0].1 as int));
        assert(q_after =~= q_before.subrange(1, q_before.len() as int));
        let i = index_of(w, h, p.0, p.1);
        if grid.cells[i] == v0 {
            let ghost cells_before = grid.cells@;
            let ghost pixels_before = pixels@;
            proof {
                lemma_count_update(grid.cells@, i as int, v0, label);
            }
            grid.cells.set(i, label);
            proof {
                // p was not filled yet, so it is new to the list.
                assert(!pixels_before.contains(p));
            }
            proof {
                if par.0 == -1 && pixels_before.len() > 0 {
                    assert(pixels_before.contains(pixels_before[0]));
                    assert(cells_before[idx(wi, x as int, y as int)] == label);
                }
                if pixels_before.len() == 0 {
                    origin = origin.push((0int, 0int));
                } else {
                    origin = origin.push(par);
                }
            }
            pixels.push(p);
            if top_right.0 < p.0 {
                top_right.0 = p.0;
            }
            if top_right.1 < p.1 {
                top_right.1 = p.1;
            }
            if bottom_left.0 > p.0 {
                bottom_left.0 = p.0;
            }
            if bottom_left.1 > p.1 {
                bottom_left.1 = p.1;
            }
            proof {
                let last = pixels@.len() - 1;
                assert(pixels@[last] == p);
                assert forall|px: u32, py: u32| in_bounds(wi, hi, px as int, py as int) implies #[trigger] grid.cells@[idx(wi, px as int, py as int)] == if pixels@.contains((px, py)) {
                    label
                } else {
                    g0[idx(wi, px as int, py as int)]
                } by {
                    lemma_idx_bounds(wi, hi, px as int, py as int);
                    if idx(wi, px as int, py as int) == i {
                        lemma_idx_injective(wi, hi, px as int, py as int, p.0 as int, p.1 as int);
                    }
                }
                if pixels_before.len() > 0 {
                    if top_right.0 != p.0 {
                        let j = choose|j: int| 0 <= j < pixels_before.len() && #[trigger] pixels_before[j].0 == top_right.0;
                        assert(pixels@[j].0 == top_right.0);
                    }
                    if top_right.1 != p.1 {
                        let j = choose|j: int| 0 <= j < pixels_before.len() && #[trigger] pixels_before[j].1 == top_right.1;
                        assert(pixels@[j].1 == top_right.1);
                    }
                    if bottom_left.0 != p.0 {
                        let j = choose|j: int| 0 <= j < pixels_before.len() && #[trigger] pixels_before[j].0 == bottom_left.0;
                        assert(pixels@[j].0 == bottom_left.0);
                    }
                    if bottom_left.1 != p.1 {
                        let j = choose|j: int| 0 <= j < pixels_before.len() && #[trigger] pixels_before[j].1 == bottom_left.1;
                        assert(pixels@[j].1 == bottom_left.1);
                    }
                }
                assert(pixels@[last].0 == p.0);
                assert(pixels@[last].1 == p.1);
                assert(cells_before[idx(wi, p.0 as int, p.1 as int)] == v0);
                assert(g0[idx(wi, p.0 as int, p.1 as int)] == v0);
                assert(pixels@.no_duplicates()) by {
                    assert forall|a: int, b: int|
                        0 <= a < b < pixels@.len() implies pixels@[a] != pixels@[b] by {
                        if b == last {
                            assert(pixels_before.contains(pixels_before[a]));
                        }
                    }
                }
                assert(forall|j: int|
                    0 <= j < pixels@.len() ==> in_bounds(wi, hi, pixels@[j].0 as int, pixels@[j].1 as int)
                        && g0[idx(wi, pixels@[j].0 as int, pixels@[j].1 as int)] == v0);
                assert(forall|j: int|
                    0 <= j < pixels@.len() ==> bottom_left.0 <= #[trigger] pixels@[j].0 <= top_right.0
                        && bottom_left.1 <= pixels@[j].1 <= top_right.1);
            }
            let ghost q_mid = cells@;
            let mut k: usize = 0;
            while k < offs.len()
                invariant
                    0 <= k <= offs@.len(),
                    wi == w as int,
                    hi == h as int,
                    offs@ == offsets(conn),
                    offs@.len() <= 8,
                    p.0 < w,
                    p.1 < h,
                    q_mid.len() <= cells@.len(),
                    cells@.len() <= q_mid.len() + k,
                    forall|j: int| 0 <= j < q_mid.len() ==> cells@[j] == q_mid[j],
                    forall|j: int|
                        0 <= j < cells@.len() ==> in_bounds(
                            wi,
                            hi,
                            cells@[j].0 as int,
                            cells@[j].1 as int,
                        ),
                    forall|kk: int|
                        0 <= kk < k && step_in(wi, hi, p, offs@[kk]) ==> cells@.contains(
                            #[trigger] step_pixel(p, offs@[kk]),
                        ),
                    pixels@.len() > 0,
                    pixels@[pixels@.len() - 1] == p,
                    parent.len() == cells@.len(),
                    forall|t: int|
                        0 <= t < cells@.len() ==> queued_from(
                            #[trigger] cells@[t],
                            parent[t],
                            pixels@,
                            offs@,
                            (x, y),
                        ),
                decreases offs@.len() - k,
            {
                let (dx, dy) = offs[k];
                let nx = p.0 as i64 + dx as i64;
                let ny = p.1 as i64 + dy as i64;
                let ghost before_push = cells@;
                if 0 <= nx && nx < w as i64 && 0 <= ny && ny < h as i64 {
                    cells.push_back((nx as u32, ny as u32));
                    proof {
                        parent = parent.push(((pixels@.len() - 1) as int, k as int));
                        assert(queued_from(
                            cells@[cells@.len() - 1],
                            parent[cells@.len() - 1],
                            pixels@,
                            offs@,
                            (x, y),
                        ));
                        assert forall|t: int| 0 <= t < cells@.len() implies queued_from(
                            #[trigger] cells@[t],
                            parent[t],
                            pixels@,
                            offs@,
                            (x, y),
                        ) by {
                            if t < cells@.len() - 1 {
                                assert(cells@[t] == before_push[t]);
                            }
                        }
                        assert(cells@[cells@.len() - 1] == step_pixel(p, offs@[k as int]));
                        assert forall|kk: int|
                            0 <= kk < k && step_in(wi, hi, p, offs@[kk]) implies cells@.contains(
                            #[trigger] step_pixel(p, offs@[kk]),
                        ) by {
                            assert(before_push.contains(step_pixel(p, offs@[kk])));
                        }
                    }
                }
                k += 1;
            }
            proof {
                assert forall|j: int, kk: int|
                    0 <= j < pixels@.len() && 0 <= kk < offs@.len() && step_in(
                        wi,
                        hi,
                        pixels@[j],
                        offs@[kk],
                    ) implies (grid.cells@[idx(
                    wi,
                    step(pixels@[j], offs@[kk]).0,
                    step(pixels@[j], offs@[kk]).1,
                )] != v0 || cells@.contains(#[trigger] step_pixel(pixels@[j], offs@[kk]))) by {
                    let q = step_pixel(pixels@[j], offs@[kk]);
                    if j < pixels@.len() - 1 {
                        if grid.cells@[idx(wi, q.0 as int, q.1 as int)] == v0 {
                            assert(q_before.contains(q));
                            if q == p {
                            } else {
                                let t = choose|t: int| 0 <= t < q_before.len() && q_before[t] == q;
                                assert(q_mid[t - 1] == q);
                                assert(cells@[t - 1] == q);
                            }
                        }
                    }
                }
                assert(grid.cells@[idx(wi, x as int, y as int)] == label || cells@.contains((x, y))) by {
                    if grid.cells@[idx(wi, x as int, y as int)] != label {
                        let t = choose|t: int| 0 <= t < q_before.len() && q_before[t] == (x, y);
                        if t == 0 {
                            assert(p == (x, y));
                        } else {
                            assert(q_mid[t - 1] == (x, y));
                            assert(cells@[t - 1] == (x, y));
                        }
                    }
                }
            }
        } else {
            proof {
                assert forall|j: int, kk: int|
                    0 <= j < pixels@.len() && 0 <= kk < offs@.len() && step_in(
                        wi,
                        hi,
                        pixels@[j],
                        offs@[kk],
                    ) implies (grid.cells@[idx(
                    wi,
                    step(pixels@[j], offs@[kk]).0,
                    step(pixels@[j], offs@[kk]).1,
                )] != v0 || cells@.contains(#[trigger] step_pixel(pixels@[j], offs@[kk]))) by {
                    let q = step_pixel(pixels@[j], offs@[kk]);
                    if grid.cells@[idx(wi, q.0 as int, q.1 as int)] == v0 {
                        assert(q_before.contains(q));
                        if q == p {
                        } else {
                            let t = choose|t: int| 0 <= t < q_before.len() && q_before[t] == q;
                            assert(cells@[t - 1] == q);
                        }
                    }
                }
                assert(grid.cells@[idx(wi, x as int, y as int)] == label || cells@.contains((x, y))) by {
                    if grid.cells@[idx(wi, x as int, y as int)] != label {
                        let t = choose|t: int| 0 <= t < q_before.len() && q_before[t] == (x, y);
                        if t == 0 {
                            assert(p == (x, y));
                        } else {
                            assert(cells@[t - 1] == (x, y));
                        }
                    }
                }
            }
        }
    }
    proof {
        assert(grid.cells@[idx(wi, x as int, y as int)] == label);
        assert(pixels@.contains((x, y)));
        assert(chained_by(pixels@, conn, origin));
        assert(chained(pixels@, conn));
        assert(pixels@[0] == (x, y));
        assert forall|j: int, kk: int|
            0 <= j < pixels@.len() && 0 <= kk < offsets(conn).len() && step_in(
                wi,
                hi,
                pixels@[j],
                offsets(conn)[kk],
            ) && g0[idx(
                wi,
                step(pixels@[j], offsets(conn)[kk]).0,
                step(pixels@[j], offsets(conn)[kk]).1,
            )] == v0 implies pixels@.contains(
            #[trigger] step_pixel(pixels@[j], offsets(conn)[kk]),
        ) by {
            let q = step_pixel(pixels@[j], offsets(conn)[kk]);
            assert(grid.cells@[idx(wi, q.0 as int, q.1 as int)] != v0);
        }
    }
    (pixels, top_right, bottom_left)
}

/// Label of a transparent pixel.
pub const TRANSPARENT_LABEL: usize = 0;

/// Label of an opaque pixel that no island has taken yet.
pub const PENDING_LABEL: usize = 1;

/// Random draws tried for a marker before falling back to the island's
/// own colour.
pub const MAX_DRAWS: usize = 16;

/// How many opaque colours a marker can take: every colour with alpha 255
/// but white.
pub const MARKER_SPACE: usize = 0xff_ffff;

/// Label carried by the pixels of island `k`.
pub open spec fn island_label(k: int) -> int {
    k + 2
}

/// The marker of the first island.
pub open spec fn first_marker() -> Rgba {
    Rgba { r: 255, g: 0, b: 0, a: 255 }
}

/// Opaque white, which no marker takes.
pub open spec fn white() -> Rgba {
    Rgba { r: 255, g: 255, b: 255, a: 255 }
}

/// The opaque colour whose red, green and blue bytes spell `v`.
pub open spec fn packed(v: u32) -> Rgba {
    Rgba {
        r: ((v >> 16u32) & 0xffu32) as u8,
        g: ((v >> 8u32) & 0xffu32) as u8,
        b: (v & 0xffu32) as u8,
        a: 255,
    }
}

/// The first of `packed(v)`, `packed(v + 1)`, ..., `packed(used.len())` that
/// `used` does not hold; `packed(0)` when it holds them all.
pub open spec fn first_unused_from(used: Seq<Rgba>, v: int) -> Rgba
    decreases used.len() + 1 - v,
{
    if v < 0 || v > used.len() || v >= MARKER_SPACE {
        packed(0)
    } else if !used.contains(packed(v as u32)) {
        packed(v as u32)
    } else {
        first_unused_from(used, v + 1)
    }
}

/// A set of pixels of one raster, found connected, with the bounding box
/// (largest x and y, smallest x and y) and the marker colour that shows it.
#[derive(Debug)]
pub struct Island {
    pub id: usize,
    pub marker: Rgba,
    pub pixel_coordinates: Vec<Pixel>,
    pub top_right: Pixel,
    pub bottom_left: Pixel,
}

/// The islands of a raster, the label of each pixel (`TRANSPARENT_LABEL`, or
/// `island_label(k)` for a pixel of island `k`), and a copy of the raster
/// with each island painted in its marker colour.
#[derive(Debug)]
pub struct Segmentation {
    pub islands: Vec<Island>,
    pub labels: LabelGrid,
    pub recolored: Raster,
}

/// The islands split the opaque pixels of the raster: each island holds
/// opaque pixels only, no pixel lies in two islands, and every opaque pixel
/// lies in one.
pub open spec fn is_partition(raster: Raster, islands: Seq<Island>) -> bool {
    &&& forall|k: int, j: int|
        0 <= k < islands.len() && 0 <= j < islands[k].pixel_coordinates@.len() ==> raster.opaque(
            (#[trigger] islands[k].pixel_coordinates@[j]).0 as int,
            islands[k].pixel_coordinates@[j].1 as int,
        )
    &&& forall|k1: int, k2: int, p: Pixel|
        0 <= k1 < islands.len() && 0 <= k2 < islands.len() && #[trigger] islands[k1].pixel_coordinates@.contains(p)
            && #[trigger] islands[k2].pixel_coordinates@.contains(p) ==> k1 == k2
    &&& forall|x: u32, y: u32|
        #[trigger] raster.opaque(x as int, y as int) ==> exists|k: int|
            0 <= k < islands.len() && #[trigger] islands[k].pixel_coordinates@.contains((x, y))
}

#[verifier::external_type_specification]
#[verifier::external_body]
pub struct ExThreadRng(rand::rngs::ThreadRng);

/// Relies on rand::thread_rng: a handle on the thread's random generator.
#[verifier::external_body]
fn random_source() -> ThreadRng {
    rand::thread_rng()
}

/// Relies on rand::Rng::gen_range: a value drawn from the range `1..255`,
/// whose lower end is inclusive and upper end exclusive.
#[verifier::external_body]
fn draw_channel(rng: &mut ThreadRng) -> (r: u8)
    ensures
        1 <= r < 255,
{
    rng.gen_range(1u8..255u8)
}

fn contains_marker(used: &Vec<Rgba>, c: Rgba) -> (r: bool)
    ensures
        r == used@.contains(c),
{
    let mut i: usize = 0;
    while i < used.len()
        invariant
            0 <= i <= used@.len(),
            forall|j: int| 0 <= j < i ==> used@[j] != c,
        decreases used@.len() - i,
    {
        if used[i] == c {
            assert(used@[i as int] == c);
            return true;
        }
        i += 1;
    }
    false
}

/// The first of `candidates` that `used` does not hold, or else the first
/// unused colour in `packed` order.
pub open spec fn first_fresh(candidates: Seq<Rgba>, used: Seq<Rgba>) -> Rgba
    decreases candidates.len(),
{
    if candidates.len() == 0 {
        first_unused_from(used, 0)
    } else if !used.contains(candidates[0]) {
        candidates[0]
    } else {
        first_fresh(candidates.subrange(1, candidates.len() as int), used)
    }
}

proof fn lemma_packed(v1: u32, v2: u32)
    requires
        v1 < MARKER_SPACE,
        v2 < MARKER_SPACE,
    ensures
        packed(v1) != white(),
        packed(v1) == packed(v2) ==> v1 == v2,
{
    assert((v1 >> 16u32) & 0xffu32 < 256 && (v1 >> 8u32) & 0xffu32 < 256 && v1 & 0xffu32 < 256)
        by (bit_vector);
    assert((v2 >> 16u32) & 0xffu32 < 256 && (v2 >> 8u32) & 0xffu32 < 256 && v2 & 0xffu32 < 256)
        by (bit_vector);
    assert(v1 < 0xffffffu32 ==> !((v1 >> 16u32) & 0xffu32 == 0xffu32 && (v1 >> 8u32) & 0xffu32
        == 0xffu32 && v1 & 0xffu32 == 0xffu32)) by (bit_vector);
    assert((v1 < 0x1000000u32 && v2 < 0x1000000u32 && (v1 >> 16u32) & 0xffu32 == (v2 >> 16u32)
        & 0xffu32 && (v1 >> 8u32) & 0xffu32 == (v2 >> 8u32) & 0xffu32 && v1 & 0xffu32 == v2
        & 0xffu32) ==> v1 == v2) by (bit_vector);
}

/// Fewer markers than colours leave one of the first `used.len() + 1`
/// packed colours free.
proof fn lemma_first_unused(used: Seq<Rgba>)
    requires
        used.len() < MARKER_SPACE,
    ensures
        !used.contains(first_unused_from(used, 0)),
        first_unused_from(used, 0) != white(),
        first_unused_from(used, 0).a == 255,
{
    let n = used.len() as int;
    lemma_first_unused_from(used, 0);
    if used.contains(first_unused_from(used, 0)) {
        let cand = Seq::new((n + 1) as nat, |i: int| packed(i as u32));
        assert forall|i: int, j: int| 0 <= i < cand.len() && 0 <= j < cand.len() && i != j implies cand[i] != cand[j] by {
            lemma_packed(i as u32, j as u32);
        }
        assert(cand.no_duplicates());
        cand.unique_seq_to_set();
        assert forall|c: Rgba| cand.to_set().contains(c) implies used.to_set().contains(c) by {
            let i = choose|i: int| 0 <= i < cand.len() && cand[i] == c;
            assert(used.contains(packed(i as u32)));
        }
        vstd::set_lib::lemma_len_subset(cand.to_set(), used.to_set());
        used.lemma_cardinality_of_set();
    }
    lemma_packed(0, 0);
}

proof fn lemma_first_unused_from(used: Seq<Rgba>, v: int)
    requires
        0 <= v,
    ensures
        first_unused_from(used, v).a == 255,
        first_unused_from(used, v) != white(),
        used.contains(first_unused_from(used, v)) ==> forall|t: int|
            v <= t <= used.len() && t < MARKER_SPACE ==> used.contains(#[trigger] packed(t as u32)),
    decreases used.len() + 1 - v,
{
    lemma_packed(0, 0);
    if v <= used.len() && v < MARKER_SPACE {
        lemma_packed(v as u32, v as u32);
        if used.contains(packed(v as u32)) {
            lemma_first_unused_from(used, v + 1);
        }
    }
}

proof fn lemma_first_fresh(candidates: Seq<Rgba>, used: Seq<Rgba>)
    ensures
        first_fresh(candidates, used) == first_unused_from(used, 0) || (candidates.contains(
            first_fresh(candidates, used),
        ) && !used.contains(first_fresh(candidates, used))),
    decreases candidates.len(),
{
    if candidates.len() > 0 && used.contains(candidates[0]) {
        let rest = candidates.subrange(1, candidates.len() as int);
        lemma_first_fresh(rest, used);
        let r = first_fresh(rest, used);
        if rest.contains(r) && !used.contains(r) {
            let t = choose|t: int| 0 <= t < rest.len() && rest[t] == r;
            assert(candidates[t + 1] == r);
        }
    } else if candidates.len() > 0 {
        assert(candidates[0] == first_fresh(candidates, used));
    }
}

fn packed_exec(v: u32) -> (r: Rgba)
    ensures
        r == packed(v),
{
    Rgba { r: ((v >> 16) & 0xff) as u8, g: ((v >> 8) & 0xff) as u8, b: (v & 0xff) as u8, a: 255 }
}

/// The first colour in `packed` order that `used` does not hold, among the
/// first `used.len() + 1` (see `first_unused_from`).
fn first_unused(used: &Vec<Rgba>) -> (r: Rgba)
    ensures
        r == first_unused_from(used@, 0),
{
    let mut v: usize = 0;
    while v <= used.len() && v < MARKER_SPACE
        invariant
            0 <= v,
            v <= used@.len() + 1,
            first_unused_from(used@, 0) == first_unused_from(used@, v as int),
        decreases used@.len() + 1 - v,
    {
        let c = packed_exec(v as u32);
        if !contains_marker(used, c) {
            return c;
        }
        v += 1;
    }
    packed_exec(0)
}

/// Picks a marker from drawn `candidates`: the first one not in `used`,
/// else the first unused colour in `packed` order.
pub fn pick_marker(candidates: &Vec<Rgba>, used: &Vec<Rgba>) -> (r: Rgba)
    ensures
        r == first_fresh(candidates@, used@),
{
    let mut i: usize = 0;
    assert(candidates@.subrange(0, candidates@.len() as int) =~= candidates@);
    while i < candidates.len()
        invariant
            0 <= i <= candidates@.len(),
            first_fresh(candidates@, used@) == first_fresh(
                candidates@.subrange(i as int, candidates@.len() as int),
                used@,
            ),
        decreases candidates@.len() - i,
    {
        let c = candidates[i];
        let ghost rest = candidates@.subrange(i as int, candidates@.len() as int);
        assert(rest[0] == c);
        if !contains_marker(used, c) {
            return c;
        }
        assert(rest.subrange(1, rest.len() as int) =~= candidates@.subrange(
            i + 1,
            candidates@.len() as int,
        ));
        i += 1;
    }
    assert(candidates@.subrange(i as int, candidates@.len() as int).len() == 0);
    first_unused(used)
}

/// A fresh marker: `MAX_DRAWS` random opaque colours are drawn and the first
/// one that `used` does not hold is taken; when all collide, the first
/// unused colour in `packed` order. It is never white, and it is new
/// whenever `used` holds fewer than `MARKER_SPACE` colours.
pub fn fresh_marker(used: &Vec<Rgba>) -> (r: Rgba)
    ensures
        r.a == 255,
        r != white(),
        used@.len() < MARKER_SPACE ==> !used@.contains(r),
{
    let mut rng = random_source();
    let mut candidates: Vec<Rgba> = Vec::new();
    let mut draws: usize = 0;
    while draws < MAX_DRAWS
        invariant
            0 <= draws <= MAX_DRAWS,
            candidates@.len() == draws,
            forall|j: int|
                0 <= j < draws ==> (#[trigger] candidates@[j]).a == 255 && candidates@[j].r < 255,
        decreases MAX_DRAWS - draws,
    {
        let r = draw_channel(&mut rng);
        let g = draw_channel(&mut rng);
        let b = draw_channel(&mut rng);
        candidates.push(Rgba { r, g, b, a: 255 });
        draws += 1;
    }
    let r = pick_marker(&candidates, used);
    proof {
        lemma_first_fresh(candidates@, used@);
        if used@.len() < MARKER_SPACE {
            lemma_first_unused(used@);
        } else {
            lemma_first_unused_from(used@, 0);
        }
        if r != first_unused_from(used@, 0) {
            let t = choose|t: int| 0 <= t < candidates@.len() && candidates@[t] == r;
            assert(candidates@[t].a == 255);
        }
    }
    r
}

/// Everything the scan keeps true of the labels and islands found so far.
spec fn scan_state(raster: Raster, cells: Seq<usize>, islands: Seq<Island>, used: Seq<Rgba>) -> bool {
    let (w, h) = (raster.width as int, raster.height as int);
    &&& cells.len() == raster.pixels@.len()
    &&& used.len() == islands.len()
    &&& forall|x: u32, y: u32|
        in_bounds(w, h, x as int, y as int) ==> {
            let c = #[trigger] cells[idx(w, x as int, y as int)];
            &&& (c == TRANSPARENT_LABEL) == (raster.at(x as int, y as int).a == 0)
            &&& c == TRANSPARENT_LABEL || c == PENDING_LABEL || (2 <= c < islands.len() + 2
                && islands[c - 2].pixel_coordinates@.contains((x, y)))
        }
    &&& forall|k: int|
        0 <= k < islands.len() ==> {
            let isl = #[trigger] islands[k];
            &&& isl.id == k
            &&& isl.marker == used[k]
            &&& isl.marker.a == 255
            &&& isl.marker != white()
            &&& isl.pixel_coordinates@.len() > 0
            &&& isl.pixel_coordinates@.no_duplicates()
            &&& forall|j: int|
                0 <= j < isl.pixel_coordinates@.len() ==> in_bounds(
                    w,
                    h,
                    (#[trigger] isl.pixel_coordinates@[j]).0 as int,
                    isl.pixel_coordinates@[j].1 as int,
                ) && cells[idx(
                    w,
                    isl.pixel_coordinates@[j].0 as int,
                    isl.pixel_coordinates@[j].1 as int,
                )] == island_label(k)
        }
    &&& forall|i: int, j: int|
        0 <= i < j < islands.len() && j < MARKER_SPACE ==> #[trigger] used[i] != #[trigger] used[j]
}

proof fn lemma_scan_step(
    raster: Raster,
    before: Seq<usize>,
    after: Seq<usize>,
    islands: Seq<Island>,
    used: Seq<Rgba>,
    island: Island,
    x: u32,
    y: u32,
)
    requires
        raster.wf(),
        scan_state(raster, before, islands, used),
        in_bounds(raster.width as int, raster.height as int, x as int, y as int),
        before[idx(raster.width as int, x as int, y as int)] == PENDING_LABEL,
        islands.len() + 2 <= usize::MAX,
        island.id == islands.len(),
        island.marker.a == 255,
        island.marker != white(),
        islands.len() < MARKER_SPACE ==> !used.contains(island.marker),
        island.pixel_coordinates@.contains((x, y)),
        filled(
            before,
            after,
            raster.width as int,
            raster.height as int,
            PENDING_LABEL,
            (islands.len() + 2) as usize,
            island.pixel_coordinates@,
            island.top_right,
            island.bottom_left,
        ),
    ensures
        scan_state(raster, after, islands.push(island), used.push(island.marker)),
        forall|px: u32, py: u32|
            in_bounds(raster.width as int, raster.height as int, px as int, py as int)
                && #[trigger] before[idx(raster.width as int, px as int, py as int)] != PENDING_LABEL
                ==> after[idx(raster.width as int, px as int, py as int)] == before[idx(
                raster.width as int,
                px as int,
                py as int,
            )],
{
    let (w, h) = (raster.width as int, raster.height as int);
    let k = islands.len() as int;
    let isl2 = islands.push(island);
    let used2 = used.push(island.marker);
    let pcs = island.pixel_coordinates@;
    assert forall|px: u32, py: u32|
        in_bounds(w, h, px as int, py as int) && pcs.contains((px, py)) implies before[idx(
        w,
        px as int,
        py as int,
    )] == PENDING_LABEL by {
        let j = choose|j: int| 0 <= j < pcs.len() && pcs[j] == (px, py);
        assert(before[idx(w, pcs[j].0 as int, pcs[j].1 as int)] == PENDING_LABEL);
    }
    assert forall|px: u32, py: u32|
        in_bounds(w, h, px as int, py as int) && #[trigger] before[idx(w, px as int, py as int)]
            != PENDING_LABEL implies after[idx(w, px as int, py as int)] == before[idx(
        w,
        px as int,
        py as int,
    )] by {
        assert(after[idx(w, px as int, py as int)] == if pcs.contains((px, py)) {
            (k + 2) as usize
        } else {
            before[idx(w, px as int, py as int)]
        });
    }
    assert forall|px: u32, py: u32| in_bounds(w, h, px as int, py as int) implies {
        let c = #[trigger] after[idx(w, px as int, py as int)];
        &&& (c == TRANSPARENT_LABEL) == (raster.at(px as int, py as int).a == 0)
        &&& c == TRANSPARENT_LABEL || c == PENDING_LABEL || (2 <= c < isl2.len() + 2
            && isl2[c - 2].pixel_coordinates@.contains((px, py)))
    } by {
        let c0 = before[idx(w, px as int, py as int)];
        assert(after[idx(w, px as int, py as int)] == if pcs.contains((px, py)) {
            (k + 2) as usize
        } else {
            c0
        });
        if pcs.contains((px, py)) {
            assert(isl2[k] == island);
        } else if 2 <= c0 {
            assert(isl2[c0 - 2] == islands[c0 - 2]);
        }
    }
    assert forall|kk: int| 0 <= kk < isl2.len() implies {
        let isl = #[trigger] isl2[kk];
        &&& isl.id == kk
        &&& isl.marker == used2[kk]
        &&& isl.marker.a == 255
        &&& isl.marker != white()
        &&& isl.pixel_coordinates@.len() > 0
        &&& isl.pixel_coordinates@.no_duplicates()
        &&& forall|j: int|
            0 <= j < isl.pixel_coordinates@.len() ==> in_bounds(
                w,
                h,
                (#[trigger] isl.pixel_coordinates@[j]).0 as int,
                isl.pixel_coordinates@[j].1 as int,
            ) && after[idx(
                w,
                isl.pixel_coordinates@[j].0 as int,
                isl.pixel_coordinates@[j].1 as int,
            )] == island_label(kk)
    } by {
        if kk < k {
            let isl = islands[kk];
            assert(isl2[kk] == isl);
            assert forall|j: int| 0 <= j < isl.pixel_coordinates@.len() implies after[idx(
                w,
                (#[trigger] isl.pixel_coordinates@[j]).0 as int,
                isl.pixel_coordinates@[j].1 as int,
            )] == island_label(kk) by {
                let p = isl.pixel_coordinates@[j];
                assert(before[idx(w, p.0 as int, p.1 as int)] == island_label(kk));
            }
        } else {
            assert(isl2[kk] == island);
            assert(pcs.len() > 0);
            assert forall|j: int| 0 <= j < pcs.len() implies after[idx(
                w,
                (#[trigger] pcs[j]).0 as int,
                pcs[j].1 as int,
            )] == island_label(kk) by {
                let p = pcs[j];
                assert(pcs.contains(p));
                assert(after[idx(w, p.0 as int, p.1 as int)] == if pcs.contains((p.0, p.1)) {
                    (k + 2) as usize
                } else {
                    before[idx(w, p.0 as int, p.1 as int)]
                });
            }
        }
    }
    assert forall|i: int, j: int|
        0 <= i < j < isl2.len() && j < MARKER_SPACE implies #[trigger] used2[i]
        != #[trigger] used2[j] by {
        if j == k {
            assert(used2[j] == island.marker);
            assert(used2[i] == used[i]);
            assert(used[i] == islands[i].marker);
            assert(used.contains(used[i]));
        } else {
            assert(used2[i] == used[i]);
            assert(used2[j] == used[j]);
        }
    }
}

/// No pixel of an island has an opaque neighbour outside it: with the
/// partition, no two islands touch, so each island is a union of whole
/// connected regions.
pub open spec fn islands_closed(
    raster: Raster,
    cells: Seq<usize>,
    islands: Seq<Island>,
    conn: Connectivity,
) -> bool {
    forall|k: int, j: int, kk: int|
        0 <= k < islands.len() && 0 <= j < islands[k].pixel_coordinates@.len() && 0 <= kk
            < offsets(conn).len() && step_in(
            raster.width as int,
            raster.height as int,
            islands[k].pixel_coordinates@[j],
            offsets(conn)[kk],
        ) && raster.opaque(
            step(islands[k].pixel_coordinates@[j], offsets(conn)[kk]).0,
            step(islands[k].pixel_coordinates@[j], offsets(conn)[kk]).1,
        ) ==> cells[idx(
            raster.width as int,
            (#[trigger] step_pixel(islands[k].pixel_coordinates@[j], offsets(conn)[kk])).0 as int,
            step_pixel(islands[k].pixel_coordinates@[j], offsets(conn)[kk]).1 as int,
        )] == island_label(k) && islands[k].pixel_coordinates@.contains(
            step_pixel(islands[k].pixel_coordinates@[j], offsets(conn)[kk]),
        )
}

/// The offset pointing back the other way.
pub open spec fn opposite(k: int) -> int {
    if k < 4 {
        if k % 2 == 0 {
            k + 1
        } else {
            k - 1
        }
    } else {
        11 - k
    }
}

proof fn lemma_opposite(conn: Connectivity, k: int)
    requires
        0 <= k < offsets(conn).len(),
    ensures
        0 <= opposite(k) < offsets(conn).len(),
        offsets(conn)[opposite(k)].0 == -offsets(conn)[k].0,
        offsets(conn)[opposite(k)].1 == -offsets(conn)[k].1,
{
    let four = seq![(-1i32, 0i32), (1i32, 0i32), (0i32, -1i32), (0i32, 1i32)];
    let diag = seq![(-1i32, -1i32), (1i32, -1i32), (-1i32, 1i32), (1i32, 1i32)];
    assert(offsets(Connectivity::Eight) =~= four + diag);
    assert(offsets(Connectivity::Eight)[4] == (-1i32, -1i32));
    assert(offsets(Connectivity::Eight)[5] == (1i32, -1i32));
    assert(offsets(Connectivity::Eight)[6] == (-1i32, 1i32));
    assert(offsets(Connectivity::Eight)[7] == (1i32, 1i32));
}

proof fn lemma_closed_step(
    raster: Raster,
    before: Seq<usize>,
    after: Seq<usize>,
    islands: Seq<Island>,
    used: Seq<Rgba>,
    island: Island,
    conn: Connectivity,
)
    requires
        raster.wf(),
        scan_state(raster, before, islands, used),
        islands_closed(raster, before, islands, conn),
        islands.len() + 2 <= usize::MAX,
        filled(
            before,
            after,
            raster.width as int,
            raster.height as int,
            PENDING_LABEL,
            (islands.len() + 2) as usize,
            island.pixel_coordinates@,
            island.top_right,
            island.bottom_left,
        ),
        closed(
            before,
            raster.width as int,
            raster.height as int,
            PENDING_LABEL,
            conn,
            island.pixel_coordinates@,
        ),
    ensures
        islands_closed(raster, after, islands.push(island), conn),
{
    let (w, h) = (raster.width as int, raster.height as int);
    let n = islands.len() as int;
    let isl2 = islands.push(island);
    let pcs = island.pixel_coordinates@;
    let offs = offsets(conn);
    assert forall|k: int, j: int, kk: int|
        0 <= k < isl2.len() && 0 <= j < isl2[k].pixel_coordinates@.len() && 0 <= kk < offs.len()
            && step_in(w, h, isl2[k].pixel_coordinates@[j], offs[kk]) && raster.opaque(
            step(isl2[k].pixel_coordinates@[j], offs[kk]).0,
            step(isl2[k].pixel_coordinates@[j], offs[kk]).1,
        ) implies after[idx(
        w,
        (#[trigger] step_pixel(isl2[k].pixel_coordinates@[j], offs[kk])).0 as int,
        step_pixel(isl2[k].pixel_coordinates@[j], offs[kk]).1 as int,
    )] == island_label(k) && isl2[k].pixel_coordinates@.contains(
        step_pixel(isl2[k].pixel_coordinates@[j], offs[kk]),
    ) by {
        let p = isl2[k].pixel_coordinates@[j];
        let q = step_pixel(p, offs[kk]);
        let qi = idx(w, q.0 as int, q.1 as int);
        assert(q.0 as int == step(p, offs[kk]).0);
        assert(q.1 as int == step(p, offs[kk]).1);
        assert(in_bounds(w, h, q.0 as int, q.1 as int));
        assert(after[qi] == if pcs.contains(q) {
            (n + 2) as usize
        } else {
            before[qi]
        });
        if k < n {
            assert(isl2[k] == islands[k]);
            assert(islands[k].pixel_coordinates@[j] == p);
            assert(step_pixel(islands[k].pixel_coordinates@[j], offsets(conn)[kk]) == q);
            assert(before[qi] == island_label(k));
        } else {
            assert(isl2[k] == island);
            assert(before[idx(w, p.0 as int, p.1 as int)] == PENDING_LABEL);
            let c = before[qi];
            if c == PENDING_LABEL {
                assert(pcs.contains(q));
            } else {
                assert(c != TRANSPARENT_LABEL);
                let k2 = c - 2;
                let pcs2 = islands[k2].pixel_coordinates@;
                assert(pcs2.contains(q));
                let j2 = choose|j2: int| 0 <= j2 < pcs2.len() && pcs2[j2] == q;
                lemma_opposite(conn, kk);
                let back = opposite(kk);
                assert(step_pixel(q, offs[back]) == p);
                assert(before[idx(w, p.0 as int, p.1 as int)] != TRANSPARENT_LABEL);
                assert(raster.opaque(p.0 as int, p.1 as int));
                assert(islands[k2].pixel_coordinates@[j2] == q);
                assert(step_pixel(islands[k2].pixel_coordinates@[j2], offs[back]) == p);
                assert(before[idx(
                    w,
                    step(islands[k2].pixel_coordinates@[j2], offs[back]).0,
                    step(islands[k2].pixel_coordinates@[j2], offs[back]).1,
                )] == island_label(k2));
            }
        }
    }
}

proof fn lemma_scan_done(raster: Raster, cells: Seq<usize>, islands: Seq<Island>, used: Seq<Rgba>)
    requires
        raster.wf(),
        scan_state(raster, cells, islands, used),
        forall|px: u32, py: u32|
            px < raster.width && py < raster.height ==> #[trigger] cells[idx(
                raster.width as int,
                px as int,
                py as int,
            )] != PENDING_LABEL,
    ensures
        is_partition(raster, islands),
        forall|x: u32, y: u32|
            in_bounds(raster.width as int, raster.height as int, x as int, y as int) ==> {
                let c = #[trigger] cells[idx(raster.width as int, x as int, y as int)];
                &&& (c == TRANSPARENT_LABEL) == !raster.opaque(x as int, y as int)
                &&& c != TRANSPARENT_LABEL ==> 2 <= c < islands.len() + 2
                    && islands[c - 2].pixel_coordinates@.contains((x, y))
            },
        forall|i: int, j: int|
            0 <= i < j < islands.len() && j < MARKER_SPACE ==> (#[trigger] islands[i]).marker
                != (#[trigger] islands[j]).marker,
{
    let (w, h) = (raster.width as int, raster.height as int);
    assert forall|k: int, j: int|
        0 <= k < islands.len() && 0 <= j < islands[k].pixel_coordinates@.len() implies raster.opaque(
        (#[trigger] islands[k].pixel_coordinates@[j]).0 as int,
        islands[k].pixel_coordinates@[j].1 as int,
    ) by {
        let isl = islands[k];
        let p = isl.pixel_coordinates@[j];
        assert(cells[idx(w, p.0 as int, p.1 as int)] == island_label(k));
    }
    assert forall|k1: int, k2: int, p: Pixel|
        0 <= k1 < islands.len() && 0 <= k2 < islands.len()
            && #[trigger] islands[k1].pixel_coordinates@.contains(p)
            && #[trigger] islands[k2].pixel_coordinates@.contains(p) implies k1 == k2 by {
        let (i1, i2) = (islands[k1], islands[k2]);
        let j1 = choose|j: int| 0 <= j < i1.pixel_coordinates@.len() && i1.pixel_coordinates@[j] == p;
        let j2 = choose|j: int| 0 <= j < i2.pixel_coordinates@.len() && i2.pixel_coordinates@[j] == p;
        assert(cells[idx(w, i1.pixel_coordinates@[j1].0 as int, i1.pixel_coordinates@[j1].1 as int)]
            == island_label(k1));
        assert(cells[idx(w, i2.pixel_coordinates@[j2].0 as int, i2.pixel_coordinates@[j2].1 as int)]
            == island_label(k2));
    }
    assert forall|x: u32, y: u32| #[trigger] raster.opaque(x as int, y as int) implies exists|k: int|
        0 <= k < islands.len() && #[trigger] islands[k].pixel_coordinates@.contains((x, y)) by {
        let c = cells[idx(w, x as int, y as int)];
        assert(islands[c - 2].pixel_coordinates@.contains((x, y)));
    }
    assert forall|i: int, j: int|
        0 <= i < j < islands.len() && j < MARKER_SPACE implies (#[trigger] islands[i]).marker
        != (#[trigger] islands[j]).marker by {
        assert(islands[i].marker == used[i]);
        assert(islands[j].marker == used[j]);
    }
}

/// A copy of `raster` with every labelled pixel in its island's marker.
fn paint(raster: &Raster, cells: &Vec<usize>, islands: &Vec<Island>) -> (r: Raster)
    requires
        raster.wf(),
        cells@.len() == raster.pixels@.len(),
        forall|i: int|
            0 <= i < cells@.len() ==> #[trigger] cells@[i] == TRANSPARENT_LABEL || 2 <= cells@[i]
                < islands@.len() + 2,
    ensures
        r.width == raster.width,
        r.height == raster.height,
        r.wf(),
        forall|i: int|
            0 <= i < cells@.len() ==> #[trigger] r.pixels@[i] == if cells@[i] == TRANSPARENT_LABEL {
                raster.pixels@[i]
            } else {
                islands@[cells@[i] - 2].marker
            },
{
    let mut pixels: Vec<Rgba> = Vec::new();
    let mut i: usize = 0;
    while i < cells.len()
        invariant
            0 <= i <= cells@.len(),
            cells@.len() == raster.pixels@.len(),
            forall|j: int|
                0 <= j < cells@.len() ==> #[trigger] cells@[j] == TRANSPARENT_LABEL || 2 <= cells@[j]
                    < islands@.len() + 2,
            pixels@.len() == i,
            forall|j: int|
                0 <= j < i ==> #[trigger] pixels@[j] == if cells@[j] == TRANSPARENT_LABEL {
                    raster.pixels@[j]
                } else {
                    islands@[cells@[j] - 2].marker
                },
        decreases cells@.len() - i,
    {
        let c = cells[i];
        if c == TRANSPARENT_LABEL {
            pixels.push(raster.pixels[i]);
        } else {
            pixels.push(islands[c - 2].marker);
        }
        i += 1;
    }
    Raster { width: raster.width, height: raster.height, pixels }
}

/// Partitions the opaque pixels of `raster` into islands of pixels connected
/// through `conn` neighbours, scanning columns left to right and each column
/// top to bottom; each pixel not yet in an island seeds the next one, filled
/// breadth first. The islands are exactly the connected regions: they split
/// the opaque pixels, each is connected, and none touches another. The first
/// island is marked red, the others with random colours; no marker is white,
/// and the markers are pairwise distinct while there are at most
/// `MARKER_SPACE` islands. The caller's raster is not changed; a recoloured
/// copy comes back with the islands.
pub fn segment(raster: &Raster, conn: Connectivity) -> (r: Segmentation)
    requires
        raster.wf(),
    ensures
        r.labels.width == raster.width,
        r.labels.height == raster.height,
        r.labels.wf(),
        is_partition(*raster, r.islands@),
        islands_closed(*raster, r.labels.cells@, r.islands@, conn),
        forall|k: int| 0 <= k < r.islands@.len() ==> chained((#[trigger] r.islands@[k]).pixel_coordinates@, conn),
        forall|k: int|
            0 <= k < r.islands@.len() ==> boxed(
                (#[trigger] r.islands@[k]).pixel_coordinates@,
                r.islands@[k].top_right,
                r.islands@[k].bottom_left,
            ),
        r.islands@.len() > 0 ==> r.islands@[0].marker == first_marker(),
        forall|x: u32, y: u32|
            in_bounds(raster.width as int, raster.height as int, x as int, y as int) ==> {
                let c = #[trigger] r.labels.cells@[idx(raster.width as int, x as int, y as int)];
                &&& (c == TRANSPARENT_LABEL) == !raster.opaque(x as int, y as int)
                &&& c != TRANSPARENT_LABEL ==> 2 <= c < r.islands@.len() + 2
                    && r.islands@[c - 2].pixel_coordinates@.contains((x, y))
            },
        forall|k: int|
            0 <= k < r.islands@.len() ==> {
                let isl = #[trigger] r.islands@[k];
                &&& isl.id == k
                &&& isl.marker.a == 255
                &&& isl.marker != white()
                &&& isl.pixel_coordinates@.len() > 0
                &&& isl.pixel_coordinates@.no_duplicates()
            },
        forall|i: int, j: int|
            0 <= i < j < r.islands@.len() && j < MARKER_SPACE ==> (#[trigger] r.islands@[i]).marker
                != (#[trigger] r.islands@[j]).marker,
        r.recolored.width == raster.width,
        r.recolored.height == raster.height,
        r.recolored.wf(),
        forall|x: u32, y: u32|
            in_bounds(raster.width as int, raster.height as int, x as int, y as int)
                ==> #[trigger] r.recolored.at(x as int, y as int) == if raster.opaque(
                x as int,
                y as int,
            ) {
                r.islands@[r.labels.at(x as int, y as int) - 2].marker
            } else {
                raster.at(x as int, y as int)
            },
{
    let w = raster.width;
    let h = raster.height;
    let ghost (wi, hi) = (w as int, h as int);
    let n = raster.pixels.len();
    let mut cells: Vec<usize> = Vec::new();
    let mut i: usize = 0;
    while i < n
        invariant
            0 <= i <= n,
            n == raster.pixels@.len(),
            cells@.len() == i,
            forall|j: int|
                0 <= j < i ==> #[trigger] cells@[j] == if raster.pixels@[j].a > 0 {
                    PENDING_LABEL
                } else {
                    TRANSPARENT_LABEL
                },
        decreases n - i,
    {
        cells.push(if raster.pixels[i].a > 0 {
            PENDING_LABEL
        } else {
            TRANSPARENT_LABEL
        });
        i += 1;
    }
    let mut labels = LabelGrid { width: w, height: h, cells };
    let mut islands: Vec<Island> = Vec::new();
    let mut used: Vec<Rgba> = Vec::new();
    proof {
        assert forall|x: u32, y: u32| in_bounds(wi, hi, x as int, y as int) implies {
            let c = #[trigger] labels.cells@[idx(wi, x as int, y as int)];
            &&& (c == TRANSPARENT_LABEL) == (raster.at(x as int, y as int).a == 0)
            &&& c == TRANSPARENT_LABEL || c == PENDING_LABEL
        } by {
            lemma_idx_bounds(wi, hi, x as int, y as int);
        }
    }
    let mut x: u32 = 0;
    while x < w
        invariant
            raster.wf(),
            w == raster.width,
            h == raster.height,
            wi == w,
            hi == h,
            x <= w,
            labels.width == w,
            labels.height == h,
            scan_state(*raster, labels.cells@, islands@, used@),
            islands_closed(*raster, labels.cells@, islands@, conn),
            forall|k: int| 0 <= k < islands@.len() ==> chained((#[trigger] islands@[k]).pixel_coordinates@, conn),
            forall|k: int| 0 <= k < islands@.len() ==> boxed((#[trigger] islands@[k]).pixel_coordinates@, islands@[k].top_right, islands@[k].bottom_left),
            islands@.len() > 0 ==> islands@[0].marker == first_marker(),
            islands@.len() <= x * h,
            forall|px: u32, py: u32|
                px < x && py < h ==> #[trigger] labels.cells@[idx(wi, px as int, py as int)]
                    != PENDING_LABEL,
        decreases w - x,
    {
        let mut y: u32 = 0;
        while y < h
            invariant
                raster.wf(),
                w == raster.width,
                h == raster.height,
                wi == w,
                hi == h,
                x < w,
                y <= h,
                labels.width == w,
                labels.height == h,
                scan_state(*raster, labels.cells@, islands@, used@),
                islands_closed(*raster, labels.cells@, islands@, conn),
                forall|k: int| 0 <= k < islands@.len() ==> chained((#[trigger] islands@[k]).pixel_coordinates@, conn),
                forall|k: int| 0 <= k < islands@.len() ==> boxed((#[trigger] islands@[k]).pixel_coordinates@, islands@[k].top_right, islands@[k].bottom_left),
                islands@.len() > 0 ==> islands@[0].marker == first_marker(),
                islands@.len() <= x * h + y,
                forall|px: u32, py: u32|
                    (px < x && py < h) || (px == x && py < y)
                        ==> #[trigger] labels.cells@[idx(wi, px as int, py as int)] != PENDING_LABEL,
            decreases h - y,
        {
            let i = index_of(w, h, x, y);
            if labels.cells[i] == PENDING_LABEL {
                proof {
                    assert(x * h + y < w * h) by (nonlinear_arith)
                        requires
                            x < w,
                            y < h,
                    ;
                }
                let k = islands.len();
                let label = k + 2;
                let marker = if k == 0 {
                    Rgba { r: 255, g: 0, b: 0, a: 255 }
                } else {
                    fresh_marker(&used)
                };
                let ghost before = labels.cells@;
                let (pixel_coordinates, top_right, bottom_left) = fill(x, y, &mut labels, label, conn);
                let island = Island { id: k, marker, pixel_coordinates, top_right, bottom_left };
                let ghost island_g = island;
                let ghost old_islands = islands@;
                let ghost old_used = used@;
                islands.push(island);
                used.push(marker);
                proof {
                    lemma_scan_step(*raster, before, labels.cells@, old_islands, old_used, island_g, x, y);
                    lemma_closed_step(*raster, before, labels.cells@, old_islands, old_used, island_g, conn);
                    assert(islands@ =~= old_islands.push(island_g));
                    assert forall|kk: int| 0 <= kk < islands@.len() implies chained((#[trigger] islands@[kk]).pixel_coordinates@, conn)
                        && boxed(islands@[kk].pixel_coordinates@, islands@[kk].top_right, islands@[kk].bottom_left) by {
                        if kk < old_islands.len() {
                            assert(islands@[kk] == old_islands[kk]);
                        }
                    }
                    assert(islands@[0].marker == first_marker());
                }
            }
            y += 1;
        }
        assert(x * h + h == (x + 1) * h) by (nonlinear_arith);
        x += 1;
    }
    proof {
        lemma_scan_done(*raster, labels.cells@, islands@, used@);
        assert forall|i: int| 0 <= i < labels.cells@.len() implies #[trigger] labels.cells@[i]
            == TRANSPARENT_LABEL || 2 <= labels.cells@[i] < islands@.len() + 2 by {
            lemma_idx_onto(wi, hi, i);
            let (px, py) = ((i % wi) as u32, (i / wi) as u32);
            assert(labels.cells@[idx(wi, px as int, py as int)] == labels.cells@[i]);
        }
    }
    let recolored = paint(raster, &labels.cells, &islands);
    proof {
        assert forall|x: u32, y: u32|
            in_bounds(wi, hi, x as int, y as int) implies #[trigger] recolored.at(x as int, y as int)
            == if raster.opaque(x as int, y as int) {
            islands@[labels.at(x as int, y as int) - 2].marker
        } else {
            raster.at(x as int, y as int)
        } by {
            lemma_idx_bounds(wi, hi, x as int, y as int);
            let i = idx(wi, x as int, y as int);
            assert(recolored.pixels@[i] == if labels.cells@[i] == TRANSPARENT_LABEL {
                raster.pixels@[i]
            } else {
                islands@[labels.cells@[i] - 2].marker
            });
        }
    }
    Segmentation { islands, labels, recolored }
}

} // verus!
