//! Boundary tracing: for each pixel of an island, one short segment towards
//! every neighbour that lies on the raster and is transparent, in normalized
//! coordinates (`x` from -1 at the left edge to 1 at the right, `y` from 1 at
//! the top edge to -1 at the bottom).
use crate::geometry::{Coord, Line, Vertex};
use crate::numeric::{floor_div, lemma_div_bounds, UNIT};
use crate::raster::{in_bounds, Pixel, Raster};
use crate::segment::Island;
use vstd::arithmetic::div_mod::{lemma_div_is_ordered, lemma_div_multiples_vanish};
use vstd::prelude::*;

verus! {

/// The eight neighbour offsets, clockwise from the one below.
pub open spec fn ring() -> Seq<(i32, i32)> {
    seq![
        (0i32, 1i32),
        (1i32, 1i32),
        (1i32, 0i32),
        (1i32, -1i32),
        (0i32, -1i32),
        (-1i32, -1i32),
        (-1i32, 0i32),
        (-1i32, 1i32),
    ]
}

/// Column `v` of a raster `w` wide, from -1 to 1.
pub open spec fn norm_x(v: int, w: int) -> int {
    (2 * v - w) * UNIT / w
}

/// Row `v` of a raster `h` high, from 1 down to -1.
pub open spec fn norm_y(v: int, h: int) -> int {
    (h - 2 * v) * UNIT / h
}

/// Column `v` stretched by the aspect ratio `w / h`.
pub open spec fn aspect_x(v: int, w: int, h: int) -> int {
    (2 * v - w) * UNIT / h
}

/// The vertex at the centre of pixel `(px, py)`; its texture coordinates are
/// normalized, and so is its position but for the aspect stretch.
pub open spec fn pixel_vertex(raster: Raster, aspect: bool, px: int, py: int) -> Vertex {
    let (w, h) = (raster.width as int, raster.height as int);
    Vertex {
        position: Coord {
            x: if aspect {
                aspect_x(px, w, h) as i32
            } else {
                norm_x(px, w) as i32
            },
            y: norm_y(py, h) as i32,
        },
        tex_coords: Coord { x: norm_x(px, w) as i32, y: norm_y(py, h) as i32 },
    }
}

/// The segment from the centre of `p` to the centre of its neighbour at `o`.
pub open spec fn edge(raster: Raster, aspect: bool, p: Pixel, o: (i32, i32)) -> Line {
    Line {
        start: pixel_vertex(raster, aspect, p.0 as int, p.1 as int),
        end: pixel_vertex(raster, aspect, p.0 + o.0, p.1 + o.1),
    }
}

/// The edges of `p` towards the first `k` offsets of the ring whose pixel
/// lies on the raster and is transparent.
pub open spec fn pixel_edges(raster: Raster, aspect: bool, p: Pixel, k: int) -> Seq<Line>
    decreases k,
{
    if k <= 0 {
        Seq::empty()
    } else {
        let prev = pixel_edges(raster, aspect, p, k - 1);
        let o = ring()[k - 1];
        if !raster.transparent(p.0 + o.0, p.1 + o.1) {
            prev
        } else {
            prev.push(edge(raster, aspect, p, o))
        }
    }
}

/// The edges of the pixels, pixel by pixel.
pub open spec fn island_edges(raster: Raster, aspect: bool, pixels: Seq<Pixel>) -> Seq<Line>
    decreases pixels.len(),
{
    if pixels.len() == 0 {
        Seq::empty()
    } else {
        island_edges(raster, aspect, pixels.drop_last()) + pixel_edges(
            raster,
            aspect,
            pixels.last(),
            8,
        )
    }
}

/// The edges of the islands, island by island.
pub open spec fn boundary_lines(raster: Raster, aspect: bool, islands: Seq<Island>) -> Seq<Line>
    decreases islands.len(),
{
    if islands.len() == 0 {
        Seq::empty()
    } else {
        boundary_lines(raster, aspect, islands.drop_last()) + island_edges(
            raster,
            aspect,
            islands.last().pixel_coordinates@,
        )
    }
}

/// The stretched coordinates fit in an `i32`.
pub open spec fn aspect_fits(raster: Raster) -> bool {
    (raster.width + 2) * UNIT <= i32::MAX * raster.height
}

pub(crate) fn ring_exec() -> (r: Vec<(i32, i32)>)
    ensures
        r@ == ring(),
{
    let mut r = Vec::new();
    r.push((0, 1));
    r.push((1, 1));
    r.push((1, 0));
    r.push((1, -1));
    r.push((0, -1));
    r.push((-1, -1));
    r.push((-1, 0));
    r.push((-1, 1));
    proof {
        assert(r@ =~= ring());
    }
    r
}

/// `n * UNIT / d` rounded down, for `|n| <= limit` small enough that the
/// result fits an `i32`.
fn scaled(n: i64, d: i64, limit: i64) -> (r: i32)
    requires
        d > 0,
        0 <= limit <= 0x1_0000_0002,
        -limit <= n <= limit,
        limit * UNIT <= i32::MAX * d,
    ensures
        r == (n as int) * (UNIT as int) / (d as int),
{
    let a = n as i128 * UNIT as i128;
    proof {
        assert(-limit * UNIT <= a <= limit * UNIT) by (nonlinear_arith)
            requires
                -limit <= n <= limit,
                a == n * UNIT,
        ;
    }
    let q = floor_div(a, d as i128);
    proof {
        lemma_div_bounds(a as int, d as int);
        if q > i32::MAX {
            assert(q * d >= (i32::MAX + 1) * d) by (nonlinear_arith)
                requires
                    q >= i32::MAX + 1,
                    d > 0,
            ;
        }
        if q < i32::MIN {
            assert((q + 1) * d <= i32::MIN * d) by (nonlinear_arith)
                requires
                    q + 1 <= i32::MIN,
                    d > 0,
            ;
        }
    }
    q as i32
}

pub(crate) fn pixel_vertex_exec(raster: &Raster, aspect: bool, px: i64, py: i64) -> (r: Vertex)
    requires
        raster.wf(),
        -1 <= px <= raster.width,
        -1 <= py <= raster.height,
        aspect ==> aspect_fits(*raster),
    ensures
        r == pixel_vertex(*raster, aspect, px as int, py as int),
{
    let w = raster.width as i64;
    let h = raster.height as i64;
    proof {
        assert((w + 2) * UNIT <= i32::MAX * w) by (nonlinear_arith)
            requires
                w >= 1,
        ;
        assert((h + 2) * UNIT <= i32::MAX * h) by (nonlinear_arith)
            requires
                h >= 1,
        ;
    }
    let tx = scaled(2 * px - w, w, w + 2);
    let ty = scaled(h - 2 * py, h, h + 2);
    let x = if aspect {
        scaled(2 * px - w, h, w + 2)
    } else {
        tx
    };
    Vertex { position: Coord { x, y: ty }, tex_coords: Coord { x: tx, y: ty } }
}

/// The island pixels all lie in the raster.
pub open spec fn islands_in(raster: Raster, islands: Seq<Island>) -> bool {
    forall|k: int, j: int|
        0 <= k < islands.len() && 0 <= j < islands[k].pixel_coordinates@.len() ==> in_bounds(
            raster.width as int,
            raster.height as int,
            (#[trigger] islands[k].pixel_coordinates@[j]).0 as int,
            islands[k].pixel_coordinates@[j].1 as int,
        )
}

/// Traces the boundary of each island: for each of its pixels in order, and
/// each neighbour offset of the ring in order, the segment from the pixel's
/// centre to the neighbour's centre when the neighbour lies on the raster
/// and is transparent. With `aspect` set, positions are stretched along x by the
/// raster's aspect ratio; texture coordinates never are.
pub fn trace_boundaries(raster: &Raster, islands: &Vec<Island>, aspect: bool) -> (r: Vec<Line>)
    requires
        raster.wf(),
        aspect ==> aspect_fits(*raster),
        islands_in(*raster, islands@),
    ensures
        r@ == boundary_lines(*raster, aspect, islands@),
{
    let offs = ring_exec();
    let mut lines: Vec<Line> = Vec::new();
    let mut k: usize = 0;
    proof {
        assert(islands@.take(0) =~= Seq::<Island>::empty());
    }
    while k < islands.len()
        invariant
            0 <= k <= islands@.len(),
            raster.wf(),
            aspect ==> aspect_fits(*raster),
            islands_in(*raster, islands@),
            offs@ == ring(),
            lines@ == boundary_lines(*raster, aspect, islands@.take(k as int)),
        decreases islands@.len() - k,
    {
        let pixels = &islands[k].pixel_coordinates;
        let ghost base = lines@;
        let mut j: usize = 0;
        proof {
            assert(pixels@.take(0) =~= Seq::<Pixel>::empty());
            assert(lines@ =~= base + island_edges(*raster, aspect, pixels@.take(0)));
        }
        while j < pixels.len()
            invariant
                0 <= j <= pixels@.len(),
                0 <= k < islands@.len(),
                pixels@ == islands@[k as int].pixel_coordinates@,
                raster.wf(),
                aspect ==> aspect_fits(*raster),
                islands_in(*raster, islands@),
                offs@ == ring(),
                lines@ == base + island_edges(*raster, aspect, pixels@.take(j as int)),
            decreases pixels@.len() - j,
        {
            let p = pixels[j];
            proof {
                assert(islands@[k as int].pixel_coordinates@[j as int] == p);
            }
            let ghost mid = lines@;
            let mut o: usize = 0;
            proof {
                assert(lines@ =~= mid + pixel_edges(*raster, aspect, p, 0));
            }
            while o < 8
                invariant
                    0 <= o <= 8,
                    raster.wf(),
                    aspect ==> aspect_fits(*raster),
                    in_bounds(raster.width as int, raster.height as int, p.0 as int, p.1 as int),
                    offs@ == ring(),
                    lines@ == mid + pixel_edges(*raster, aspect, p, o as int),
                decreases 8 - o,
            {
                let (dx, dy) = offs[o];
                let nx = p.0 as i64 + dx as i64;
                let ny = p.1 as i64 + dy as i64;
                if raster.is_transparent(nx, ny) {
                    let start = pixel_vertex_exec(raster, aspect, p.0 as i64, p.1 as i64);
                    let end = pixel_vertex_exec(raster, aspect, nx, ny);
                    lines.push(Line { start, end });
                    proof {
                        assert(lines@ =~= mid + pixel_edges(*raster, aspect, p, o + 1));
                    }
                }
                o += 1;
            }
            proof {
                let t = pixels@.take(j + 1);
                assert(t.drop_last() =~= pixels@.take(j as int));
                assert(t.last() == p);
                assert(lines@ =~= base + island_edges(*raster, aspect, t));
            }
            j += 1;
        }
        proof {
            let t = islands@.take(k + 1);
            assert(t.drop_last() =~= islands@.take(k as int));
            assert(pixels@.take(pixels@.len() as int) =~= pixels@);
            assert(lines@ =~= boundary_lines(*raster, aspect, t));
        }
        k += 1;
    }
    proof {
        assert(islands@.take(islands@.len() as int) =~= islands@);
    }
    lines
}

/// `l` runs from the centre of an opaque pixel to the centre of a
/// transparent neighbour on the raster.
pub open spec fn is_boundary_edge(raster: Raster, aspect: bool, l: Line) -> bool {
    exists|p: Pixel, k: int|
        #![trigger edge(raster, aspect, p, ring()[k])]
        raster.opaque(p.0 as int, p.1 as int) && 0 <= k < 8 && raster.transparent(
            p.0 + ring()[k].0,
            p.1 + ring()[k].1,
        ) && l == edge(raster, aspect, p, ring()[k])
}

proof fn lemma_pixel_edges_sound(raster: Raster, aspect: bool, p: Pixel, k: int, i: int)
    requires
        0 <= k <= 8,
        0 <= i < pixel_edges(raster, aspect, p, k).len(),
    ensures
        exists|kk: int|
            0 <= kk < k && raster.transparent(p.0 + ring()[kk].0, p.1 + ring()[kk].1)
                && pixel_edges(raster, aspect, p, k)[i] == edge(raster, aspect, p, ring()[kk]),
    decreases k,
{
    let prev = pixel_edges(raster, aspect, p, k - 1);
    if i < prev.len() {
        lemma_pixel_edges_sound(raster, aspect, p, k - 1, i);
    } else {
        assert(pixel_edges(raster, aspect, p, k)[i] == edge(raster, aspect, p, ring()[k - 1]));
    }
}

proof fn lemma_island_edges_sound(raster: Raster, aspect: bool, pixels: Seq<Pixel>, i: int)
    requires
        0 <= i < island_edges(raster, aspect, pixels).len(),
        forall|j: int|
            0 <= j < pixels.len() ==> raster.opaque(
                (#[trigger] pixels[j]).0 as int,
                pixels[j].1 as int,
            ),
    ensures
        is_boundary_edge(raster, aspect, island_edges(raster, aspect, pixels)[i]),
    decreases pixels.len(),
{
    let prev = island_edges(raster, aspect, pixels.drop_last());
    let p = pixels.last();
    assert(pixels[pixels.len() - 1] == p);
    if i < prev.len() {
        lemma_island_edges_sound(raster, aspect, pixels.drop_last(), i);
    } else {
        lemma_pixel_edges_sound(raster, aspect, p, 8, i - prev.len());
        let kk = choose|kk: int|
            0 <= kk < 8 && raster.transparent(p.0 + ring()[kk].0, p.1 + ring()[kk].1)
                && pixel_edges(raster, aspect, p, 8)[i - prev.len()] == edge(
                raster,
                aspect,
                p,
                ring()[kk],
            );
        assert(island_edges(raster, aspect, pixels)[i] == edge(raster, aspect, p, ring()[kk]));
    }
}

/// Column-major scan position `t` of a raster `h` high: column `t / h`,
/// row `t % h`.
pub open spec fn scan_pixel(h: int, t: int) -> Pixel {
    ((t / h) as u32, (t % h) as u32)
}

/// The opaque pixels among the first `t` positions of the column-major scan,
/// in scan order.
pub open spec fn opaque_scan(raster: Raster, t: int) -> Seq<Pixel>
    decreases t,
{
    if t <= 0 {
        Seq::empty()
    } else {
        let prev = opaque_scan(raster, t - 1);
        let p = scan_pixel(raster.height as int, t - 1);
        if raster.opaque(p.0 as int, p.1 as int) {
            prev.push(p)
        } else {
            prev
        }
    }
}

proof fn lemma_opaque_scan_opaque(raster: Raster, t: int)
    ensures
        forall|j: int|
            0 <= j < opaque_scan(raster, t).len() ==> raster.opaque(
                (#[trigger] opaque_scan(raster, t)[j]).0 as int,
                opaque_scan(raster, t)[j].1 as int,
            ),
    decreases t,
{
    if t > 0 {
        lemma_opaque_scan_opaque(raster, t - 1);
        let prev = opaque_scan(raster, t - 1);
        assert forall|j: int| 0 <= j < opaque_scan(raster, t).len() implies raster.opaque(
            (#[trigger] opaque_scan(raster, t)[j]).0 as int,
            opaque_scan(raster, t)[j].1 as int,
        ) by {
            if j < prev.len() {
                assert(opaque_scan(raster, t)[j] == prev[j]);
            }
        }
    }
}

fn push_pixel_edges(raster: &Raster, aspect: bool, offs: &Vec<(i32, i32)>, p: Pixel, lines: &mut Vec<Line>)
    requires
        raster.wf(),
        aspect ==> aspect_fits(*raster),
        offs@ == ring(),
        in_bounds(raster.width as int, raster.height as int, p.0 as int, p.1 as int),
    ensures
        final(lines)@ == old(lines)@ + pixel_edges(*raster, aspect, p, 8),
{
    let ghost base = lines@;
    let mut o: usize = 0;
    assert(lines@ =~= base + pixel_edges(*raster, aspect, p, 0));
    while o < 8
        invariant
            0 <= o <= 8,
            raster.wf(),
            aspect ==> aspect_fits(*raster),
            in_bounds(raster.width as int, raster.height as int, p.0 as int, p.1 as int),
            offs@ == ring(),
            lines@ == base + pixel_edges(*raster, aspect, p, o as int),
        decreases 8 - o,
    {
        let (dx, dy) = offs[o];
        let nx = p.0 as i64 + dx as i64;
        let ny = p.1 as i64 + dy as i64;
        if raster.is_transparent(nx, ny) {
            let start = pixel_vertex_exec(raster, aspect, p.0 as i64, p.1 as i64);
            let end = pixel_vertex_exec(raster, aspect, nx, ny);
            lines.push(Line { start, end });
            proof {
                assert(lines@ =~= base + pixel_edges(*raster, aspect, p, o + 1));
            }
        }
        o += 1;
    }
}

/// The boundary lines of a whole raster: the edges of each opaque pixel in
/// column-major scan order (columns left to right, each top to bottom). As
/// the islands of `segment` split the opaque pixels, these are the lines of
/// all islands together, in an order fixed by the raster alone.
pub fn generate_mesh_from_image(raster: &Raster, aspect: bool) -> (r: Vec<Line>)
    requires
        raster.wf(),
        aspect ==> aspect_fits(*raster),
    ensures
        r@ == island_edges(
            *raster,
            aspect,
            opaque_scan(*raster, raster.width * raster.height),
        ),
        forall|i: int| 0 <= i < r@.len() ==> is_boundary_edge(*raster, aspect, #[trigger] r@[i]),
{
    let w = raster.width;
    let h = raster.height;
    let ghost hi = h as int;
    let offs = ring_exec();
    let mut lines: Vec<Line> = Vec::new();
    let mut x: u32 = 0;
    while x < w
        invariant
            raster.wf(),
            aspect ==> aspect_fits(*raster),
            offs@ == ring(),
            w == raster.width,
            h == raster.height,
            hi == h,
            x <= w,
            lines@ == island_edges(*raster, aspect, opaque_scan(*raster, x * hi)),
        decreases w - x,
    {
        let mut y: u32 = 0;
        while y < h
            invariant
                raster.wf(),
                aspect ==> aspect_fits(*raster),
                offs@ == ring(),
                w == raster.width,
                h == raster.height,
                hi == h,
                x < w,
                y <= h,
                lines@ == island_edges(*raster, aspect, opaque_scan(*raster, x * hi + y)),
            decreases h - y,
        {
            let ghost t = x * hi + y;
            proof {
                vstd::arithmetic::div_mod::lemma_fundamental_div_mod_converse(t, hi, x as int, y as int);
                assert(scan_pixel(hi, t) == (x, y));
                let prev = opaque_scan(*raster, t);
                assert(prev.push((x, y)).drop_last() =~= prev);
            }
            if raster.is_opaque(x as i64, y as i64) {
                push_pixel_edges(raster, aspect, &offs, (x, y), &mut lines);
            }
            y += 1;
        }
        assert(x * hi + hi == (x + 1) * hi) by (nonlinear_arith);
        x += 1;
    }
    proof {
        let all = opaque_scan(*raster, raster.width * raster.height);
        lemma_opaque_scan_opaque(*raster, raster.width * raster.height);
        assert forall|i: int| 0 <= i < lines@.len() implies is_boundary_edge(
            *raster,
            aspect,
            #[trigger] lines@[i],
        ) by {
            lemma_island_edges_sound(*raster, aspect, all, i);
        }
    }
    lines
}

/// `v` lies in the normalized square `[-1, 1] x [-1, 1]`.
pub open spec fn in_square(v: Coord) -> bool {
    -UNIT <= v.x <= UNIT && -UNIT <= v.y <= UNIT
}

pub proof fn lemma_norm_in_range(v: int, w: int)
    requires
        0 <= v <= w,
        w > 0,
    ensures
        -UNIT <= norm_x(v, w) <= UNIT,
{
    assert(-UNIT * w <= (2 * v - w) * UNIT <= UNIT * w) by (nonlinear_arith)
        requires
            0 <= v <= w,
    ;
    lemma_div_is_ordered(-UNIT * w, (2 * v - w) * UNIT, w);
    lemma_div_is_ordered((2 * v - w) * UNIT, UNIT * w, w);
    lemma_div_multiples_vanish(-UNIT as int, w);
    lemma_div_multiples_vanish(UNIT as int, w);
    assert(w * (-UNIT) == -UNIT * w) by (nonlinear_arith);
    assert(w * UNIT == UNIT * w) by (nonlinear_arith);
}

/// Every boundary line lies inside the normalized square at both ends, in
/// texture coordinates and in y; x is stretched by the aspect ratio when
/// `aspect` is set and equals the texture x otherwise.
pub proof fn lemma_boundary_in_square(raster: Raster, aspect: bool, l: Line)
    requires
        raster.wf(),
        aspect ==> aspect_fits(raster),
        is_boundary_edge(raster, aspect, l),
    ensures
        in_square(l.start.tex_coords),
        in_square(l.end.tex_coords),
        -UNIT <= l.start.position.y <= UNIT,
        -UNIT <= l.end.position.y <= UNIT,
        !aspect ==> l.start.position == l.start.tex_coords && l.end.position == l.end.tex_coords,
        aspect ==> stretched(raster, l.start.position.x as int) && stretched(raster, l.end.position.x as int),
{
    let (p, k) = choose|p: Pixel, k: int|
        #![trigger edge(raster, aspect, p, ring()[k])]
        raster.opaque(p.0 as int, p.1 as int) && 0 <= k < 8 && raster.transparent(
            p.0 + ring()[k].0,
            p.1 + ring()[k].1,
        ) && l == edge(raster, aspect, p, ring()[k]);
    let (w, h) = (raster.width as int, raster.height as int);
    let o = ring()[k];
    let (qx, qy) = (p.0 + o.0, p.1 + o.1);
    lemma_norm_in_range(p.0 as int, w);
    lemma_norm_in_range(h - p.1, h);
    assert(norm_y(p.1 as int, h) == norm_x(h - p.1, h));
    lemma_norm_in_range(qx, w);
    lemma_norm_in_range(h - qy, h);
    assert(norm_y(qy, h) == norm_x(h - qy, h));
    if aspect {
        lemma_aspect_in_range(p.0 as int, w, h);
        lemma_aspect_in_range(qx, w, h);
        lemma_div_is_ordered(w * UNIT, 0x7fff_ffff * h, h);
        lemma_div_is_ordered(-0x7fff_ffff * h, -w * UNIT, h);
        lemma_div_multiples_vanish(0x7fff_ffff, h);
        lemma_div_multiples_vanish(-0x7fff_ffff, h);
        assert(h * 0x7fff_ffff == 0x7fff_ffff * h) by (nonlinear_arith);
        assert(h * -0x7fff_ffff == -0x7fff_ffff * h) by (nonlinear_arith);
    }
}

/// `x` lies within the stretched square `[-w/h, w/h]`, each end rounded down.
pub open spec fn stretched(raster: Raster, x: int) -> bool {
    let (w, h) = (raster.width as int, raster.height as int);
    (-w * UNIT) / h <= x <= (w * UNIT) / h
}

proof fn lemma_aspect_in_range(v: int, w: int, h: int)
    requires
        0 <= v <= w,
        h > 0,
    ensures
        (-w * UNIT) / h <= aspect_x(v, w, h) <= (w * UNIT) / h,
{
    assert(-w * UNIT <= (2 * v - w) * UNIT <= w * UNIT) by (nonlinear_arith)
        requires
            0 <= v <= w,
    ;
    lemma_div_is_ordered(-w * UNIT, (2 * v - w) * UNIT, h);
    lemma_div_is_ordered((2 * v - w) * UNIT, w * UNIT, h);
}

} // verus!
