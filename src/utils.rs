//! Stroke meshes: a ribbon of constant width along each segment, as two
//! triangles per segment.
use crate::geometry::{degenerate, rise, run, vertex_at, Coord, Line, Vertex};
use crate::numeric::{floor_sqrt, isqrt, sat, saturate};
use vstd::prelude::*;

verus! {

/// Largest rise or run handled: the span of the `i32` coordinates.
pub const SPAN: i64 = 0x1_0000_0000;

/// `n / sqrt(s)` rounded towards zero: the largest `q` with `q * q * s`
/// at most `n * n`, signed as `n`.
pub open spec fn root_ratio(n: int, s: int) -> int {
    if n >= 0 {
        floor_sqrt(n * n / s)
    } else {
        -floor_sqrt(n * n / s)
    }
}

/// The point `deviate` from `start` along the direction `(run, rise)`, each
/// offset rounded towards zero and the sum saturated; `start` itself when
/// the direction is zero.
pub open spec fn along(start: Coord, rise: int, run: int, deviate: int) -> Coord {
    let s = run * run + rise * rise;
    if s == 0 {
        start
    } else {
        Coord {
            x: sat(start.x + root_ratio(run * deviate, s)),
            y: sat(start.y + root_ratio(rise * deviate, s)),
        }
    }
}

/// The point `deviate` from `p` along the normal `(rise, -run)` of a
/// segment; `p` itself for a segment of length zero.
pub open spec fn normal_point(p: Coord, rise: int, run: int, deviate: int) -> Coord {
    along(p, -run, rise, deviate)
}

/// Half a stroke thickness, rounded towards zero.
pub open spec fn half(t: int) -> int {
    if t >= 0 {
        t / 2
    } else {
        -((-t) / 2)
    }
}

/// The six vertices of the ribbon `deviate` to each side of `l`: the
/// triangles (top left, bottom left, bottom right) and (bottom right, top
/// right, top left).
pub open spec fn quad(l: Line, deviate: int) -> Seq<Vertex> {
    let (s, e) = (l.start.position, l.end.position);
    let top_left = vertex_at(normal_point(s, rise(l), run(l), deviate));
    let bot_left = vertex_at(normal_point(s, rise(l), run(l), -deviate));
    let top_right = vertex_at(normal_point(e, rise(l), run(l), deviate));
    let bot_right = vertex_at(normal_point(e, rise(l), run(l), -deviate));
    seq![top_left, bot_left, bot_right, bot_right, top_right, top_left]
}

/// The ribbons of the segments in order; segments of length zero give none.
pub open spec fn stroke(lines: Seq<Line>, deviate: int) -> Seq<Vertex>
    decreases lines.len(),
{
    if lines.len() == 0 {
        Seq::empty()
    } else {
        stroke(lines.drop_last(), deviate) + if degenerate(lines.last()) {
            Seq::empty()
        } else {
            quad(lines.last(), deviate)
        }
    }
}

/// How many of the segments have a length.
pub open spec fn drawable(lines: Seq<Line>) -> nat
    decreases lines.len(),
{
    if lines.len() == 0 {
        0
    } else {
        drawable(lines.drop_last()) + if degenerate(lines.last()) {
            0nat
        } else {
            1nat
        }
    }
}

/// The start and end of each segment in turn.
pub open spec fn end_points(lines: Seq<Line>) -> Seq<Vertex>
    decreases lines.len(),
{
    if lines.len() == 0 {
        Seq::empty()
    } else {
        end_points(lines.drop_last()) + seq![lines.last().start, lines.last().end]
    }
}

/// `n / sqrt(s)` rounded towards zero (see `root_ratio`).
fn offset(n: i128, s: u128) -> (r: i128)
    requires
        s > 0,
        -0x8000_0000_0000_0000 <= n <= 0x8000_0000_0000_0000,
    ensures
        r == root_ratio(n as int, s as int),
        -0x1_0000_0000_0000_0000 <= r <= 0x1_0000_0000_0000_0000,
{
    let m: u128 = if n >= 0 {
        n as u128
    } else {
        (-n) as u128
    };
    proof {
        assert(m * m == n * n) by (nonlinear_arith)
            requires
                m == n || m == -n,
        ;
        assert(m * m <= 0x8000_0000_0000_0000u128 * 0x8000_0000_0000_0000u128) by (nonlinear_arith)
            requires
                0 <= m <= 0x8000_0000_0000_0000u128,
        ;
    }
    let q = isqrt(m * m / s);
    if n >= 0 {
        q as i128
    } else {
        -(q as i128)
    }
}

/// Moves `deviate` from `start` along the direction `(run, rise)`: by
/// `deviate` times the unit vector of that direction, each offset rounded
/// towards zero. The length of the direction is computed here; `_hypo` is
/// not read.
pub fn get_point_along_line(start: Coord, rise: i64, run: i64, _hypo: i64, deviate: i32) -> (r:
    Coord)
    requires
        -SPAN <= rise <= SPAN,
        -SPAN <= run <= SPAN,
    ensures
        r == along(start, rise as int, run as int, deviate as int),
{
    proof {
        assert(0 <= rise * rise <= SPAN * SPAN) by (nonlinear_arith)
            requires
                -SPAN <= rise <= SPAN,
        ;
        assert(0 <= run * run <= SPAN * SPAN) by (nonlinear_arith)
            requires
                -SPAN <= run <= SPAN,
        ;
        assert(-0x8000_0000_0000_0000 <= run * deviate <= 0x8000_0000_0000_0000) by (nonlinear_arith)
            requires
                -SPAN <= run <= SPAN,
                -0x8000_0000 <= deviate < 0x8000_0000,
        ;
        assert(-0x8000_0000_0000_0000 <= rise * deviate <= 0x8000_0000_0000_0000) by (nonlinear_arith)
            requires
                -SPAN <= rise <= SPAN,
                -0x8000_0000 <= deviate < 0x8000_0000,
        ;
    }
    let s = (run as i128 * run as i128 + rise as i128 * rise as i128) as u128;
    if s == 0 {
        return start;
    }
    let dx = offset(run as i128 * deviate as i128, s);
    let dy = offset(rise as i128 * deviate as i128, s);
    Coord { x: saturate(start.x as i128 + dx), y: saturate(start.y as i128 + dy) }
}

/// The point `deviate` from `p` along the normal of a segment with the
/// given rise and run; `p` itself when both are zero.
pub fn normal_point_to_point(p: Coord, rise: i64, run: i64, deviate: i32) -> (r: Coord)
    requires
        -SPAN <= rise <= SPAN,
        -SPAN <= run <= SPAN,
    ensures
        r == normal_point(p, rise as int, run as int, deviate as int),
{
    get_point_along_line(p, -run, rise, 0, deviate)
}

fn quad_exec(l: &Line, deviate: i32, out: &mut Vec<Vertex>)
    requires
        deviate > i32::MIN,
    ensures
        final(out)@ == old(out)@ + quad(*l, deviate as int),
{
    let rise = l.get_rise();
    let run = l.get_run();
    let s = l.get_start().as_vector();
    let e = l.get_end().as_vector();
    let top_left = Vertex::from_vector(normal_point_to_point(s, rise, run, deviate));
    let bot_left = Vertex::from_vector(normal_point_to_point(s, rise, run, -deviate));
    let top_right = Vertex::from_vector(normal_point_to_point(e, rise, run, deviate));
    let bot_right = Vertex::from_vector(normal_point_to_point(e, rise, run, -deviate));
    let ghost before = out@;
    out.push(top_left);
    out.push(bot_left);
    out.push(bot_right);
    out.push(bot_right);
    out.push(top_right);
    out.push(top_left);
    proof {
        assert(out@ =~= before + quad(*l, deviate as int));
    }
}

/// The stroke mesh of `lines` at `thickness`: for each segment with a length,
/// six vertices forming two triangles that cover the band within half the
/// thickness of it. Segments of length zero are skipped.
pub fn vertices_from_lines(thickness: i32, lines: &Vec<Line>) -> (r: Vec<Vertex>)
    ensures
        r@ == stroke(lines@, half(thickness as int)),
{
    let deviate: i32 = if thickness >= 0 {
        thickness / 2
    } else {
        -((-(thickness as i64)) / 2) as i32
    };
    let mut points: Vec<Vertex> = Vec::new();
    let mut i: usize = 0;
    proof {
        assert(lines@.take(0) =~= Seq::<Line>::empty());
    }
    while i < lines.len()
        invariant
            0 <= i <= lines@.len(),
            deviate == half(thickness as int),
            points@ == stroke(lines@.take(i as int), deviate as int),
        decreases lines@.len() - i,
    {
        let cur_line = &lines[i];
        let rise = cur_line.get_rise();
        let run = cur_line.get_run();
        let ghost before = points@;
        if rise != 0 || run != 0 {
            quad_exec(cur_line, deviate, &mut points);
        }
        proof {
            let t = lines@.take(i + 1);
            assert(t.drop_last() =~= lines@.take(i as int));
            assert(t.last() == *cur_line);
            assert(points@ =~= stroke(t, deviate as int));
        }
        i += 1;
    }
    proof {
        assert(lines@.take(lines@.len() as int) =~= lines@);
    }
    points
}

/// The start and end vertex of each segment in turn, as a line list.
pub fn vertices_from_line_points(lines: &Vec<Line>) -> (r: Vec<Vertex>)
    ensures
        r@ == end_points(lines@),
{
    let mut points: Vec<Vertex> = Vec::new();
    let mut i: usize = 0;
    proof {
        assert(lines@.take(0) =~= Seq::<Line>::empty());
    }
    while i < lines.len()
        invariant
            0 <= i <= lines@.len(),
            points@ == end_points(lines@.take(i as int)),
        decreases lines@.len() - i,
    {
        let line = &lines[i];
        points.push(line.get_start());
        points.push(line.get_end());
        proof {
            let t = lines@.take(i + 1);
            assert(t.drop_last() =~= lines@.take(i as int));
            assert(points@ =~= end_points(t));
        }
        i += 1;
    }
    proof {
        assert(lines@.take(lines@.len() as int) =~= lines@);
    }
    points
}

proof fn lemma_stroke_len(lines: Seq<Line>, deviate: int)
    ensures
        stroke(lines, deviate).len() == 6 * drawable(lines),
    decreases lines.len(),
{
    if lines.len() > 0 {
        lemma_stroke_len(lines.drop_last(), deviate);
    }
}

/// A stroke mesh has six vertices for each segment with a length, and none
/// for the others, at any thickness.
pub proof fn lemma_mesh_vertex_count(thickness: int, lines: Seq<Line>)
    ensures
        stroke(lines, half(thickness)).len() == 6 * drawable(lines),
{
    lemma_stroke_len(lines, half(thickness));
}

proof fn lemma_zero_thickness_collapses(lines: Seq<Line>)
    ensures
        forall|m: int|
            0 <= m < drawable(lines) ==> #[trigger] stroke(lines, 0)[6 * m] == stroke(lines, 0)[6 * m
                + 1] && stroke(lines, 0)[6 * m + 3] == stroke(lines, 0)[6 * m + 4],
    decreases lines.len(),
{
    lemma_stroke_len(lines, 0);
    if lines.len() > 0 {
        let prev = lines.drop_last();
        lemma_zero_thickness_collapses(prev);
        lemma_stroke_len(prev, 0);
        let v = stroke(lines, 0);
        let pv = stroke(prev, 0);
        assert forall|m: int| 0 <= m < drawable(lines) implies #[trigger] v[6 * m] == v[6 * m + 1]
            && v[6 * m + 3] == v[6 * m + 4] by {
            if m < drawable(prev) {
                assert(v[6 * m] == pv[6 * m]);
                assert(v[6 * m + 1] == pv[6 * m + 1]);
                assert(v[6 * m + 3] == pv[6 * m + 3]);
                assert(v[6 * m + 4] == pv[6 * m + 4]);
            } else {
                let l = lines.last();
                let q = quad(l, 0);
                assert(m == drawable(prev));
                assert(v[6 * m] == q[0]);
                assert(v[6 * m + 1] == q[1]);
                assert(v[6 * m + 3] == q[3]);
                assert(v[6 * m + 4] == q[4]);
                crate::numeric::lemma_floor_sqrt_unique(0, 0);
                let sq = run(l) * run(l) + rise(l) * rise(l);
                if sq != 0 {
                    assert(0int * 0int / sq == 0) by (nonlinear_arith)
                        requires
                            sq != 0,
                    ;
                    assert(-run(l) * 0 == 0);
                    assert(rise(l) * 0 == 0);
                    assert(-run(l) * (-0) == 0);
                }
            }
        }
    }
}

/// Twice the signed area of the triangle `a`, `b`, `c`.
pub open spec fn twice_area(a: Vertex, b: Vertex, c: Vertex) -> int {
    (b.position.x - a.position.x) * (c.position.y - a.position.y) - (b.position.y
        - a.position.y) * (c.position.x - a.position.x)
}

/// At zero thickness a stroke still has six vertices per segment with a
/// length, and every one of its triangles has zero area.
pub proof fn lemma_zero_thickness_flat(lines: Seq<Line>)
    ensures
        stroke(lines, half(0)).len() == 6 * drawable(lines),
        forall|m: int|
            0 <= m < drawable(lines) ==> twice_area(
                #[trigger] stroke(lines, half(0))[6 * m],
                stroke(lines, half(0))[6 * m + 1],
                stroke(lines, half(0))[6 * m + 2],
            ) == 0 && twice_area(
                stroke(lines, half(0))[6 * m + 3],
                stroke(lines, half(0))[6 * m + 4],
                stroke(lines, half(0))[6 * m + 5],
            ) == 0,
{
    assert(half(0) == 0);
    lemma_stroke_len(lines, 0);
    lemma_zero_thickness_collapses(lines);
    let v = stroke(lines, 0);
    assert forall|m: int| 0 <= m < drawable(lines) implies twice_area(
        #[trigger] v[6 * m],
        v[6 * m + 1],
        v[6 * m + 2],
    ) == 0 && twice_area(v[6 * m + 3], v[6 * m + 4], v[6 * m + 5]) == 0 by {
        assert(v[6 * m] == v[6 * m + 1]);
        assert(v[6 * m + 3] == v[6 * m + 4]);
        let (a, c) = (v[6 * m], v[6 * m + 2]);
        assert(twice_area(a, a, c) == 0) by (nonlinear_arith);
        let (d, f) = (v[6 * m + 3], v[6 * m + 5]);
        assert(twice_area(d, d, f) == 0) by (nonlinear_arith);
    }
}

} // verus!
