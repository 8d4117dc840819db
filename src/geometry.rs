//! Points and line segments in fixed-point coordinates, and the queries on
//! them: rise, run, slope, length, point-on-segment and intersection.
use crate::numeric::{
    div_round, floor_sqrt, isqrt, lemma_floor_div, mul_lt, round_div, UNIT,
};
use vstd::arithmetic::div_mod::lemma_div_is_ordered;
use vstd::prelude::*;

verus! {

/// Largest per-axis difference at which two points still count as equal,
/// and the slack allowed by the point-on-segment test.
pub const PRECISION: i64 = 7;

/// A pair of fixed-point coordinates.
#[derive(Clone, Copy, Debug, PartialEq, Eq, Structural)]
pub struct Coord {
    pub x: i32,
    pub y: i32,
}

/// A point as the renderer consumes it: where it is drawn, and which point
/// of the texture it shows.
#[derive(Clone, Copy, Debug, PartialEq, Eq, Structural)]
pub struct Vertex {
    pub position: Coord,
    pub tex_coords: Coord,
}

/// A segment from `start` to `end`.
#[derive(Clone, Copy, Debug, PartialEq, Eq, Structural)]
pub struct Line {
    pub start: Vertex,
    pub end: Vertex,
}

/// The slope of a line: `Vertical` when the run is zero, else the exact
/// ratio `Finite(rise, run)` with a positive run. Two slopes are equal when
/// both are vertical or their ratios are equal.
#[derive(Clone, Copy, Debug)]
pub enum Slope {
    Vertical,
    Finite(i64, i64),
}

/// Equality of slopes as exact ratios.
pub open spec fn slopes_equal(a: Slope, b: Slope) -> bool {
    match (a, b) {
        (Slope::Vertical, Slope::Vertical) => true,
        (Slope::Finite(r1, n1), Slope::Finite(r2, n2)) => r1 * n2 == r2 * n1,
        _ => false,
    }
}

impl PartialEq for Slope {
    fn eq(&self, other: &Slope) -> (r: bool) {
        match (self, other) {
            (Slope::Vertical, Slope::Vertical) => true,
            (Slope::Finite(r1, n1), Slope::Finite(r2, n2)) => {
                proof {
                    lemma_mul_bound(*r1 as int, *n2 as int, 0x8000_0000_0000_0000, 0x8000_0000_0000_0000);
                    lemma_mul_bound(*r2 as int, *n1 as int, 0x8000_0000_0000_0000, 0x8000_0000_0000_0000);
                }
                *r1 as i128 * *n2 as i128 == *r2 as i128 * *n1 as i128
            },
            _ => false,
        }
    }
}

impl vstd::std_specs::cmp::PartialEqSpecImpl for Slope {
    open spec fn obeys_eq_spec() -> bool {
        true
    }

    open spec fn eq_spec(&self, other: &Slope) -> bool {
        slopes_equal(*self, *other)
    }
}

/// A list of vertices read three at a time as triangles.
#[derive(Debug)]
pub struct Shape {
    pub vertices: Vec<Vertex>,
}

pub open spec fn abs(v: int) -> int {
    if v < 0 {
        -v
    } else {
        v
    }
}

pub open spec fn min(a: int, b: int) -> int {
    if a <= b {
        a
    } else {
        b
    }
}

pub open spec fn max(a: int, b: int) -> int {
    if a <= b {
        b
    } else {
        a
    }
}

/// A vertex whose texture coordinates are its position.
pub open spec fn vertex_at(p: Coord) -> Vertex {
    Vertex { position: p, tex_coords: p }
}

/// Two positions closer than `tol` on both axes.
pub open spec fn close(p: Coord, q: Coord, tol: int) -> bool {
    abs(p.x - q.x) <= tol && abs(p.y - q.y) <= tol
}

pub open spec fn dist_sq(p: Coord, q: Coord) -> int {
    (q.x - p.x) * (q.x - p.x) + (q.y - p.y) * (q.y - p.y)
}

pub open spec fn rise(l: Line) -> int {
    l.end.position.y - l.start.position.y
}

pub open spec fn run(l: Line) -> int {
    l.end.position.x - l.start.position.x
}

/// A segment of length zero, on which no direction is defined.
pub open spec fn degenerate(l: Line) -> bool {
    rise(l) == 0 && run(l) == 0
}

pub open spec fn length(l: Line) -> int {
    floor_sqrt(rise(l) * rise(l) + run(l) * run(l))
}

pub open spec fn slope(l: Line) -> Slope {
    if run(l) == 0 {
        Slope::Vertical
    } else if run(l) > 0 {
        Slope::Finite(rise(l) as i64, run(l) as i64)
    } else {
        Slope::Finite(-rise(l) as i64, -run(l) as i64)
    }
}

/// Equal slopes as exact ratios (a zero-length segment shares every slope).
pub open spec fn same_slope(l1: Line, l2: Line) -> bool {
    rise(l1) * run(l2) == rise(l2) * run(l1)
}

/// `sqrt(x) < sqrt(y) + k` for non-negative `x` and `y`, decided by
/// squaring: for `k >= 0` it reads `x - y - k^2 < 2k sqrt(y)`, for `k < 0` it
/// reads `-2k sqrt(x) < y - x - k^2`, and each side is squared in turn.
pub open spec fn root_lt(x: int, y: int, k: int) -> bool {
    if k >= 0 {
        let m = x - y - k * k;
        m < 0 || m * m < 4 * k * k * y
    } else {
        let n = y - x - k * k;
        n > 0 && 4 * k * k * x < n * n
    }
}

/// `sqrt(a) + sqrt(b) < sqrt(c) + t` for non-negative `a`, `b`, `c`, `t`:
/// squared, `a + b + sqrt(4ab) < c + t^2 + sqrt(4 t^2 c)`, which is
/// `root_lt(4ab, 4 t^2 c, c + t^2 - a - b)`. Exact, no rounding.
pub open spec fn roots_sum_lt(a: int, b: int, c: int, t: int) -> bool {
    root_lt(4 * a * b, 4 * t * t * c, c + t * t - a - b)
}

/// The distances from `p` to both ends add up to less than the length
/// plus `tol`, all three taken exactly.
pub open spec fn on_segment_within(l: Line, p: Coord, tol: int) -> bool {
    roots_sum_lt(
        dist_sq(p, l.start.position),
        dist_sq(p, l.end.position),
        dist_sq(l.start.position, l.end.position),
        tol,
    )
}

proof fn lemma_square_lt(p: int, q: int)
    requires
        p >= 0,
        q >= 0,
    ensures
        (p < q) == (p * p < q * q),
{
    if p < q {
        assert(p * p < q * q) by (nonlinear_arith)
            requires
                0 <= p < q,
        ;
    } else {
        assert(q * q <= p * p) by (nonlinear_arith)
            requires
                0 <= q <= p,
        ;
    }
}

proof fn lemma_root_lt_squares(u: int, v: int, k: int)
    requires
        u >= 0,
        v >= 0,
    ensures
        root_lt(u * u, v * v, k) == (u < v + k),
{
    if k >= 0 {
        let m = u * u - v * v - k * k;
        lemma_square_lt(u, v + k);
        assert((v + k) * (v + k) == v * v + 2 * k * v + k * k) by (nonlinear_arith);
        assert(2 * k * v >= 0) by (nonlinear_arith)
            requires
                k >= 0,
                v >= 0,
        ;
        assert(4 * k * k * (v * v) == (2 * k * v) * (2 * k * v)) by (nonlinear_arith);
        assert((u < v + k) == (m < 2 * k * v));
        if m >= 0 {
            lemma_square_lt(m, 2 * k * v);
            assert(root_lt(u * u, v * v, k) == (m * m < (2 * k * v) * (2 * k * v)));
        }
    } else {
        let n = v * v - u * u - k * k;
        lemma_square_lt(u - k, v);
        assert((u - k) * (u - k) == u * u - 2 * k * u + k * k) by (nonlinear_arith);
        assert(-2 * k * u >= 0) by (nonlinear_arith)
            requires
                k < 0,
                u >= 0,
        ;
        assert(4 * k * k * (u * u) == (-2 * k * u) * (-2 * k * u)) by (nonlinear_arith);
        assert((u - k < v) == ((u - k) * (u - k) < v * v));
        assert(((u - k) * (u - k) < v * v) == (-2 * k * u < n)) by (nonlinear_arith)
            requires
                (u - k) * (u - k) == u * u - 2 * k * u + k * k,
                n == v * v - u * u - k * k,
        ;
        if n > 0 {
            lemma_square_lt(-2 * k * u, n);
            assert(root_lt(u * u, v * v, k) == ((-2 * k * u) * (-2 * k * u) < n * n));
        }
    }
}

/// On perfect squares the exact test is the plain comparison of the roots:
/// `sqrt(x^2) + sqrt(y^2) < sqrt(z^2) + t` holds just when `x + y < z + t`.
pub proof fn lemma_roots_sum_lt_squares(x: int, y: int, z: int, t: int)
    requires
        x >= 0,
        y >= 0,
        z >= 0,
        t >= 0,
    ensures
        roots_sum_lt(x * x, y * y, z * z, t) == (x + y < z + t),
{
    assert(4 * (x * x) * (y * y) == (2 * x * y) * (2 * x * y)) by (nonlinear_arith);
    assert(4 * t * t * (z * z) == (2 * t * z) * (2 * t * z)) by (nonlinear_arith);
    assert(2 * x * y >= 0 && 2 * t * z >= 0) by (nonlinear_arith)
        requires
            x >= 0,
            y >= 0,
            z >= 0,
            t >= 0,
    ;
    lemma_root_lt_squares(2 * x * y, 2 * t * z, z * z + t * t - x * x - y * y);
    lemma_square_lt(x + y, z + t);
    assert((x + y) * (x + y) == x * x + y * y + 2 * x * y) by (nonlinear_arith);
    assert((z + t) * (z + t) == z * z + t * t + 2 * t * z) by (nonlinear_arith);
}

/// Largest per-axis difference the exact point-on-segment test handles.
pub const NEAR: i64 = 0x4000_0000;

/// `p` and `q` differ by at most `NEAR` on each axis.
pub open spec fn near(p: Coord, q: Coord) -> bool {
    abs(p.x - q.x) <= NEAR && abs(p.y - q.y) <= NEAR
}

// The line through a segment as `a * x + b * y == c`.
pub open spec fn coef_a(l: Line) -> int {
    rise(l)
}

pub open spec fn coef_b(l: Line) -> int {
    -run(l)
}

pub open spec fn coef_c(l: Line) -> int {
    coef_a(l) * l.start.position.x + coef_b(l) * l.start.position.y
}

/// The determinant of the two lines' equations; zero exactly when parallel.
pub open spec fn det(l1: Line, l2: Line) -> int {
    coef_a(l1) * coef_b(l2) - coef_a(l2) * coef_b(l1)
}

pub open spec fn num_x(l1: Line, l2: Line) -> int {
    coef_b(l2) * coef_c(l1) - coef_b(l1) * coef_c(l2)
}

pub open spec fn num_y(l1: Line, l2: Line) -> int {
    coef_a(l1) * coef_c(l2) - coef_a(l2) * coef_c(l1)
}

/// The point `(nx / d, ny / d)`, `d > 0`, lies in the bounding box of `l`;
/// for a point on the line through `l` that means on the segment itself.
pub open spec fn covers(l: Line, nx: int, ny: int, d: int) -> bool {
    let (sx, sy, ex, ey) = (
        l.start.position.x as int,
        l.start.position.y as int,
        l.end.position.x as int,
        l.end.position.y as int,
    );
    min(sx, ex) * d <= nx <= max(sx, ex) * d && min(sy, ey) * d <= ny <= max(sy, ey) * d
}

/// The exact crossing `(nx / d, ny / d)`, `d > 0`, of two segments, rounded
/// to the grid, when it lies on both.
pub open spec fn meet(l1: Line, l2: Line, nx: int, ny: int, d: int) -> Option<Vertex> {
    if covers(l1, nx, ny, d) && covers(l2, nx, ny, d) {
        Some(vertex_at(Coord { x: round_div(nx, d) as i32, y: round_div(ny, d) as i32 }))
    } else {
        None
    }
}

/// Where two segments cross: none for parallel or collinear segments, and
/// none when the lines through them cross outside either segment.
pub open spec fn intersection(l1: Line, l2: Line) -> Option<Vertex> {
    let d = det(l1, l2);
    if d == 0 {
        None
    } else if d > 0 {
        meet(l1, l2, num_x(l1, l2), num_y(l1, l2), d)
    } else {
        meet(l1, l2, -num_x(l1, l2), -num_y(l1, l2), -d)
    }
}

/// Crossing two segments gives the same answer whichever comes first.
pub proof fn lemma_intersection_symmetric(l1: Line, l2: Line)
    ensures
        intersection(l1, l2) == intersection(l2, l1),
{
    assert(det(l2, l1) == -det(l1, l2));
    assert(num_x(l2, l1) == -num_x(l1, l2));
    assert(num_y(l2, l1) == -num_y(l1, l2));
}

/// Segments whose slopes compare equal never cross at a single point.
pub proof fn lemma_equal_slopes_no_intersection(l1: Line, l2: Line)
    requires
        slopes_equal(slope(l1), slope(l2)),
    ensures
        intersection(l1, l2).is_none(),
{
    let (r1, n1, r2, n2) = (rise(l1), run(l1), rise(l2), run(l2));
    if n1 != 0 && n2 != 0 {
        let (a1, b1): (int, int) = if n1 > 0 { (r1, n1) } else { (-r1, -n1) };
        let (a2, b2): (int, int) = if n2 > 0 { (r2, n2) } else { (-r2, -n2) };
        assert(slope(l1) == Slope::Finite(a1 as i64, b1 as i64));
        assert(slope(l2) == Slope::Finite(a2 as i64, b2 as i64));
        assert(a1 * b2 == a2 * b1);
        assert(r1 * n2 == r2 * n1) by (nonlinear_arith)
            requires
                a1 * b2 == a2 * b1,
                (a1 == r1 && b1 == n1) || (a1 == -r1 && b1 == -n1),
                (a2 == r2 && b2 == n2) || (a2 == -r2 && b2 == -n2),
        ;
    }
    lemma_same_slope_no_intersection(l1, l2);
}

/// Two segments of equal slope never cross at a single point: parallel and
/// collinear segments both give no intersection.
pub proof fn lemma_same_slope_no_intersection(l1: Line, l2: Line)
    requires
        same_slope(l1, l2),
    ensures
        intersection(l1, l2).is_none(),
{
    let (r1, n1, r2, n2) = (rise(l1), run(l1), rise(l2), run(l2));
    assert(r1 * (-n2) - r2 * (-n1) == 0) by (nonlinear_arith)
        requires
            r1 * n2 == r2 * n1,
    ;
}

proof fn lemma_mul_bound(x: int, y: int, bx: int, by_: int)
    requires
        abs(x) <= bx,
        abs(y) <= by_,
    ensures
        abs(x * y) <= bx * by_,
{
    assert(abs(x * y) == abs(x) * abs(y)) by (nonlinear_arith);
    assert(abs(x) * abs(y) <= bx * by_) by (nonlinear_arith)
        requires
            0 <= abs(x) <= bx,
            0 <= abs(y) <= by_,
    ;
}

/// The rounded crossing stays within the box whose multiples enclose it.
proof fn lemma_round_within(n: int, d: int, lo: int, hi: int)
    requires
        d > 0,
        lo * d <= n <= hi * d,
    ensures
        lo <= round_div(n, d) <= hi,
{
    assert(lo * (2 * d) <= 2 * lo * d + d < (lo + 1) * (2 * d)) by (nonlinear_arith)
        requires
            d > 0,
    ;
    lemma_floor_div(2 * lo * d + d, 2 * d, lo);
    assert(hi * (2 * d) <= 2 * hi * d + d < (hi + 1) * (2 * d)) by (nonlinear_arith)
        requires
            d > 0,
    ;
    lemma_floor_div(2 * hi * d + d, 2 * d, hi);
    assert(2 * lo * d + d <= 2 * n + d <= 2 * hi * d + d) by (nonlinear_arith)
        requires
            lo * d <= n <= hi * d,
    ;
    lemma_div_is_ordered(2 * lo * d + d, 2 * n + d, 2 * d);
    lemma_div_is_ordered(2 * n + d, 2 * hi * d + d, 2 * d);
}

const LIM31: i128 = 0x8000_0000;

const LIM32: i128 = 0x1_0000_0000;

const LIM64: i128 = 0x1_0000_0000_0000_0000;

/// Tests whether `(nx / d, ny / d)` lies in the bounding box of `l`.
fn covers_exec(l: &Line, nx: i128, ny: i128, d: i128) -> (r: bool)
    requires
        0 < d <= 4 * LIM64,
        abs(nx as int) <= 4 * LIM32 * LIM64,
        abs(ny as int) <= 4 * LIM32 * LIM64,
    ensures
        r == covers(*l, nx as int, ny as int, d as int),
{
    let sx = l.start.position.x as i128;
    let sy = l.start.position.y as i128;
    let ex = l.end.position.x as i128;
    let ey = l.end.position.y as i128;
    let (lx, hx) = if sx <= ex {
        (sx, ex)
    } else {
        (ex, sx)
    };
    let (ly, hy) = if sy <= ey {
        (sy, ey)
    } else {
        (ey, sy)
    };
    proof {
        lemma_mul_bound(lx as int, d as int, LIM31 as int, 4 * LIM64);
        lemma_mul_bound(hx as int, d as int, LIM31 as int, 4 * LIM64);
        lemma_mul_bound(ly as int, d as int, LIM31 as int, 4 * LIM64);
        lemma_mul_bound(hy as int, d as int, LIM31 as int, 4 * LIM64);
    }
    lx * d <= nx && nx <= hx * d && ly * d <= ny && ny <= hy * d
}

impl Vertex {
    pub fn as_vector(&self) -> (r: Coord)
        ensures
            r == self.position,
    {
        self.position
    }

    pub fn as_pos(&self) -> (r: Coord)
        ensures
            r == self.position,
    {
        self.position
    }

    pub fn from_vector(vec: Coord) -> (r: Vertex)
        ensures
            r == vertex_at(vec),
    {
        Vertex { position: vec, tex_coords: vec }
    }

    pub fn get_x(&self) -> (r: i32)
        ensures
            r == self.position.x,
    {
        self.position.x
    }

    pub fn get_y(&self) -> (r: i32)
        ensures
            r == self.position.y,
    {
        self.position.y
    }

    /// Equality up to `PRECISION` on each axis of the position.
    pub fn eq(&self, other: Vertex) -> (r: bool)
        ensures
            r == close(self.position, other.position, PRECISION as int),
    {
        let dx = self.position.x as i64 - other.position.x as i64;
        let dy = self.position.y as i64 - other.position.y as i64;
        -PRECISION <= dx && dx <= PRECISION && -PRECISION <= dy && dy <= PRECISION
    }
}

fn dist_sq_exec(p: Coord, q: Coord) -> (r: u128)
    ensures
        r == dist_sq(p, q),
        r <= 2 * LIM32 * LIM32,
{
    let dx = q.x as i128 - p.x as i128;
    let dy = q.y as i128 - p.y as i128;
    proof {
        lemma_mul_bound(dx as int, dx as int, LIM32 as int, LIM32 as int);
        lemma_mul_bound(dy as int, dy as int, LIM32 as int, LIM32 as int);
        assert(dx * dx >= 0) by (nonlinear_arith);
        assert(dy * dy >= 0) by (nonlinear_arith);
    }
    (dx * dx + dy * dy) as u128
}

const NEAR_SQ: i128 = 0x2000_0000_0000_0000;

/// Squared distance of two near points, at most `NEAR_SQ`.
fn near_dist_sq(p: Coord, q: Coord) -> (r: i128)
    requires
        near(p, q),
    ensures
        r == dist_sq(p, q),
        0 <= r <= NEAR_SQ,
{
    let dx = q.x as i128 - p.x as i128;
    let dy = q.y as i128 - p.y as i128;
    proof {
        assert(0 <= dx * dx <= NEAR * NEAR) by (nonlinear_arith)
            requires
                -NEAR <= dx <= NEAR,
        ;
        assert(0 <= dy * dy <= NEAR * NEAR) by (nonlinear_arith)
            requires
                -NEAR <= dy <= NEAR,
        ;
    }
    dx * dx + dy * dy
}

/// Decides `root_lt(x, y, k)` with full products.
fn root_lt_exec(x: i128, y: i128, k: i128) -> (r: bool)
    requires
        0 <= x <= 0x1000_0000_0000_0000_0000_0000_0000_0000,
        0 <= y <= 0x1000_0000_0000_0000_0000_0000_0000_0000,
        -0x4000_0000_0000_0000 <= k <= 0x4000_0000_0000_0000,
    ensures
        r == root_lt(x as int, y as int, k as int),
{
    proof {
        assert(0 <= k * k <= 0x4000_0000_0000_0000 * 0x4000_0000_0000_0000) by (nonlinear_arith)
            requires
                -0x4000_0000_0000_0000 <= k <= 0x4000_0000_0000_0000,
        ;
    }
    let kk = k * k;
    if k >= 0 {
        let m = x - y - kk;
        if m < 0 {
            true
        } else {
            let r = mul_lt(m as u128, m as u128, (4 * kk) as u128, y as u128);
            proof {
                assert(4 * k * k * y == (4 * kk) * y) by (nonlinear_arith)
                    requires
                        kk == k * k,
                ;
            }
            r
        }
    } else {
        let n = y - x - kk;
        if n <= 0 {
            false
        } else {
            let r = mul_lt((4 * kk) as u128, x as u128, n as u128, n as u128);
            proof {
                assert(4 * k * k * x == (4 * kk) * x) by (nonlinear_arith)
                    requires
                        kk == k * k,
                ;
            }
            r
        }
    }
}

impl Line {
    /// Where this segment crosses `line`, if it does (see `intersection`).
    pub fn get_intersection(&self, line: Line) -> (r: Option<Vertex>)
        ensures
            r == intersection(*self, line),
    {
        let sx1 = self.start.position.x as i128;
        let sy1 = self.start.position.y as i128;
        let a1 = self.end.position.y as i128 - sy1;
        let b1 = sx1 - self.end.position.x as i128;
        let sx2 = line.start.position.x as i128;
        let sy2 = line.start.position.y as i128;
        let a2 = line.end.position.y as i128 - sy2;
        let b2 = sx2 - line.end.position.x as i128;
        proof {
            lemma_mul_bound(a1 as int, sx1 as int, LIM32 as int, LIM31 as int);
            lemma_mul_bound(b1 as int, sy1 as int, LIM32 as int, LIM31 as int);
            lemma_mul_bound(a2 as int, sx2 as int, LIM32 as int, LIM31 as int);
            lemma_mul_bound(b2 as int, sy2 as int, LIM32 as int, LIM31 as int);
            lemma_mul_bound(a1 as int, b2 as int, LIM32 as int, LIM32 as int);
            lemma_mul_bound(a2 as int, b1 as int, LIM32 as int, LIM32 as int);
        }
        let c1 = a1 * sx1 + b1 * sy1;
        let c2 = a2 * sx2 + b2 * sy2;
        // A zero determinant means equal slopes: parallel or collinear.
        let d = a1 * b2 - a2 * b1;
        if d == 0 {
            return None;
        }
        proof {
            lemma_mul_bound(b2 as int, c1 as int, LIM32 as int, LIM64 as int);
            lemma_mul_bound(b1 as int, c2 as int, LIM32 as int, LIM64 as int);
            lemma_mul_bound(a1 as int, c2 as int, LIM32 as int, LIM64 as int);
            lemma_mul_bound(a2 as int, c1 as int, LIM32 as int, LIM64 as int);
        }
        let nx = b2 * c1 - b1 * c2;
        let ny = a1 * c2 - a2 * c1;
        let (nx, ny, d) = if d < 0 {
            (-nx, -ny, -d)
        } else {
            (nx, ny, d)
        };
        if covers_exec(self, nx, ny, d) && covers_exec(&line, nx, ny, d) {
            let ghost (sx, ex) = (self.start.position.x as int, self.end.position.x as int);
            let ghost (sy, ey) = (self.start.position.y as int, self.end.position.y as int);
            proof {
                lemma_round_within(nx as int, d as int, min(sx, ex), max(sx, ex));
                lemma_round_within(ny as int, d as int, min(sy, ey), max(sy, ey));
            }
            let x = div_round(nx, d);
            let y = div_round(ny, d);
            Some(Vertex::from_vector(Coord { x: x as i32, y: y as i32 }))
        } else {
            None
        }
    }

    /// Whether `p` lies on this segment, up to `PRECISION`.
    pub fn is_point_on_line(&self, p: Coord) -> (r: bool)
        requires
            near(p, self.start.position),
            near(p, self.end.position),
            near(self.start.position, self.end.position),
        ensures
            r == on_segment_within(*self, p, PRECISION as int),
    {
        self.is_point_on_line_within(p, PRECISION as u16)
    }

    /// Whether the distances from `p` to both ends add up to less than the
    /// length plus `tolerance`, decided exactly.
    pub fn is_point_on_line_within(&self, p: Coord, tolerance: u16) -> (r: bool)
        requires
            near(p, self.start.position),
            near(p, self.end.position),
            near(self.start.position, self.end.position),
        ensures
            r == on_segment_within(*self, p, tolerance as int),
    {
        let a = near_dist_sq(p, self.start.position);
        let b = near_dist_sq(p, self.end.position);
        let c = near_dist_sq(self.start.position, self.end.position);
        let t = tolerance as i128;
        proof {
            assert(0 <= 4 * a * b <= 4 * NEAR_SQ * NEAR_SQ) by (nonlinear_arith)
                requires
                    0 <= a <= NEAR_SQ,
                    0 <= b <= NEAR_SQ,
            ;
            assert(0 <= t * t <= 0x10000 * 0x10000) by (nonlinear_arith)
                requires
                    0 <= t < 0x10000,
            ;
            assert(0 <= 4 * t * t <= 4 * 0x10000 * 0x10000) by (nonlinear_arith)
                requires
                    0 <= t < 0x10000,
            ;
            assert(0 <= 4 * t * t * c <= 4 * 0x10000 * 0x10000 * NEAR_SQ) by (nonlinear_arith)
                requires
                    0 <= t < 0x10000,
                    0 <= c <= NEAR_SQ,
            ;
        }
        root_lt_exec(4 * a * b, 4 * t * t * c, c + t * t - a - b)
    }

    /// The length, rounded down.
    pub fn get_length(&self) -> (r: i64)
        ensures
            r == length(*self),
    {
        let d = dist_sq_exec(self.start.position, self.end.position);
        proof {
            let (rs, rn) = (rise(*self), run(*self));
            assert(dist_sq(self.start.position, self.end.position) == rs * rs + rn * rn);
        }
        let r = isqrt(d);
        proof {
            assert(d <= 2 * LIM32 * LIM32);
            if r >= 0x8000_0000_0000_0000u64 {
                assert(r * r >= 0x8000_0000_0000_0000u64 * 0x8000_0000_0000_0000u64)
                    by (nonlinear_arith)
                    requires
                        r >= 0x8000_0000_0000_0000u64,
                ;
            }
        }
        r as i64
    }

    pub fn get_rise(&self) -> (r: i64)
        ensures
            r == rise(*self),
    {
        self.end.position.y as i64 - self.start.position.y as i64
    }

    pub fn get_run(&self) -> (r: i64)
        ensures
            r == run(*self),
    {
        self.end.position.x as i64 - self.start.position.x as i64
    }

    pub fn get_rise_and_run(&self) -> (r: (i64, i64))
        ensures
            r.0 == rise(*self),
            r.1 == run(*self),
    {
        (self.get_rise(), self.get_run())
    }

    /// The slope, `Slope::Vertical` when the run is zero.
    pub fn get_slope(&self) -> (r: Slope)
        ensures
            r == slope(*self),
    {
        let rise = self.get_rise();
        let run = self.get_run();
        if run == 0 {
            Slope::Vertical
        } else if run > 0 {
            Slope::Finite(rise, run)
        } else {
            Slope::Finite(-rise, -run)
        }
    }

    /// Whether the two segments have equal slopes, as exact ratios.
    pub fn has_same_slope(&self, line: &Line) -> (r: bool)
        ensures
            r == same_slope(*self, *line),
    {
        let (r1, n1) = self.get_rise_and_run();
        let (r2, n2) = line.get_rise_and_run();
        proof {
            lemma_mul_bound(r1 as int, n2 as int, LIM32 as int, LIM32 as int);
            lemma_mul_bound(r2 as int, n1 as int, LIM32 as int, LIM32 as int);
        }
        r1 as i128 * n2 as i128 == r2 as i128 * n1 as i128
    }

    pub fn get_start(&self) -> (r: Vertex)
        ensures
            r == self.start,
    {
        self.start
    }

    pub fn get_end(&self) -> (r: Vertex)
        ensures
            r == self.end,
    {
        self.end
    }

    pub fn new(start: Vertex, end: Vertex) -> (r: Line)
        ensures
            r.start == start,
            r.end == end,
    {
        Line { start, end }
    }

    /// The segment from `start` that rises by `rise` over a run of `run`.
    pub fn new_from_rise_run(start: Vertex, rise: i64, run: i64) -> (r: Line)
        requires
            i32::MIN <= start.position.x + run <= i32::MAX,
            i32::MIN <= start.position.y + rise <= i32::MAX,
        ensures
            r.start == start,
            r.end == vertex_at(
                Coord {
                    x: (start.position.x + run) as i32,
                    y: (start.position.y + rise) as i32,
                },
            ),
    {
        let end = Coord {
            x: (start.position.x as i64 + run) as i32,
            y: (start.position.y as i64 + rise) as i32,
        };
        Line { start, end: Vertex::from_vector(end) }
    }
}

/// A corner of the fallback quad: position `(sx * aspect, sy)`, texture
/// coordinates `(sx, sy)` mapped from `[-1, 1]` to `[0, 1]`.
pub open spec fn quad_corner(aspect: int, sx: int, sy: int) -> Vertex {
    Vertex {
        position: Coord { x: (sx * aspect) as i32, y: (sy * UNIT) as i32 },
        tex_coords: Coord { x: ((sx + 1) * UNIT / 2) as i32, y: ((sy + 1) * UNIT / 2) as i32 },
    }
}

fn corner(aspect_ratio: i32, sx: i32, sy: i32) -> (r: Vertex)
    requires
        aspect_ratio > i32::MIN,
        sx == 1 || sx == -1,
        sy == 1 || sy == -1,
    ensures
        r == quad_corner(aspect_ratio as int, sx as int, sy as int),
{
    let x = if sx < 0 {
        -aspect_ratio
    } else {
        aspect_ratio
    };
    let tx = if sx < 0 {
        0
    } else {
        UNIT
    };
    let ty = if sy < 0 {
        0
    } else {
        UNIT
    };
    Vertex { position: Coord { x, y: sy * UNIT }, tex_coords: Coord { x: tx, y: ty } }
}

impl Shape {
    /// The quad covering `[-aspect, aspect] x [-1, 1]` as two triangles,
    /// textured with the whole texture.
    pub fn new_rectangle(aspect_ratio: i32) -> (r: Shape)
        requires
            aspect_ratio > i32::MIN,
        ensures
            r.vertices@ == seq![
                quad_corner(aspect_ratio as int, -1, 1),
                quad_corner(aspect_ratio as int, -1, -1),
                quad_corner(aspect_ratio as int, 1, -1),
                quad_corner(aspect_ratio as int, 1, -1),
                quad_corner(aspect_ratio as int, 1, 1),
                quad_corner(aspect_ratio as int, -1, 1),
            ],
    {
        let mut vertices = Vec::new();
        vertices.push(corner(aspect_ratio, -1, 1));
        vertices.push(corner(aspect_ratio, -1, -1));
        vertices.push(corner(aspect_ratio, 1, -1));
        vertices.push(corner(aspect_ratio, 1, -1));
        vertices.push(corner(aspect_ratio, 1, 1));
        vertices.push(corner(aspect_ratio, -1, 1));
        Shape { vertices }
    }
}

} // verus!
