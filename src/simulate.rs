//! Flow lines: a segment that turns a little each time it meets one of a set
//! of boundary segments.
use crate::geometry::{intersection, rise, run, vertex_at, Coord, Line};
use crate::numeric::{div_round, round_div, sat, saturate, UNIT};
use vstd::prelude::*;

verus! {

/// Steps every simulation runs.
pub const STEPS: usize = 1000;

/// Cosine of the turn per step (0.01 radian), in fixed point.
pub const TURN_COS: i64 = 65533;

/// Sine of the turn per step (0.01 radian), in fixed point.
pub const TURN_SIN: i64 = 655;

/// Which part of the circle a direction points into, in the order of the
/// angle `atan2(dy, dx)` from -pi to pi: below the x axis, along positive x
/// (or no direction at all), above the x axis, along negative x.
pub open spec fn half_plane(d: (int, int)) -> int {
    if d.1 < 0 {
        0
    } else if d.1 == 0 && d.0 >= 0 {
        1
    } else if d.1 > 0 {
        2
    } else {
        3
    }
}

/// The angle of direction `a` is below the angle of direction `b`, angles
/// taken in `(-pi, pi]` as `atan2` gives them.
pub open spec fn angle_lt(a: (int, int), b: (int, int)) -> bool {
    half_plane(a) < half_plane(b) || (half_plane(a) == half_plane(b) && (half_plane(a) == 0
        || half_plane(a) == 2) && a.0 * b.1 - a.1 * b.0 > 0)
}

/// The direction of a segment, from start to end.
pub open spec fn direction(l: Line) -> (int, int) {
    (run(l), rise(l))
}

/// `l` with its end turned about its start by one step: anticlockwise for
/// `turn` 1, clockwise for -1.
pub open spec fn turned(l: Line, turn: int) -> Line {
    let (dx, dy) = (run(l), rise(l));
    let s = l.start.position;
    Line {
        start: l.start,
        end: vertex_at(
            Coord {
                x: sat(s.x + round_div(dx * TURN_COS - turn * dy * TURN_SIN, UNIT as int)),
                y: sat(s.y + round_div(turn * dx * TURN_SIN + dy * TURN_COS, UNIT as int)),
            },
        ),
    }
}

/// The first of `lines` that `fl` crosses.
#[verifier::opaque]
pub open spec fn first_hit(lines: Seq<Line>, fl: Line) -> Option<int> {
    if exists|i: int| 0 <= i < lines.len() && (#[trigger] intersection(lines[i], fl)).is_some() {
        Some(
            choose|i: int|
                0 <= i < lines.len() && (#[trigger] intersection(lines[i], fl)).is_some() && forall|
                    j: int,
                | 0 <= j < i ==> (#[trigger] intersection(lines[j], fl)).is_none(),
        )
    } else {
        None
    }
}

/// One step: when the flow crosses a boundary, it turns towards the
/// boundary's angle; else, or when the angles agree, it stays as it is.
pub open spec fn flow_step(fl: Line, lines: Seq<Line>) -> Line {
    match first_hit(lines, fl) {
        None => fl,
        Some(i) => {
            let (mine, theirs) = (direction(fl), direction(lines[i]));
            if angle_lt(mine, theirs) {
                turned(fl, 1)
            } else if angle_lt(theirs, mine) {
                turned(fl, -1)
            } else {
                fl
            }
        },
    }
}

/// The flow after `n` steps.
pub open spec fn flow_state(fl: Line, lines: Seq<Line>, n: nat) -> Line
    decreases n,
{
    if n == 0 {
        fl
    } else {
        flow_step(flow_state(fl, lines, (n - 1) as nat), lines)
    }
}

/// Whether the direction `a` makes a smaller angle than `b`.
pub fn angle_less(a: (i64, i64), b: (i64, i64)) -> (r: bool)
    requires
        -0x1_0000_0000 <= a.0 <= 0x1_0000_0000,
        -0x1_0000_0000 <= a.1 <= 0x1_0000_0000,
        -0x1_0000_0000 <= b.0 <= 0x1_0000_0000,
        -0x1_0000_0000 <= b.1 <= 0x1_0000_0000,
    ensures
        r == angle_lt((a.0 as int, a.1 as int), (b.0 as int, b.1 as int)),
{
    let ha = half_plane_exec(a);
    let hb = half_plane_exec(b);
    if ha != hb {
        ha < hb
    } else if ha == 0 || ha == 2 {
        proof {
            assert(-0x1_0000_0000_0000_0000 <= a.0 * b.1 <= 0x1_0000_0000_0000_0000)
                by (nonlinear_arith)
                requires
                    -0x1_0000_0000 <= a.0 <= 0x1_0000_0000,
                    -0x1_0000_0000 <= b.1 <= 0x1_0000_0000,
            ;
            assert(-0x1_0000_0000_0000_0000 <= a.1 * b.0 <= 0x1_0000_0000_0000_0000)
                by (nonlinear_arith)
                requires
                    -0x1_0000_0000 <= a.1 <= 0x1_0000_0000,
                    -0x1_0000_0000 <= b.0 <= 0x1_0000_0000,
            ;
        }
        a.0 as i128 * b.1 as i128 - a.1 as i128 * b.0 as i128 > 0
    } else {
        false
    }
}

fn half_plane_exec(d: (i64, i64)) -> (r: u8)
    ensures
        r == half_plane((d.0 as int, d.1 as int)),
{
    if d.1 < 0 {
        0
    } else if d.1 == 0 && d.0 >= 0 {
        1
    } else if d.1 > 0 {
        2
    } else {
        3
    }
}

/// Turns the end of `fl` about its start by one step, anticlockwise for
/// `turn` 1 and clockwise for -1.
pub fn rotate_around(fl: &Line, turn: i64) -> (r: Line)
    requires
        turn == 1 || turn == -1,
    ensures
        r == turned(*fl, turn as int),
{
    let dx = fl.get_run() as i128;
    let dy = fl.get_rise() as i128;
    let c = TURN_COS as i128;
    let sn = TURN_SIN as i128;
    let t = turn as i128;
    proof {
        assert(-0x1_0000_0000 * 65536 <= dx * c <= 0x1_0000_0000 * 65536) by (nonlinear_arith)
            requires
                -0x1_0000_0000 <= dx <= 0x1_0000_0000,
                c == 65533,
        ;
        assert(-0x1_0000_0000 * 65536 <= dy * c <= 0x1_0000_0000 * 65536) by (nonlinear_arith)
            requires
                -0x1_0000_0000 <= dy <= 0x1_0000_0000,
                c == 65533,
        ;
        assert(-0x1_0000_0000 * 65536 <= t * dy * sn <= 0x1_0000_0000 * 65536)
            by (nonlinear_arith)
            requires
                -0x1_0000_0000 <= dy <= 0x1_0000_0000,
                sn == 655,
                t == 1 || t == -1,
        ;
        assert(-0x1_0000_0000 * 65536 <= t * dx * sn <= 0x1_0000_0000 * 65536)
            by (nonlinear_arith)
            requires
                -0x1_0000_0000 <= dx <= 0x1_0000_0000,
                sn == 655,
                t == 1 || t == -1,
        ;
    }
    let ox = div_round(dx * c - t * dy * sn, UNIT as i128);
    let oy = div_round(t * dx * sn + dy * c, UNIT as i128);
    proof {
        crate::numeric::lemma_div_bounds(2 * (dx * c - t * dy * sn) + 65536, 2 * 65536int);
        crate::numeric::lemma_div_bounds(2 * (t * dx * sn + dy * c) + 65536, 2 * 65536int);
    }
    let s = fl.start.position;
    let end = Coord { x: saturate(s.x as i128 + ox), y: saturate(s.y as i128 + oy) };
    Line { start: fl.start, end: crate::geometry::Vertex::from_vector(end) }
}

/// The index of the first of `lines` that `fl` crosses.
pub fn find_hit(lines: &Vec<Line>, fl: &Line) -> (r: Option<usize>)
    ensures
        r matches Some(i) ==> i < lines@.len() && first_hit(lines@, *fl) == Some(i as int),
        r is None ==> first_hit(lines@, *fl) is None,
{
    let mut i: usize = 0;
    while i < lines.len()
        invariant
            0 <= i <= lines@.len(),
            forall|j: int| 0 <= j < i ==> (#[trigger] intersection(lines@[j], *fl)).is_none(),
        decreases lines@.len() - i,
    {
        if lines[i].get_intersection(*fl).is_some() {
            proof {
                reveal(first_hit);
                let ii = i as int;
                assert(intersection(lines@[ii], *fl).is_some());
                let c = choose|k: int|
                    0 <= k < lines@.len() && (#[trigger] intersection(lines@[k], *fl)).is_some()
                        && forall|j: int|
                        0 <= j < k ==> (#[trigger] intersection(lines@[j], *fl)).is_none();
                if c < ii {
                } else if c > ii {
                    assert(intersection(lines@[ii], *fl).is_none());
                }
            }
            return Some(i);
        }
        i += 1;
    }
    proof {
        reveal(first_hit);
    }
    None
}

/// One step of the flow (see `flow_step`).
pub fn step_flow(fl: &Line, collision: &Vec<Line>) -> (r: Line)
    ensures
        r == flow_step(*fl, collision@),
{
    match find_hit(collision, fl) {
        None => *fl,
        Some(i) => {
            let line = &collision[i];
            let mine = fl.get_rise_and_run();
            let theirs = line.get_rise_and_run();
            let mine = (mine.1, mine.0);
            let theirs = (theirs.1, theirs.0);
            if angle_less(mine, theirs) {
                rotate_around(fl, 1)
            } else if angle_less(theirs, mine) {
                rotate_around(fl, -1)
            } else {
                *fl
            }
        },
    }
}

/// Runs the flow from `horiz` for `STEPS` steps against the boundaries in
/// `collision` and returns where the flow segment stands after each step.
/// A step that crosses no boundary leaves the flow where it is; there is no
/// early stop.
pub fn simulate_ocean_flows(horiz: Line, collision: Vec<Line>) -> (r: Vec<Line>)
    ensures
        r@.len() == STEPS,
        forall|i: int| 0 <= i < STEPS ==> r@[i] == flow_state(horiz, collision@, (i + 1) as nat),
{
    let mut flow: Vec<Line> = Vec::new();
    let mut fl = horiz;
    let mut i: usize = 0;
    while i < STEPS
        invariant
            0 <= i <= STEPS,
            flow@.len() == i,
            fl == flow_state(horiz, collision@, i as nat),
            forall|j: int| 0 <= j < i ==> flow@[j] == flow_state(horiz, collision@, (j + 1) as nat),
        decreases STEPS - i,
    {
        fl = step_flow(&fl, &collision);
        flow.push(fl);
        i += 1;
    }
    flow
}

} // verus!
