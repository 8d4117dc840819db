//! Fixed-point arithmetic shared by the geometry: a coordinate is an `i32`
//! counting `UNIT`ths of a world unit, and intermediate products are exact
//! in `i128`.
use vstd::arithmetic::div_mod::{
    lemma_div_is_ordered,
    lemma_fundamental_div_mod, lemma_fundamental_div_mod_converse, lemma_mod_bound,
};
use vstd::prelude::*;

verus! {

/// One world unit in fixed-point coordinates.
pub const UNIT: i32 = 65536;

/// A bound on the magnitude of the `i128` values divided in this crate,
/// leaving room to double them.
pub const WIDE_LIMIT: i128 = 0x1000_0000_0000_0000_0000_0000_0000_0000;

/// The value `v` saturated into the range of `i32`.
pub open spec fn sat(v: int) -> i32 {
    if v < i32::MIN {
        i32::MIN
    } else if v > i32::MAX {
        i32::MAX
    } else {
        v as i32
    }
}

/// `a / d` rounded to the nearest integer, halves rounded up.
pub open spec fn round_div(a: int, d: int) -> int {
    (2 * a + d) / (2 * d)
}

/// `r` is the integer square root of `n`, rounded down.
pub open spec fn is_floor_sqrt(n: int, r: int) -> bool {
    0 <= r && r * r <= n && n < (r + 1) * (r + 1)
}

/// The integer square root of `n`, rounded down.
pub open spec fn floor_sqrt(n: int) -> int {
    choose|r: int| is_floor_sqrt(n, r)
}

pub proof fn lemma_floor_sqrt_unique(n: int, r: int)
    requires
        is_floor_sqrt(n, r),
    ensures
        floor_sqrt(n) == r,
{
    let s = floor_sqrt(n);
    assert(is_floor_sqrt(n, s));
    if s > r {
        assert(s * s >= (r + 1) * (r + 1)) by (nonlinear_arith)
            requires
                s >= r + 1,
                r >= 0,
        ;
    } else if s < r {
        assert(r * r >= (s + 1) * (s + 1)) by (nonlinear_arith)
            requires
                r >= s + 1,
                s >= 0,
        ;
    }
}

/// Floor of `a / d`; in specifications `/` already rounds down for `d > 0`.
pub proof fn lemma_floor_div(a: int, d: int, q: int)
    requires
        d > 0,
        q * d <= a < (q + 1) * d,
    ensures
        a / d == q,
{
    assert(q * d + (a - q * d) == a);
    assert((q + 1) * d == q * d + d) by (nonlinear_arith);
    lemma_fundamental_div_mod_converse(a, d, q, a - q * d);
}

/// The quotient brackets the dividend, for a positive divisor.
pub proof fn lemma_div_bounds(n: int, d: int)
    requires
        d > 0,
    ensures
        (n / d) * d <= n < (n / d + 1) * d,
{
    lemma_fundamental_div_mod(n, d);
    lemma_mod_bound(n, d);
    assert((n / d) * d <= n < (n / d + 1) * d) by (nonlinear_arith)
        requires
            n == d * (n / d) + n % d,
            0 <= n % d < d,
    ;
}

pub fn saturate(v: i128) -> (r: i32)
    ensures
        r == sat(v as int),
{
    if v < i32::MIN as i128 {
        i32::MIN
    } else if v > i32::MAX as i128 {
        i32::MAX
    } else {
        v as i32
    }
}

/// Division rounding down, for a positive divisor.
pub fn floor_div(a: i128, d: i128) -> (r: i128)
    requires
        d > 0,
        -WIDE_LIMIT < a < WIDE_LIMIT,
    ensures
        r == a / d,
{
    if a >= 0 {
        a / d
    } else {
        let m: i128 = -a - 1;
        let q: i128 = m / d;
        proof {
            let qi = q as int;
            let mi = m as int;
            let di = d as int;
            lemma_fundamental_div_mod(mi, di);
            lemma_mod_bound(mi, di);
            assert(qi * di <= mi < (qi + 1) * di) by (nonlinear_arith)
                requires
                    qi == mi / di,
                    mi == di * (mi / di) + mi % di,
                    0 <= mi % di < di,
            ;
            assert((-qi - 1) * di <= a < (-qi) * di) by (nonlinear_arith)
                requires
                    qi * di <= mi < (qi + 1) * di,
                    a == -mi - 1,
            ;
            lemma_floor_div(a as int, di, -qi - 1);
        }
        -q - 1
    }
}

/// Division rounding to the nearest integer, for a positive divisor.
pub fn div_round(a: i128, d: i128) -> (r: i128)
    requires
        0 < d < WIDE_LIMIT / 4,
        -WIDE_LIMIT / 4 < a < WIDE_LIMIT / 4,
    ensures
        r == round_div(a as int, d as int),
{
    floor_div(2 * a + d, 2 * d)
}

/// Integer square root, rounded down.
pub fn isqrt(n: u128) -> (r: u64)
    ensures
        is_floor_sqrt(n as int, r as int),
        r == floor_sqrt(n as int),
{
    let mut lo: u128 = 0;
    let mut hi: u128 = 0x1_0000_0000_0000_0000;
    assert(n < hi * hi);
    while hi - lo > 1
        invariant
            lo < hi <= 0x1_0000_0000_0000_0000,
            lo * lo <= n,
            n < hi * hi,
        decreases hi - lo,
    {
        let mid: u128 = lo + (hi - lo) / 2;
        assert(mid * mid <= 0xffff_ffff_ffff_ffffu128 * 0xffff_ffff_ffff_ffffu128) by (nonlinear_arith)
            requires
                mid < 0x1_0000_0000_0000_0000,
        ;
        if mid * mid <= n {
            lo = mid;
        } else {
            hi = mid;
        }
    }
    assert(hi == lo + 1);
    proof {
        lemma_floor_sqrt_unique(n as int, lo as int);
    }
    lo as u64
}

const LIMB: u128 = 0x1_0000_0000_0000_0000;

/// The full product `x * y` as a high and a low 128-bit half.
fn mul_wide(x: u128, y: u128) -> (r: (u128, u128))
    ensures
        r.0 * (LIMB * LIMB) + r.1 == x * y,
        r.1 < LIMB * LIMB,
{
    let b = LIMB;
    let (x0, x1, y0, y1) = (x % b, x / b, y % b, y / b);
    proof {
        lemma_fundamental_div_mod(x as int, b as int);
        lemma_fundamental_div_mod(y as int, b as int);
        lemma_mod_bound(x as int, b as int);
        lemma_mod_bound(y as int, b as int);
        assert(x1 < b) by (nonlinear_arith)
            requires
                x == b * x1 + x0,
                x0 >= 0,
                x < b * b,
                b > 0,
        ;
        assert(y1 < b) by (nonlinear_arith)
            requires
                y == b * y1 + y0,
                y0 >= 0,
                y < b * b,
                b > 0,
        ;
        assert(x0 * y0 <= (b - 1) * (b - 1) && x0 * y1 <= (b - 1) * (b - 1) && x1 * y0 <= (b - 1)
            * (b - 1) && x1 * y1 <= (b - 1) * (b - 1)) by (nonlinear_arith)
            requires
                0 <= x0 < b,
                0 <= x1 < b,
                0 <= y0 < b,
                0 <= y1 < b,
        ;
    }
    let p00 = x0 * y0;
    let p01 = x0 * y1;
    let p10 = x1 * y0;
    let p11 = x1 * y1;
    proof {
        lemma_fundamental_div_mod(p00 as int, b as int);
        lemma_fundamental_div_mod(p01 as int, b as int);
        lemma_fundamental_div_mod(p10 as int, b as int);
        lemma_mod_bound(p00 as int, b as int);
        lemma_mod_bound(p01 as int, b as int);
        lemma_mod_bound(p10 as int, b as int);
        assert(p00 / b <= b - 2 && p01 / b <= b - 2 && p10 / b <= b - 2) by {
            lemma_div_is_ordered(p00 as int, (b - 1) * (b - 1), b as int);
            lemma_div_is_ordered(p01 as int, (b - 1) * (b - 1), b as int);
            lemma_div_is_ordered(p10 as int, (b - 1) * (b - 1), b as int);
            lemma_floor_div((b - 1) * (b - 1), b as int, b - 2);
        }
    }
    let mid = p00 / b + p01 % b + p10 % b;
    proof {
        lemma_fundamental_div_mod(mid as int, b as int);
        lemma_mod_bound(mid as int, b as int);
        assert(mid / b <= 2) by {
            lemma_div_is_ordered(mid as int, 3 * b - 1, b as int);
            lemma_floor_div(3 * b - 1, b as int, 2);
        }
    }
    let lo = (mid % b) * b + p00 % b;
    let hi = p11 + p01 / b + p10 / b + mid / b;
    proof {
        assert(x * y == p11 * (b * b) + (p01 + p10) * b + p00) by (nonlinear_arith)
            requires
                x == b * x1 + x0,
                y == b * y1 + y0,
                p00 == x0 * y0,
                p01 == x0 * y1,
                p10 == x1 * y0,
                p11 == x1 * y1,
        ;
        assert(hi * (b * b) + lo == x * y) by (nonlinear_arith)
            requires
                x * y == p11 * (b * b) + (p01 + p10) * b + p00,
                p00 == b * (p00 / b) + p00 % b,
                p01 == b * (p01 / b) + p01 % b,
                p10 == b * (p10 / b) + p10 % b,
                mid == b * (mid / b) + mid % b,
                mid == p00 / b + p01 % b + p10 % b,
                lo == (mid % b) * b + p00 % b,
                hi == p11 + p01 / b + p10 / b + mid / b,
        ;
    }
    (hi, lo)
}

/// Whether `a * b < c * d`, the products taken in full.
pub fn mul_lt(a: u128, b: u128, c: u128, d: u128) -> (r: bool)
    ensures
        r == (a * b < c * d),
{
    let (h1, l1) = mul_wide(a, b);
    let (h2, l2) = mul_wide(c, d);
    let ghost w = LIMB * LIMB;
    proof {
        if h1 < h2 {
            assert(h1 * w + l1 < h2 * w + l2) by (nonlinear_arith)
                requires
                    h1 + 1 <= h2,
                    0 <= l1 < w,
                    0 <= l2,
            ;
        } else if h1 > h2 {
            assert(h2 * w + l2 < h1 * w + l1) by (nonlinear_arith)
                requires
                    h2 + 1 <= h1,
                    0 <= l2 < w,
                    0 <= l1,
            ;
        }
    }
    h1 < h2 || (h1 == h2 && l1 < l2)
}

} // verus!
