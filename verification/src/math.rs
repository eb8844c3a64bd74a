//! Fixed-point arithmetic helpers: clamping, truncating division and an
//! integer square root, each tied to a spec-level counterpart.

use vstd::prelude::*;

verus! {

/// Clamp a fixed-point value to the unit interval `[0, 1000]`.
pub open spec fn clamp_unit_spec(v: int) -> int {
    if v < 0 {
        0
    } else if v > 1000 {
        1000
    } else {
        v
    }
}

/// Clamp a value to `[lo, hi]`.
pub open spec fn clamp_spec(v: int, lo: int, hi: int) -> int {
    if v < lo {
        lo
    } else if v > hi {
        hi
    } else {
        v
    }
}

/// Division truncating toward zero, the semantics of `/` on machine
/// integers; on spec-level `int`, `/` rounds toward negative infinity,
/// so the negative case is spelled out.
pub open spec fn sdiv(a: int, b: int) -> int {
    if a >= 0 {
        a / b
    } else {
        -((-a) / b)
    }
}

/// Floor of the square root, defined by counting up.
pub open spec fn sqrt_floor(n: int) -> int
    decreases n,
{
    if n <= 0 {
        0
    } else {
        let r = sqrt_floor(n - 1);
        if (r + 1) * (r + 1) <= n {
            r + 1
        } else {
            r
        }
    }
}

pub proof fn lemma_sqrt_floor(n: int)
    requires
        n >= 0,
    ensures
        sqrt_floor(n) >= 0,
        sqrt_floor(n) * sqrt_floor(n) <= n,
        n < (sqrt_floor(n) + 1) * (sqrt_floor(n) + 1),
    decreases n,
{
    if n > 0 {
        lemma_sqrt_floor(n - 1);
        let r = sqrt_floor(n - 1);
        if (r + 1) * (r + 1) <= n {
            assert(n < (r + 2) * (r + 2)) by (nonlinear_arith)
                requires
                    r >= 0,
                    n - 1 < (r + 1) * (r + 1),
                    (r + 1) * (r + 1) <= n,
            {}
        }
    }
}

/// Squaring is monotone on non-negative values.
pub proof fn lemma_square_monotone(a: int, b: int)
    requires
        0 <= a <= b,
    ensures
        a * a <= b * b,
{
    assert(a * a <= b * b) by (nonlinear_arith)
        requires
            0 <= a <= b,
    {}
}

/// Any non-negative `r` with `r * r <= n < (r + 1) * (r + 1)` is the
/// floor of the square root.
pub proof fn lemma_sqrt_unique(n: int, r: int)
    requires
        n >= 0,
        r >= 0,
        r * r <= n,
        n < (r + 1) * (r + 1),
    ensures
        r == sqrt_floor(n),
{
    let s = sqrt_floor(n);
    lemma_sqrt_floor(n);
    if r < s {
        lemma_square_monotone(r + 1, s);
    }
    if s < r {
        lemma_square_monotone(s + 1, r);
    }
}

pub proof fn lemma_sqrt_monotone(m: int, n: int)
    requires
        0 <= m <= n,
    ensures
        sqrt_floor(m) <= sqrt_floor(n),
{
    lemma_sqrt_floor(m);
    lemma_sqrt_floor(n);
    let a = sqrt_floor(m);
    let b = sqrt_floor(n);
    if b < a {
        lemma_square_monotone(b + 1, a);
    }
}

/// The square root of a perfect square.
pub proof fn lemma_sqrt_of_square(a: int)
    requires
        a >= 0,
    ensures
        sqrt_floor(a * a) == a,
{
    assert(a * a < (a + 1) * (a + 1)) by (nonlinear_arith)
        requires
            a >= 0,
    {}
    assert(a * a >= 0) by (nonlinear_arith)
        requires
            a >= 0,
    {}
    lemma_sqrt_unique(a * a, a);
}

/// A component is no longer than the vector: `|x| <= sqrt(x*x + e)`.
pub proof fn lemma_component_le_norm(x: int, e: int)
    requires
        e >= 0,
    ensures
        abs_spec(x) <= sqrt_floor(x * x + e),
{
    let a = abs_spec(x);
    assert(a * a == x * x) by (nonlinear_arith)
        requires
            a == abs_spec(x),
            a == if x >= 0 { x } else { -x },
    {}
    assert(x * x >= 0) by (nonlinear_arith) {}
    lemma_sqrt_of_square(a);
    lemma_sqrt_monotone(a * a, x * x + e);
}

pub open spec fn abs_spec(v: int) -> int {
    if v >= 0 {
        v
    } else {
        -v
    }
}

/// Bound on a product from bounds on its factors.
pub proof fn lemma_abs_mul_le(a: int, b: int, bound_a: int, bound_b: int)
    requires
        abs_spec(a) <= bound_a,
        abs_spec(b) <= bound_b,
    ensures
        abs_spec(a * b) <= bound_a * bound_b,
        a * b <= bound_a * bound_b,
        -(bound_a * bound_b) <= a * b,
{
    assert(abs_spec(a * b) <= bound_a * bound_b && a * b <= bound_a * bound_b && -(bound_a
        * bound_b) <= a * b) by (nonlinear_arith)
        requires
            abs_spec(a) <= bound_a,
            abs_spec(b) <= bound_b,
            abs_spec(a) == if a >= 0 { a } else { -a },
            abs_spec(b) == if b >= 0 { b } else { -b },
            abs_spec(a * b) == if a * b >= 0 { a * b } else { -(a * b) },
    {}
}

/// A square is non-negative and bounded by the square of a bound.
pub proof fn lemma_square_bound(a: int, bound: int)
    requires
        abs_spec(a) <= bound,
    ensures
        0 <= a * a <= bound * bound,
{
    assert(0 <= a * a <= bound * bound) by (nonlinear_arith)
        requires
            abs_spec(a) <= bound,
            abs_spec(a) == if a >= 0 { a } else { -a },
    {}
}

/// Truncating division shrinks magnitude: `|a / b| <= |a|` for `b >= 1`.
pub proof fn lemma_sdiv_le(a: int, b: int)
    requires
        b >= 1,
    ensures
        abs_spec(sdiv(a, b)) <= abs_spec(a),
        abs_spec(a) <= a || sdiv(a, b) <= 0,
        0 <= a ==> 0 <= sdiv(a, b) <= a,
    decreases b,
{
    assert(abs_spec(sdiv(a, b)) <= abs_spec(a) && (0 <= a ==> 0 <= sdiv(a, b) <= a) && (
    abs_spec(a) <= a || sdiv(a, b) <= 0)) by (nonlinear_arith)
        requires
            b >= 1,
            sdiv(a, b) == if a >= 0 { a / b } else { -((-a) / b) },
            abs_spec(a) == if a >= 0 { a } else { -a },
            abs_spec(sdiv(a, b)) == if sdiv(a, b) >= 0 { sdiv(a, b) } else { -sdiv(a, b) },
    {}
}

/// Multiplication by a non-negative value is monotone.
pub proof fn lemma_mul_le_mono(x: int, y: int, z: int)
    requires
        0 <= x <= y,
        0 <= z,
    ensures
        0 <= x * z <= y * z,
{
    assert(0 <= x * z <= y * z) by (nonlinear_arith)
        requires
            0 <= x <= y,
            0 <= z,
    {}
}

/// Division bound: `a / b <= c` when `a <= b * c`.
pub proof fn lemma_div_le(a: int, b: int, c: int)
    requires
        b >= 1,
        0 <= a,
        a <= b * c,
    ensures
        0 <= a / b <= c,
{
    assert(0 <= a / b <= c) by (nonlinear_arith)
        requires
            b >= 1,
            0 <= a,
            a <= b * c,
    {}
}

/// Scaling a component bounded by `d` and dividing by `d` stays within
/// the scale: `|trunc(a * c / d)| <= c`.
pub proof fn lemma_sdiv_push_bound(a: int, c: int, d: int)
    requires
        d >= 1,
        abs_spec(a) <= d,
        0 <= c,
    ensures
        abs_spec(sdiv(a * c, d)) <= c,
{
    lemma_abs_mul_le(a, c, d, c);
    let p = a * c;
    if p >= 0 {
        lemma_div_le(p, d, c);
    } else {
        lemma_div_le(-p, d, c);
    }
}

/// The square root does not exceed its argument.
pub proof fn lemma_sqrt_le(n: int)
    requires
        n >= 0,
    ensures
        0 <= sqrt_floor(n) <= n,
{
    lemma_sqrt_floor(n);
    let r = sqrt_floor(n);
    if r > n {
        assert(r * r > n) by (nonlinear_arith)
            requires
                r >= 1,
                r > n,
                n >= 0,
        {}
    }
}

pub fn clamp_unit(v: i64) -> (r: i64)
    ensures
        r == clamp_unit_spec(v as int),
{
    if v < 0 {
        0
    } else if v > 1000 {
        1000
    } else {
        v
    }
}

pub fn clamp_range(v: i64, lo: i64, hi: i64) -> (r: i64)
    requires
        lo <= hi,
    ensures
        r == clamp_spec(v as int, lo as int, hi as int),
{
    if v < lo {
        lo
    } else if v > hi {
        hi
    } else {
        v
    }
}

/// Truncating division on machine integers.
pub fn div_trunc(a: i64, b: i64) -> (q: i64)
    requires
        b > 0,
        a > i64::MIN,
    ensures
        q == sdiv(a as int, b as int),
{
    if a >= 0 {
        a / b
    } else {
        -((-a) / b)
    }
}

/// Integer square root by binary search.
pub fn isqrt(n: i64) -> (r: i64)
    requires
        n >= 0,
    ensures
        r == sqrt_floor(n as int),
        0 <= r <= n,
{
    let mut lo: i64 = 0;
    let mut hi: i64 = 3_037_000_500;
    proof {
        assert(3_037_000_500int * 3_037_000_500int == 9223372037000250000int) by (nonlinear_arith);
        assert((n as int) < 9223372037000250000int);
    }
    while lo + 1 < hi
        invariant
            0 <= lo < hi <= 3_037_000_500,
            lo * lo <= n as int,
            (n as int) < hi * hi,
        decreases hi - lo,
    {
        let mid = lo + (hi - lo) / 2;
        proof {
            assert(lo < mid < hi);
            assert(mid * mid <= 3_037_000_499int * 3_037_000_499int) by (nonlinear_arith)
                requires
                    0 <= mid <= 3_037_000_499int,
            {}
            assert(3_037_000_499int * 3_037_000_499int == 9223372030926249001int) by (nonlinear_arith);
        }
        if mid * mid <= n {
            lo = mid;
        } else {
            hi = mid;
        }
    }
    proof {
        lemma_sqrt_unique(n as int, lo as int);
        lemma_sqrt_le(n as int);
    }
    lo
}

} // verus!
