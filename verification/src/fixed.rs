//! Fixed-point numbers: an `i64` that counts millionths.

use vstd::prelude::*;

verus! {

/// The fixed-point representation of the number one.
pub const ONE: i64 = 1_000_000;

/// Largest magnitude of a coordinate of a control point or of the light: ten
/// thousand. It is a limit of the arithmetic. It is set by the barycentric
/// weights of a pixel, whose numerators, the distance from a corner to a
/// pixel times the distance between two corners, a million times enlarged,
/// are held in 128 bits; and by the lighting, where the way from a weighted
/// point to the light has to be no longer than `VEC_MAX`.
pub const COORD_MAX: i64 = 10_000_000_000;

/// Largest magnitude of a component of a vector that can be normalized: a
/// million. It is set by the square root in `normalize`, which is taken of
/// the square of the length, a million million times enlarged, in 128 bits.
pub const VEC_MAX: i64 = 1_000_000_000_000;

/// `|a| <= bound`.
pub open spec fn within(a: int, bound: int) -> bool {
    -bound <= a <= bound
}

/// The fixed-point product, rounded down.
pub open spec fn fmul_spec(a: int, b: int) -> int {
    (a * b) / (ONE as int)
}

/// `v` limited to the interval from `lo` to `hi`.
pub open spec fn clamp_spec(v: int, lo: int, hi: int) -> int {
    if v < lo {
        lo
    } else if v > hi {
        hi
    } else {
        v
    }
}

/// The pixel row or column that holds the fixed-point coordinate `a`.
pub open spec fn floor_spec(a: int) -> int {
    a / (ONE as int)
}

/// The first whole number that is not below the fixed-point coordinate `a`.
pub open spec fn ceil_spec(a: int) -> int {
    (a + ONE - 1) / (ONE as int)
}

/// `r` is the square root of `n`, rounded down.
pub open spec fn is_isqrt(n: int, r: int) -> bool {
    0 <= r && r * r <= n && n < (r + 1) * (r + 1)
}

/// The square root of `n`, rounded down.
pub open spec fn isqrt_spec(n: int) -> int
    recommends
        n >= 0,
{
    choose|r: int| is_isqrt(n, r)
}

/// `base` raised to the power `m` in fixed point, rounding down after every
/// multiplication.
pub open spec fn fpow_spec(base: int, m: nat) -> int
    decreases m,
{
    if m == 0 {
        ONE as int
    } else {
        fmul_spec(fpow_spec(base, (m - 1) as nat), base)
    }
}

/// The product of two bounded numbers is bounded by the product of the bounds.
pub proof fn lemma_mul_within(a: int, b: int, ba: int, bb: int)
    requires
        within(a, ba),
        within(b, bb),
    ensures
        within(a * b, ba * bb),
{
    assert(within(a * b, ba * bb)) by (nonlinear_arith)
        requires
            -ba <= a <= ba,
            -bb <= b <= bb,
    ;
}

/// Division by a positive number keeps the sign and does not grow the magnitude.
pub proof fn lemma_div_within(a: int, d: int, bound: int)
    requires
        d > 0,
        within(a, bound),
    ensures
        within(a / d, bound),
        a >= 0 ==> 0 <= a / d <= a,
        a < 0 ==> a <= a / d < 0,
{
    vstd::arithmetic::div_mod::lemma_fundamental_div_mod(a, d);
    let q = a / d;
    let r = a % d;
    assert(-bound <= q <= bound && (a >= 0 ==> 0 <= q <= a) && (a < 0 ==> a <= q < 0)) by (nonlinear_arith)
        requires
            a == d * q + r,
            0 <= r < d,
            -bound <= a <= bound,
    ;
}

/// Division by a positive number is monotone.
pub proof fn lemma_div_monotone(a: int, b: int, d: int)
    requires
        d > 0,
        a <= b,
    ensures
        a / d <= b / d,
{
    vstd::arithmetic::div_mod::lemma_div_is_ordered(a, b, d);
}

/// A multiple of `d` divided by `d`.
pub proof fn lemma_div_exact(q: int, d: int)
    requires
        d > 0,
    ensures
        (q * d) / d == q,
        (d * q) / d == q,
{
    vstd::arithmetic::div_mod::lemma_div_multiples_vanish(q, d);
    assert(q * d == d * q) by (nonlinear_arith);
}

/// Multiplying by one changes nothing, and multiplying by zero gives zero.
pub proof fn lemma_fmul_unit(a: int)
    ensures
        fmul_spec(a, ONE as int) == a,
        fmul_spec(ONE as int, a) == a,
        fmul_spec(a, 0) == 0,
        fmul_spec(0, a) == 0,
{
    lemma_div_exact(a, ONE as int);
    assert(a * 0 == 0 && 0 * a == 0) by (nonlinear_arith);
}

/// `a / b` rounded down, for a positive `b`.
pub fn floor_div(a: i128, b: i128) -> (q: i128)
    requires
        b > 0,
    ensures
        q == a / b,
{
    proof {
        lemma_div_within(a as int, b as int, if a >= 0 { a as int } else { -(a as int) });
    }
    match a.checked_div_euclid(b) {
        Some(q) => q,
        None => 0,
    }
}

/// The exact product of two fixed-point numbers, a million times too large.
pub fn wide_mul(a: i64, b: i64) -> (r: i128)
    ensures
        r == a * b,
        within(r as int, 0x4000_0000_0000_0000_0000_0000_0000_0000),
{
    proof {
        lemma_mul_within(a as int, b as int, 0x8000_0000_0000_0000, 0x8000_0000_0000_0000);
        assert(0x8000_0000_0000_0000int * 0x8000_0000_0000_0000int
            == 0x4000_0000_0000_0000_0000_0000_0000_0000int);
    }
    (a as i128) * (b as i128)
}

/// The fixed-point product of `a` and `b`.
pub fn fmul(a: i64, b: i64) -> (r: i64)
    requires
        i64::MIN <= fmul_spec(a as int, b as int) <= i64::MAX,
    ensures
        r == fmul_spec(a as int, b as int),
{
    let q: i128 = floor_div(wide_mul(a, b), ONE as i128);
    q as i64
}

/// `v` limited to the interval from `lo` to `hi`.
pub fn clamp(v: i64, lo: i64, hi: i64) -> (r: i64)
    requires
        lo <= hi,
    ensures
        r == clamp_spec(v as int, lo as int, hi as int),
        lo <= r <= hi,
{
    if v < lo {
        lo
    } else if v > hi {
        hi
    } else {
        v
    }
}

/// The square root is the only number whose square brackets `n` from below.
pub proof fn lemma_isqrt_unique(n: int, r: int)
    requires
        0 <= r,
        r * r <= n < (r + 1) * (r + 1),
    ensures
        isqrt_spec(n) == r,
{
    let s = isqrt_spec(n);
    assert(is_isqrt(n, r));
    assert(is_isqrt(n, s));
    assert(s == r) by (nonlinear_arith)
        requires
            0 <= s,
            0 <= r,
            s * s <= n < (s + 1) * (s + 1),
            r * r <= n < (r + 1) * (r + 1),
    ;
}

/// The square root of `n`, rounded down.
pub fn isqrt(n: i128) -> (r: i128)
    requires
        0 <= n < 0x4000_0000_0000_0000_0000_0000_0000_0000,
    ensures
        0 <= r,
        r * r <= n < (r + 1) * (r + 1),
        r == isqrt_spec(n as int),
{
    let mut lo: i128 = 0;
    let mut hi: i128 = 0x8000_0000_0000_0000;
    assert(hi * hi > n) by {
        assert(0x8000_0000_0000_0000int * 0x8000_0000_0000_0000int
            == 0x4000_0000_0000_0000_0000_0000_0000_0000int);
    }
    while hi - lo > 1
        invariant
            0 <= lo < hi <= 0x8000_0000_0000_0000,
            lo * lo <= n < hi * hi,
        decreases hi - lo,
    {
        let mid: i128 = lo + (hi - lo) / 2;
        proof {
            lemma_mul_within(mid as int, mid as int, 0x8000_0000_0000_0000, 0x8000_0000_0000_0000);
            assert(0x8000_0000_0000_0000int * 0x8000_0000_0000_0000int
                == 0x4000_0000_0000_0000_0000_0000_0000_0000int);
        }
        if mid * mid <= n {
            lo = mid;
        } else {
            hi = mid;
        }
    }
    proof {
        assert(hi == lo + 1);
        lemma_isqrt_unique(n as int, lo as int);
    }
    lo
}

/// Powers of a number between zero and one stay between zero and one.
pub proof fn lemma_fpow_unit_range(base: int, m: nat)
    requires
        0 <= base <= ONE,
    ensures
        0 <= fpow_spec(base, m) <= ONE,
    decreases m,
{
    if m > 0 {
        lemma_fpow_unit_range(base, (m - 1) as nat);
        let p = fpow_spec(base, (m - 1) as nat);
        assert(0 <= p * base <= ONE * ONE) by (nonlinear_arith)
            requires
                0 <= p <= ONE,
                0 <= base <= ONE,
        ;
        lemma_div_monotone(p * base, ONE * ONE, ONE as int);
        lemma_div_monotone(0, p * base, ONE as int);
    }
}

/// `base` raised to the power `m`, for a `base` between zero and one.
pub fn fpow(base: i64, m: u8) -> (r: i64)
    requires
        0 <= base <= ONE,
    ensures
        r == fpow_spec(base as int, m as nat),
        0 <= r <= ONE,
{
    let mut r: i64 = ONE;
    let mut k: u8 = 0;
    while k < m
        invariant
            0 <= base <= ONE,
            k <= m,
            r == fpow_spec(base as int, k as nat),
            0 <= r <= ONE,
        decreases m - k,
    {
        proof {
            lemma_fpow_unit_range(base as int, (k + 1) as nat);
        }
        r = fmul(r, base);
        k = k + 1;
    }
    r
}

} // verus!
