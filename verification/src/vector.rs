//! Vectors and matrices of fixed-point numbers.

use vstd::prelude::*;
use crate::fixed::{
    ONE, VEC_MAX, floor_div, fmul, fmul_spec, is_isqrt, isqrt, isqrt_spec, lemma_div_exact,
    lemma_div_monotone, lemma_div_within, lemma_fmul_unit, lemma_mul_within, wide_mul, within,
};

verus! {

/// Largest magnitude of a component for which products of two vectors are
/// computed. It is set by the sum of three products of components, which is
/// held in 128 bits.
pub const WIDE_MAX: i64 = 1_000_000_000_000_000_000;

/// A vector of three mathematical integers: what a [`Vec3`] stands for.
pub struct Vector {
    pub x: int,
    pub y: int,
    pub z: int,
}

impl Vector {
    /// Every component has magnitude at most `b`.
    pub open spec fn bounded(self, b: int) -> bool {
        within(self.x, b) && within(self.y, b) && within(self.z, b)
    }

    /// Every component fits an `i64`.
    pub open spec fn fits(self) -> bool {
        i64::MIN <= self.x <= i64::MAX && i64::MIN <= self.y <= i64::MAX && i64::MIN <= self.z
            <= i64::MAX
    }

    pub open spec fn zero() -> Vector {
        Vector { x: 0, y: 0, z: 0 }
    }

    pub open spec fn plus(self, o: Vector) -> Vector {
        Vector { x: self.x + o.x, y: self.y + o.y, z: self.z + o.z }
    }

    pub open spec fn minus(self, o: Vector) -> Vector {
        Vector { x: self.x - o.x, y: self.y - o.y, z: self.z - o.z }
    }

    /// The vector multiplied by the fixed-point number `k`, each component
    /// rounded down.
    pub open spec fn scaled(self, k: int) -> Vector {
        Vector { x: fmul_spec(self.x, k), y: fmul_spec(self.y, k), z: fmul_spec(self.z, k) }
    }

    /// The sum of the products of the components, not yet divided by `ONE`.
    pub open spec fn raw_dot(self, o: Vector) -> int {
        self.x * o.x + self.y * o.y + self.z * o.z
    }

    /// The fixed-point dot product, rounded down once.
    pub open spec fn dot(self, o: Vector) -> int {
        self.raw_dot(o) / (ONE as int)
    }

    /// The fixed-point cross product, each component rounded down once.
    pub open spec fn cross(self, o: Vector) -> Vector {
        Vector {
            x: (self.y * o.z - self.z * o.y) / (ONE as int),
            y: (self.z * o.x - self.x * o.z) / (ONE as int),
            z: (self.x * o.y - self.y * o.x) / (ONE as int),
        }
    }

    /// The square of the length, not divided by `ONE`.
    pub open spec fn norm_sq(self) -> int {
        self.raw_dot(self)
    }

    /// The length is one, up to rounding in the last digits.
    pub open spec fn is_unit(self) -> bool {
        (ONE - UNIT_SLACK) * (ONE - UNIT_SLACK) <= self.norm_sq() <= (ONE + UNIT_SLACK) * (ONE
            + UNIT_SLACK)
    }

    /// The length of the vector, a million times enlarged and rounded down.
    pub open spec fn wide_norm(self) -> int {
        isqrt_spec(self.norm_sq() * ONE * ONE)
    }

    /// The vector of length one with the same direction, each component
    /// rounded down. The zero vector has no direction and stays as it is, and
    /// so does a vector whose length is one already.
    pub open spec fn normalized(self) -> Vector {
        if self == Vector::zero() || self.is_unit() {
            self
        } else {
            let r = self.wide_norm();
            Vector {
                x: (self.x * ONE * ONE) / r,
                y: (self.y * ONE * ONE) / r,
                z: (self.z * ONE * ONE) / r,
            }
        }
    }
}

/// How far the length of a vector may be from one for the vector to count as
/// normalized. It is set by the rounding in `normalize`: what that gives is
/// no further from one (`lemma_normalized_is_unit`).
pub const UNIT_SLACK: i64 = 4;

/// Three fixed-point numbers.
#[derive(Clone, Copy, Debug, PartialEq, Eq, Structural)]
pub struct Vec3 {
    pub x: i64,
    pub y: i64,
    pub z: i64,
}

impl View for Vec3 {
    type V = Vector;

    open spec fn view(&self) -> Vector {
        Vector { x: self.x as int, y: self.y as int, z: self.z as int }
    }
}

/// The raw dot product of bounded vectors is bounded.
pub proof fn lemma_raw_dot_within(a: Vector, b: Vector, ba: int, bb: int)
    requires
        a.bounded(ba),
        b.bounded(bb),
    ensures
        within(a.raw_dot(b), 3 * (ba * bb)),
        within(a.dot(b), 3 * (ba * bb)),
        within(a.x * b.x, ba * bb),
        within(a.y * b.y, ba * bb),
        within(a.z * b.z, ba * bb),
{
    lemma_mul_within(a.x, b.x, ba, bb);
    lemma_mul_within(a.y, b.y, ba, bb);
    lemma_mul_within(a.z, b.z, ba, bb);
    lemma_div_within(a.raw_dot(b), ONE as int, 3 * (ba * bb));
}

/// The dot product of vectors bounded by `ba` and by `bb * ONE` is bounded by
/// `3 * ba * bb`.
pub proof fn lemma_dot_within(a: Vector, b: Vector, ba: int, bb: int)
    requires
        a.bounded(ba),
        b.bounded(bb * ONE),
    ensures
        within(a.dot(b), 3 * (ba * bb)),
{
    lemma_raw_dot_within(a, b, ba, bb * ONE);
    assert(3 * (ba * (bb * ONE)) == (3 * (ba * bb)) * ONE) by (nonlinear_arith);
    let t = 3 * (ba * bb);
    lemma_div_monotone(a.raw_dot(b), t * ONE, ONE as int);
    lemma_div_monotone(-t * ONE, a.raw_dot(b), ONE as int);
    lemma_div_exact(t, ONE as int);
    lemma_div_exact(-t, ONE as int);
}

impl Vec3 {
    pub fn new(x: i64, y: i64, z: i64) -> (r: Vec3)
        ensures
            r == (Vec3 { x, y, z }),
    {
        Vec3 { x, y, z }
    }

    pub fn zero() -> (r: Vec3)
        ensures
            r@ == Vector::zero(),
            r == (Vec3 { x: 0, y: 0, z: 0 }),
    {
        Vec3 { x: 0, y: 0, z: 0 }
    }

    /// The sum of two vectors.
    pub fn plus(self, o: Vec3) -> (r: Vec3)
        requires
            self@.plus(o@).fits(),
        ensures
            r@ == self@.plus(o@),
    {
        Vec3 { x: self.x + o.x, y: self.y + o.y, z: self.z + o.z }
    }

    /// The difference of two vectors.
    pub fn minus(self, o: Vec3) -> (r: Vec3)
        requires
            self@.minus(o@).fits(),
        ensures
            r@ == self@.minus(o@),
    {
        Vec3 { x: self.x - o.x, y: self.y - o.y, z: self.z - o.z }
    }

    /// The vector multiplied by the fixed-point number `k`.
    pub fn scaled(self, k: i64) -> (r: Vec3)
        requires
            self@.scaled(k as int).fits(),
        ensures
            r@ == self@.scaled(k as int),
    {
        Vec3 { x: fmul(self.x, k), y: fmul(self.y, k), z: fmul(self.z, k) }
    }

    /// The sum of the products of the components, a million times too large.
    pub fn raw_dot(self, o: Vec3) -> (r: i128)
        requires
            self@.bounded(WIDE_MAX as int),
            o@.bounded(WIDE_MAX as int),
        ensures
            r == self@.raw_dot(o@),
    {
        proof {
            lemma_raw_dot_within(self@, o@, WIDE_MAX as int, WIDE_MAX as int);
        }
        wide_mul(self.x, o.x) + wide_mul(self.y, o.y) + wide_mul(self.z, o.z)
    }

    /// The fixed-point dot product.
    pub fn dot(self, o: Vec3) -> (r: i64)
        requires
            self@.bounded(WIDE_MAX as int),
            o@.bounded(WIDE_MAX as int),
            i64::MIN <= self@.dot(o@) <= i64::MAX,
        ensures
            r == self@.dot(o@),
    {
        let q: i128 = floor_div(self.raw_dot(o), ONE as i128);
        q as i64
    }

    /// The fixed-point cross product.
    pub fn cross(self, o: Vec3) -> (r: Vec3)
        requires
            self@.bounded(WIDE_MAX as int),
            o@.bounded(WIDE_MAX as int),
            self@.cross(o@).fits(),
        ensures
            r@ == self@.cross(o@),
    {
        proof {
            lemma_raw_dot_within(self@, o@, WIDE_MAX as int, WIDE_MAX as int);
            lemma_mul_within(self.y as int, o.z as int, WIDE_MAX as int, WIDE_MAX as int);
            lemma_mul_within(self.z as int, o.y as int, WIDE_MAX as int, WIDE_MAX as int);
            lemma_mul_within(self.z as int, o.x as int, WIDE_MAX as int, WIDE_MAX as int);
            lemma_mul_within(self.x as int, o.z as int, WIDE_MAX as int, WIDE_MAX as int);
            lemma_mul_within(self.x as int, o.y as int, WIDE_MAX as int, WIDE_MAX as int);
            lemma_mul_within(self.y as int, o.x as int, WIDE_MAX as int, WIDE_MAX as int);
        }
        let cx: i128 = floor_div(wide_mul(self.y, o.z) - wide_mul(self.z, o.y), ONE as i128);
        let cy: i128 = floor_div(wide_mul(self.z, o.x) - wide_mul(self.x, o.z), ONE as i128);
        let cz: i128 = floor_div(wide_mul(self.x, o.y) - wide_mul(self.y, o.x), ONE as i128);
        Vec3 { x: cx as i64, y: cy as i64, z: cz as i64 }
    }
}

/// Largest magnitude of a component of a normalized vector.
pub const UNIT_MAX: i64 = ONE + UNIT_SLACK;

/// Only the zero vector has length zero.
pub proof fn lemma_norm_sq_zero(v: Vector)
    ensures
        v.norm_sq() >= 0,
        v.norm_sq() == 0 <==> v == Vector::zero(),
        v.x * v.x <= v.norm_sq(),
        v.y * v.y <= v.norm_sq(),
        v.z * v.z <= v.norm_sq(),
{
    assert(v.x * v.x >= 0 && (v.x * v.x == 0 <==> v.x == 0)) by (nonlinear_arith);
    assert(v.y * v.y >= 0 && (v.y * v.y == 0 <==> v.y == 0)) by (nonlinear_arith);
    assert(v.z * v.z >= 0 && (v.z * v.z == 0 <==> v.z == 0)) by (nonlinear_arith);
}

/// A component divided by the length is at most one.
proof fn lemma_component_over_norm(c: int, s: int, r: int)
    requires
        c * c <= s,
        s >= 1,
        is_isqrt(s * ONE * ONE, r),
    ensures
        r >= ONE,
        within((c * ONE * ONE) / r, ONE as int),
{
    assert(r >= ONE) by (nonlinear_arith)
        requires
            s >= 1,
            0 <= r,
            s * ONE * ONE < (r + 1) * (r + 1),
    ;
    assert(-r <= c * ONE <= r) by (nonlinear_arith)
        requires
            c * c <= s,
            0 <= r,
            s * ONE * ONE < (r + 1) * (r + 1),
    ;
    assert(c * ONE * ONE <= ONE * r && -ONE * r <= c * ONE * ONE) by (nonlinear_arith)
        requires
            -r <= c * ONE <= r,
    ;
    lemma_div_monotone(c * ONE * ONE, ONE * r, r);
    lemma_div_monotone(-ONE * r, c * ONE * ONE, r);
    lemma_div_exact(ONE as int, r);
    lemma_div_exact(-ONE as int, r);
}

/// A normalized vector has no component beyond one, up to the slack.
pub proof fn lemma_normalized_bounded(v: Vector)
    ensures
        v.normalized().bounded(UNIT_MAX as int),
        v != Vector::zero() && !v.is_unit() ==> v.normalized().bounded(ONE as int),
{
    lemma_norm_sq_zero(v);
    if v == Vector::zero() {
    } else if v.is_unit() {
        let b = ONE + UNIT_SLACK;
        assert(within(v.x, b)) by (nonlinear_arith)
            requires
                v.x * v.x <= b * b,
                b >= 0,
        ;
        assert(within(v.y, b)) by (nonlinear_arith)
            requires
                v.y * v.y <= b * b,
                b >= 0,
        ;
        assert(within(v.z, b)) by (nonlinear_arith)
            requires
                v.z * v.z <= b * b,
                b >= 0,
        ;
    } else {
        let s = v.norm_sq();
        let r = v.wide_norm();
        lemma_wide_norm(v);
        lemma_component_over_norm(v.x, s, r);
        lemma_component_over_norm(v.y, s, r);
        lemma_component_over_norm(v.z, s, r);
    }
}

/// The enlarged length is a square root.
pub proof fn lemma_wide_norm(v: Vector)
    ensures
        is_isqrt(v.norm_sq() * ONE * ONE, v.wide_norm()),
{
    lemma_norm_sq_zero(v);
    let n = v.norm_sq() * ONE * ONE;
    assert(n >= 0) by (nonlinear_arith)
        requires
            n == v.norm_sq() * ONE * ONE,
            v.norm_sq() >= 0,
    ;
    lemma_isqrt_exists(n);
}

/// Every natural number has a square root, rounded down.
pub proof fn lemma_isqrt_exists(n: int)
    requires
        n >= 0,
    ensures
        is_isqrt(n, isqrt_spec(n)),
    decreases n,
{
    if n == 0 {
        assert(is_isqrt(0, 0));
    } else {
        lemma_isqrt_exists(n - 1);
        let r = isqrt_spec(n - 1);
        if n < (r + 1) * (r + 1) {
            assert(is_isqrt(n, r));
        } else {
            assert(is_isqrt(n, r + 1)) by (nonlinear_arith)
                requires
                    0 <= r,
                    r * r <= n - 1,
                    n - 1 < (r + 1) * (r + 1),
                    n >= (r + 1) * (r + 1),
            ;
        }
    }
}

impl Vec3 {
    /// The vector of length one with the same direction.
    pub fn normalize(self) -> (r: Vec3)
        requires
            self@.bounded(VEC_MAX as int),
        ensures
            r@ == self@.normalized(),
            r@.bounded(UNIT_MAX as int),
    {
        proof {
            lemma_norm_sq_zero(self@);
            lemma_normalized_bounded(self@);
            lemma_raw_dot_within(self@, self@, VEC_MAX as int, VEC_MAX as int);
        }
        let s: i128 = self.raw_dot(self);
        let lo: i128 = 999_992_000_016;
        let hi: i128 = 1_000_008_000_016;
        assert(lo == (ONE - UNIT_SLACK) * (ONE - UNIT_SLACK));
        assert(hi == (ONE + UNIT_SLACK) * (ONE + UNIT_SLACK));
        if s == 0 || (lo <= s && s <= hi) {
            return self;
        }
        let wide: i128 = s * (ONE as i128) * (ONE as i128);
        let len: i128 = isqrt(wide);
        proof {
            lemma_wide_norm(self@);
            crate::fixed::lemma_isqrt_unique(wide as int, self@.wide_norm());
            lemma_component_over_norm(self.x as int, s as int, len as int);
        }
        let x: i128 = floor_div((self.x as i128) * (ONE as i128) * (ONE as i128), len);
        let y: i128 = floor_div((self.y as i128) * (ONE as i128) * (ONE as i128), len);
        let z: i128 = floor_div((self.z as i128) * (ONE as i128) * (ONE as i128), len);
        Vec3 { x: x as i64, y: y as i64, z: z as i64 }
    }
}

/// The square of a quotient times the divisor, with its remainder: the
/// parts of `a * a` for `a == w * r + rest`.
proof fn lemma_square_parts(a: int, w: int, r: int, rest: int, k: int)
    requires
        a == w * r + rest,
        0 <= rest < r,
        -k <= w <= k,
        k > 0,
    ensures
        a * a - 2 * k * (r * r) - r * r <= (r * r) * (w * w) <= a * a + 2 * k * (r * r),
{
    assert(a * a == (r * r) * (w * w) + 2 * r * (w * rest) + rest * rest) by (nonlinear_arith)
        requires
            a == w * r + rest,
    ;
    assert(-(k * r) <= w * rest <= k * r) by (nonlinear_arith)
        requires
            0 <= rest < r,
            -k <= w <= k,
    ;
    assert(0 <= rest * rest <= r * r) by (nonlinear_arith)
        requires
            0 <= rest < r,
    ;
    assert(-(2 * k * (r * r)) <= 2 * r * (w * rest) <= 2 * k * (r * r)) by (nonlinear_arith)
        requires
            -(k * r) <= w * rest <= k * r,
            r > 0,
    ;
}

/// A vector that was brought to length one has length one, up to the slack:
/// bringing it to length one again changes nothing.
pub proof fn lemma_normalized_is_unit(v: Vector)
    ensures
        v.normalized() == Vector::zero() || v.normalized().is_unit(),
        v.normalized().normalized() == v.normalized(),
{
    lemma_norm_sq_zero(v);
    if v == Vector::zero() || v.is_unit() {
    } else {
        let k = ONE as int;
        let s = v.norm_sq();
        let r = v.wide_norm();
        lemma_wide_norm(v);
        lemma_component_over_norm(v.x, s, r);
        lemma_component_over_norm(v.y, s, r);
        lemma_component_over_norm(v.z, s, r);
        let n = v.normalized();
        let ax = v.x * ONE * ONE;
        let ay = v.y * ONE * ONE;
        let az = v.z * ONE * ONE;
        vstd::arithmetic::div_mod::lemma_fundamental_div_mod(ax, r);
        vstd::arithmetic::div_mod::lemma_fundamental_div_mod(ay, r);
        vstd::arithmetic::div_mod::lemma_fundamental_div_mod(az, r);
        assert(ax == n.x * r + ax % r) by (nonlinear_arith)
            requires
                ax == r * n.x + ax % r,
        ;
        assert(ay == n.y * r + ay % r) by (nonlinear_arith)
            requires
                ay == r * n.y + ay % r,
        ;
        assert(az == n.z * r + az % r) by (nonlinear_arith)
            requires
                az == r * n.z + az % r,
        ;
        lemma_square_parts(ax, n.x, r, ax % r, k);
        lemma_square_parts(ay, n.y, r, ay % r, k);
        lemma_square_parts(az, n.z, r, az % r, k);
        let rr = r * r;
        let w = n.norm_sq();
        let total = ax * ax + ay * ay + az * az;
        assert(rr * w == rr * (n.x * n.x) + rr * (n.y * n.y) + rr * (n.z * n.z)) by (nonlinear_arith)
            requires
                w == n.x * n.x + n.y * n.y + n.z * n.z,
        ;
        let qx = rr * (n.x * n.x);
        let qy = rr * (n.y * n.y);
        let qz = rr * (n.z * n.z);
        let kr = k * rr;
        assert(2 * k * rr == 2 * kr) by (nonlinear_arith)
            requires
                kr == k * rr,
        ;
        assert(ax * ax - 2 * kr - rr <= qx <= ax * ax + 2 * kr);
        assert(ay * ay - 2 * kr - rr <= qy <= ay * ay + 2 * kr);
        assert(az * az - 2 * kr - rr <= qz <= az * az + 2 * kr);
        assert(6 * k * rr == 6 * kr) by (nonlinear_arith)
            requires
                kr == k * rr,
        ;
        assert(total - 6 * k * rr - 3 * rr <= rr * w <= total + 6 * k * rr);
        let kk = ONE * ONE;
        assert(ax * ax == (v.x * v.x) * (kk * kk) && ay * ay == (v.y * v.y) * (kk * kk) && az * az == (v.z * v.z) * (
        kk * kk)) by (nonlinear_arith)
            requires
                ax == v.x * ONE * ONE,
                ay == v.y * ONE * ONE,
                az == v.z * ONE * ONE,
                kk == ONE * ONE,
        ;
        assert(total == kk * (s * ONE * ONE)) by (nonlinear_arith)
            requires
                total == (v.x * v.x) * (kk * kk) + (v.y * v.y) * (kk * kk) + (v.z * v.z) * (kk * kk),
                s == v.x * v.x + v.y * v.y + v.z * v.z,
                kk == ONE * ONE,
        ;
        let wide = s * ONE * ONE;
        assert(rr <= wide < (r + 1) * (r + 1));
        assert(kk * rr <= total) by (nonlinear_arith)
            requires
                total == kk * wide,
                rr <= wide,
                kk > 0,
        ;
        assert(total < kk * ((r + 1) * (r + 1))) by (nonlinear_arith)
            requires
                total == kk * wide,
                wide < (r + 1) * (r + 1),
                kk > 0,
        ;
        assert(kk * ((r + 1) * (r + 1)) <= rr * ((k + 1) * (k + 1))) by (nonlinear_arith)
            requires
                kk == k * k,
                rr == r * r,
                r >= k,
                k > 0,
        ;
        let hi = (k + 1) * (k + 1) + 6 * k;
        let lo = kk - 6 * k - 3;
        assert(rr * w < rr * hi) by (nonlinear_arith)
            requires
                rr * w <= total + 6 * k * rr,
                total < rr * ((k + 1) * (k + 1)),
                hi == (k + 1) * (k + 1) + 6 * k,
        ;
        assert(rr * w >= rr * lo) by (nonlinear_arith)
            requires
                total - 6 * k * rr - 3 * rr <= rr * w,
                kk * rr <= total,
                lo == kk - 6 * k - 3,
        ;
        assert(rr > 0) by (nonlinear_arith)
            requires
                rr == r * r,
                r >= k,
                k > 0,
        ;
        assert(w < hi) by (nonlinear_arith)
            requires
                rr * w < rr * hi,
                rr > 0,
        ;
        assert(w >= lo) by (nonlinear_arith)
            requires
                rr * w >= rr * lo,
                rr > 0,
        ;
        assert(n.is_unit());
    }
}

/// Three rows of three mathematical integers: what a [`Mat3`] stands for.
pub struct Matrix {
    pub r0: Vector,
    pub r1: Vector,
    pub r2: Vector,
}

impl Matrix {
    /// Every entry has magnitude at most `b`.
    pub open spec fn bounded(self, b: int) -> bool {
        self.r0.bounded(b) && self.r1.bounded(b) && self.r2.bounded(b)
    }

    pub open spec fn identity() -> Matrix {
        Matrix {
            r0: Vector { x: ONE as int, y: 0, z: 0 },
            r1: Vector { x: 0, y: ONE as int, z: 0 },
            r2: Vector { x: 0, y: 0, z: ONE as int },
        }
    }

    pub open spec fn col0(self) -> Vector {
        Vector { x: self.r0.x, y: self.r1.x, z: self.r2.x }
    }

    pub open spec fn col1(self) -> Vector {
        Vector { x: self.r0.y, y: self.r1.y, z: self.r2.y }
    }

    pub open spec fn col2(self) -> Vector {
        Vector { x: self.r0.z, y: self.r1.z, z: self.r2.z }
    }

    /// The matrix applied to a vector: each component is the dot product of a
    /// row with the vector.
    pub open spec fn apply(self, v: Vector) -> Vector {
        Vector { x: self.r0.dot(v), y: self.r1.dot(v), z: self.r2.dot(v) }
    }

    /// The matrix product: each entry is the dot product of a row of `self`
    /// with a column of `o`.
    pub open spec fn times(self, o: Matrix) -> Matrix {
        Matrix {
            r0: Vector { x: self.r0.dot(o.col0()), y: self.r0.dot(o.col1()), z: self.r0.dot(o.col2()) },
            r1: Vector { x: self.r1.dot(o.col0()), y: self.r1.dot(o.col1()), z: self.r1.dot(o.col2()) },
            r2: Vector { x: self.r2.dot(o.col0()), y: self.r2.dot(o.col1()), z: self.r2.dot(o.col2()) },
        }
    }
}

/// A three by three matrix of fixed-point numbers, row by row.
#[derive(Clone, Copy, Debug, PartialEq, Eq, Structural)]
pub struct Mat3 {
    pub r0: Vec3,
    pub r1: Vec3,
    pub r2: Vec3,
}

impl View for Mat3 {
    type V = Matrix;

    open spec fn view(&self) -> Matrix {
        Matrix { r0: self.r0@, r1: self.r1@, r2: self.r2@ }
    }
}

/// The identity matrix leaves every vector as it is.
pub proof fn lemma_identity_apply(v: Vector)
    ensures
        Matrix::identity().apply(v) == v,
{
    lemma_fmul_unit(v.x);
    lemma_fmul_unit(v.y);
    lemma_fmul_unit(v.z);
    assert(0 * v.x == 0 && 0 * v.y == 0 && 0 * v.z == 0) by (nonlinear_arith);
    assert(ONE * v.x == v.x * ONE && ONE * v.y == v.y * ONE && ONE * v.z == v.z * ONE)
        by (nonlinear_arith);
}

/// A matrix with entries up to one moves a vector no further than three times
/// its bound.
pub proof fn lemma_apply_bounded(m: Matrix, v: Vector, b: int)
    requires
        m.bounded(ONE as int),
        v.bounded(b),
    ensures
        m.apply(v).bounded(3 * b),
{
    lemma_apply_row(m.r0, v, b);
    lemma_apply_row(m.r1, v, b);
    lemma_apply_row(m.r2, v, b);
}

proof fn lemma_apply_row(row: Vector, v: Vector, b: int)
    requires
        row.bounded(ONE as int),
        v.bounded(b),
    ensures
        within(row.dot(v), 3 * b),
{
    lemma_raw_dot_within(v, row, b, ONE as int);
    assert(v.raw_dot(row) == row.raw_dot(v)) by (nonlinear_arith);
    assert(3 * (b * ONE) == (3 * b) * ONE) by (nonlinear_arith);
    lemma_div_monotone(row.raw_dot(v), (3 * b) * ONE, ONE as int);
    lemma_div_monotone(-(3 * b) * ONE, row.raw_dot(v), ONE as int);
    lemma_div_exact(3 * b, ONE as int);
    lemma_div_exact(-(3 * b), ONE as int);
}

impl Mat3 {
    pub fn identity() -> (r: Mat3)
        ensures
            r@ == Matrix::identity(),
    {
        Mat3 {
            r0: Vec3 { x: ONE, y: 0, z: 0 },
            r1: Vec3 { x: 0, y: ONE, z: 0 },
            r2: Vec3 { x: 0, y: 0, z: ONE },
        }
    }

    /// The matrix applied to a vector.
    pub fn apply(&self, v: Vec3) -> (r: Vec3)
        requires
            self@.bounded(ONE as int),
            v@.bounded(WIDE_MAX as int),
        ensures
            r@ == self@.apply(v@),
    {
        proof {
            lemma_apply_bounded(self@, v@, WIDE_MAX as int);
        }
        Vec3 { x: self.r0.dot(v), y: self.r1.dot(v), z: self.r2.dot(v) }
    }

    /// The matrix product of `self` and `o`.
    pub fn times(&self, o: &Mat3) -> (r: Mat3)
        requires
            self@.bounded(ONE as int),
            o@.bounded(ONE as int),
        ensures
            r@ == self@.times(o@),
    {
        let c0: Vec3 = Vec3 { x: o.r0.x, y: o.r1.x, z: o.r2.x };
        let c1: Vec3 = Vec3 { x: o.r0.y, y: o.r1.y, z: o.r2.y };
        let c2: Vec3 = Vec3 { x: o.r0.z, y: o.r1.z, z: o.r2.z };
        proof {
            lemma_apply_row(self@.r0, c0@, ONE as int);
            lemma_apply_row(self@.r0, c1@, ONE as int);
            lemma_apply_row(self@.r0, c2@, ONE as int);
            lemma_apply_row(self@.r1, c0@, ONE as int);
            lemma_apply_row(self@.r1, c1@, ONE as int);
            lemma_apply_row(self@.r1, c2@, ONE as int);
            lemma_apply_row(self@.r2, c0@, ONE as int);
            lemma_apply_row(self@.r2, c1@, ONE as int);
            lemma_apply_row(self@.r2, c2@, ONE as int);
        }
        Mat3 {
            r0: Vec3 { x: self.r0.dot(c0), y: self.r0.dot(c1), z: self.r0.dot(c2) },
            r1: Vec3 { x: self.r1.dot(c0), y: self.r1.dot(c1), z: self.r1.dot(c2) },
            r2: Vec3 { x: self.r2.dot(c0), y: self.r2.dot(c1), z: self.r2.dot(c2) },
        }
    }
}

} // verus!
