//! A point of the surface: where it lies, how the surface runs through it,
//! before and after the rotation.

use vstd::prelude::*;
use crate::bezier::{
    blend, cubic_basis, cubic_weights, grid_row, ints, is_partition, lemma_blend_single,
    lemma_cubic_weights_partition, lemma_patch_sum_within, lemma_quadratic_weights_partition,
    lemma_weights_at_ends, patch_sum, patch_sum_of, quadratic_basis, quadratic_weights,
};
use crate::control_points::ControlPoints;
use crate::fixed::{
    COORD_MAX, ONE, VEC_MAX, floor_div, fmul, fmul_spec, lemma_div_exact, lemma_div_monotone,
    lemma_mul_within, within,
};
use crate::vector::{
    UNIT_MAX, Mat3, Matrix, Vec3, Vector, lemma_apply_bounded, lemma_identity_apply,
    lemma_normalized_bounded,
};

verus! {

/// Largest magnitude of a coordinate of a point that is rotated or mapped to
/// the screen. It is set by 64 bits: a rotation moves a point three times as
/// far at most, and a pixel, a million times enlarged, is added to the centre
/// of the screen.
pub const POSITION_MAX: i64 = 1_000_000_000_000;

/// Position, the two tangents and the normal, as mathematical vectors: what a
/// [`PData`] stands for.
pub struct PointData {
    pub p: Vector,
    pub pu: Vector,
    pub pv: Vector,
    pub n: Vector,
}

impl PointData {
    /// The position is bounded by `bp`, the three directions by `bd`.
    pub open spec fn bounded(self, bp: int, bd: int) -> bool {
        self.p.bounded(bp) && self.pu.bounded(bd) && self.pv.bounded(bd) && self.n.bounded(bd)
    }

    /// Every component of every vector fits an `i64`.
    pub open spec fn fits(self) -> bool {
        self.p.fits() && self.pu.fits() && self.pv.fits() && self.n.fits()
    }

    pub open spec fn zero() -> PointData {
        PointData { p: Vector::zero(), pu: Vector::zero(), pv: Vector::zero(), n: Vector::zero() }
    }

    /// The sum, vector by vector.
    pub open spec fn plus(self, o: PointData) -> PointData {
        PointData {
            p: self.p.plus(o.p),
            pu: self.pu.plus(o.pu),
            pv: self.pv.plus(o.pv),
            n: self.n.plus(o.n),
        }
    }

    /// Every vector multiplied by the fixed-point number `k`.
    pub open spec fn scaled(self, k: int) -> PointData {
        PointData {
            p: self.p.scaled(k),
            pu: self.pu.scaled(k),
            pv: self.pv.scaled(k),
            n: self.n.scaled(k),
        }
    }

    /// Each of the tangents and the normal has length one, or is zero.
    pub open spec fn has_unit_directions(self) -> bool {
        &&& self.pu == Vector::zero() || self.pu.is_unit()
        &&& self.pv == Vector::zero() || self.pv.is_unit()
        &&& self.n == Vector::zero() || self.n.is_unit()
    }

    /// The tangents and the normal brought to length one; the position stays.
    pub open spec fn normalized(self) -> PointData {
        PointData {
            p: self.p,
            pu: self.pu.normalized(),
            pv: self.pv.normalized(),
            n: self.n.normalized(),
        }
    }

    /// The matrix applied to all four vectors, the tangents and the normal
    /// brought to length one afterwards.
    pub open spec fn rotated(self, m: Matrix) -> PointData {
        PointData {
            p: m.apply(self.p),
            pu: m.apply(self.pu).normalized(),
            pv: m.apply(self.pv).normalized(),
            n: m.apply(self.n).normalized(),
        }
    }
}

/// Position, tangent along `u`, tangent along `v` and normal of a point.
#[derive(Clone, Copy, Debug, PartialEq, Eq, Structural)]
pub struct PData {
    /// Point
    pub p: Vec3,
    /// Tangent vector u
    pub pu: Vec3,
    /// Tangent vector v
    pub pv: Vec3,
    /// Normal vector
    pub n: Vec3,
}

impl View for PData {
    type V = PointData;

    open spec fn view(&self) -> PointData {
        PointData { p: self.p@, pu: self.pu@, pv: self.pv@, n: self.n@ }
    }
}

impl PData {
    pub fn new(p: Vec3, pu: Vec3, pv: Vec3, n: Vec3) -> (r: PData)
        ensures
            r == (PData { p, pu, pv, n }),
    {
        PData { p, pu, pv, n }
    }

    /// All four vectors zero.
    pub fn zero() -> (r: PData)
        ensures
            r@ == PointData::zero(),
            r == (PData { p: Vec3 { x: 0, y: 0, z: 0 }, pu: Vec3 { x: 0, y: 0, z: 0 }, pv: Vec3 { x: 0, y: 0, z: 0 }, n: Vec3 { x: 0, y: 0, z: 0 } }),
    {
        PData { p: Vec3::zero(), pu: Vec3::zero(), pv: Vec3::zero(), n: Vec3::zero() }
    }

    pub fn p(&self) -> (r: Vec3)
        ensures
            r == self.p,
    {
        self.p
    }

    pub fn pu(&self) -> (r: Vec3)
        ensures
            r == self.pu,
    {
        self.pu
    }

    pub fn pv(&self) -> (r: Vec3)
        ensures
            r == self.pv,
    {
        self.pv
    }

    pub fn n(&self) -> (r: Vec3)
        ensures
            r == self.n,
    {
        self.n
    }

    /// Brings the tangents and the normal to length one.
    pub fn normalize_all(&mut self)
        requires
            old(self)@.bounded(i64::MAX as int, VEC_MAX as int),
        ensures
            final(self)@ == old(self)@.normalized(),
            final(self)@.bounded(i64::MAX as int, UNIT_MAX as int),
    {
        self.pu = self.pu.normalize();
        self.pv = self.pv.normalize();
        self.n = self.n.normalize();
    }

    /// Adds `rhs`, vector by vector.
    pub fn add_assign(&mut self, rhs: PData)
        requires
            old(self)@.plus(rhs@).fits(),
        ensures
            final(self)@ == old(self)@.plus(rhs@),
    {
        self.p = self.p.plus(rhs.p);
        self.pu = self.pu.plus(rhs.pu);
        self.pv = self.pv.plus(rhs.pv);
        self.n = self.n.plus(rhs.n);
    }

    /// Every vector multiplied by the fixed-point number `rhs`.
    pub fn mul(self, rhs: i64) -> (r: PData)
        requires
            self@.scaled(rhs as int).fits(),
        ensures
            r@ == self@.scaled(rhs as int),
    {
        PData {
            p: self.p.scaled(rhs),
            pu: self.pu.scaled(rhs),
            pv: self.pv.scaled(rhs),
            n: self.n.scaled(rhs),
        }
    }
}

/// Component `c` of a vector: 0 for `x`, 1 for `y`, anything else for `z`.
pub open spec fn component(v: Vector, c: int) -> int {
    if c == 0 {
        v.x
    } else if c == 1 {
        v.y
    } else {
        v.z
    }
}

/// Component `c` of the sixteen control points.
pub open spec fn grid_values(grid: Seq<Vector>, c: int) -> Seq<int> {
    Seq::new(16, |k: int| component(grid[k], c))
}

/// Component `c` of the differences between each control point of the first
/// three rows and the point below it: three rows of four.
pub open spec fn row_differences(grid: Seq<Vector>, c: int) -> Seq<int> {
    Seq::new(12, |k: int| component(grid[k + 4], c) - component(grid[k], c))
}

/// Component `c` of the differences between each control point of the first
/// three columns and the point to its right: four rows of three.
pub open spec fn column_differences(grid: Seq<Vector>, c: int) -> Seq<int> {
    Seq::new(
        12,
        |k: int| component(grid[(k / 3) * 4 + k % 3 + 1], c) - component(grid[(k / 3) * 4 + k % 3], c),
    )
}

/// `factor` times the weighted sum of a grid of values, as a fixed-point
/// number.
pub open spec fn weighted(vals: Seq<int>, wu: Seq<int>, wv: Seq<int>, factor: int) -> int {
    (factor * patch_sum(vals, wu, wv)) / (ONE * ONE)
}

/// The point of the patch at the parameters `u` and `v`: the control points
/// weighted by the cubic Bernstein polynomials.
pub open spec fn surface_position(grid: Seq<Vector>, u: int, v: int) -> Vector {
    Vector {
        x: weighted(grid_values(grid, 0), cubic_weights(u), cubic_weights(v), 1),
        y: weighted(grid_values(grid, 1), cubic_weights(u), cubic_weights(v), 1),
        z: weighted(grid_values(grid, 2), cubic_weights(u), cubic_weights(v), 1),
    }
}

/// The derivative of the patch along `u`, before it is brought to length
/// one: three times the row differences weighted by the quadratic basis in
/// `u` and the cubic basis in `v`.
pub open spec fn surface_derivative_u(grid: Seq<Vector>, u: int, v: int) -> Vector {
    Vector {
        x: weighted(row_differences(grid, 0), quadratic_weights(u), cubic_weights(v), 3),
        y: weighted(row_differences(grid, 1), quadratic_weights(u), cubic_weights(v), 3),
        z: weighted(row_differences(grid, 2), quadratic_weights(u), cubic_weights(v), 3),
    }
}

/// The derivative of the patch along `v`, before it is brought to length
/// one.
pub open spec fn surface_derivative_v(grid: Seq<Vector>, u: int, v: int) -> Vector {
    Vector {
        x: weighted(column_differences(grid, 0), cubic_weights(u), quadratic_weights(v), 3),
        y: weighted(column_differences(grid, 1), cubic_weights(u), quadratic_weights(v), 3),
        z: weighted(column_differences(grid, 2), cubic_weights(u), quadratic_weights(v), 3),
    }
}

/// Position, unit tangents and unit normal of the patch at `u` and `v`.
pub open spec fn surface_point(grid: Seq<Vector>, u: int, v: int) -> PointData {
    let pu = surface_derivative_u(grid, u, v).normalized();
    let pv = surface_derivative_v(grid, u, v).normalized();
    PointData { p: surface_position(grid, u, v), pu, pv, n: pu.cross(pv).normalized() }
}

/// A weighted sum of bounded values is bounded by the factor times the bound.
pub proof fn lemma_weighted_within(vals: Seq<int>, wu: Seq<int>, wv: Seq<int>, factor: int, bound: int)
    requires
        is_partition(wu),
        is_partition(wv),
        bound >= 0,
        factor >= 0,
        forall|k: int| 0 <= k < wu.len() * wv.len() ==> within(#[trigger] vals[k], bound),
    ensures
        within(weighted(vals, wu, wv, factor), factor * bound),
{
    lemma_patch_sum_within(vals, wu, wv, bound);
    let s = patch_sum(vals, wu, wv);
    let d = ONE * ONE;
    let t = factor * bound;
    assert(within(factor * s, t * d)) by (nonlinear_arith)
        requires
            within(s, bound * ONE * ONE),
            factor >= 0,
            t == factor * bound,
            d == ONE * ONE,
    ;
    lemma_div_monotone(factor * s, t * d, d);
    lemma_div_monotone(-t * d, factor * s, d);
    lemma_div_exact(t, d);
    lemma_div_exact(-t, d);
}

/// At the four corners of the parameter square the patch passes through the
/// corner control points.
pub proof fn lemma_corner_interpolation(grid: Seq<Vector>, u: int, v: int)
    requires
        grid.len() == 16,
        u == 0 || u == ONE,
        v == 0 || v == ONE,
    ensures
        surface_position(grid, u, v) == grid[(if u == 0 { 0int } else { 3int }) * 4 + (if v == 0 {
            0int
        } else {
            3int
        })],
{
    let i = if u == 0 { 0int } else { 3int };
    let j = if v == 0 { 0int } else { 3int };
    lemma_corner_component(grid, u, v, i, j, 0);
    lemma_corner_component(grid, u, v, i, j, 1);
    lemma_corner_component(grid, u, v, i, j, 2);
}

proof fn lemma_corner_component(grid: Seq<Vector>, u: int, v: int, i: int, j: int, c: int)
    requires
        grid.len() == 16,
        u == 0 || u == ONE,
        v == 0 || v == ONE,
        i == (if u == 0 { 0int } else { 3int }),
        j == (if v == 0 { 0int } else { 3int }),
    ensures
        weighted(grid_values(grid, c), cubic_weights(u), cubic_weights(v), 1) == component(
            grid[i * 4 + j],
            c,
        ),
{
    lemma_weights_at_ends();
    let vals = grid_values(grid, c);
    let wu = cubic_weights(u);
    let wv = cubic_weights(v);
    let rows = Seq::new(wu.len(), |r: int| blend(grid_row(vals, r, wv.len() as int), wv));
    lemma_blend_single(rows, wu, i);
    lemma_blend_single(grid_row(vals, i, 4), wv, j);
    let a = vals[i * 4 + j];
    assert(rows[i] == a * ONE);
    assert(patch_sum(vals, wu, wv) == a * ONE * ONE);
    assert(1 * (a * ONE * ONE) == a * (ONE * ONE)) by (nonlinear_arith);
    lemma_div_exact(a, ONE * ONE);
}

/// A point of the surface with its parameters, as it was computed and as it
/// lies after the rotation: what a [`Point`] stands for.
pub struct SurfacePoint {
    pub before: PointData,
    pub after: PointData,
    pub u: int,
    pub v: int,
}

impl SurfacePoint {
    /// The sum, field by field.
    pub open spec fn plus(self, o: SurfacePoint) -> SurfacePoint {
        SurfacePoint {
            before: self.before.plus(o.before),
            after: self.after.plus(o.after),
            u: self.u + o.u,
            v: self.v + o.v,
        }
    }

    /// Every field multiplied by the fixed-point number `k`.
    pub open spec fn scaled(self, k: int) -> SurfacePoint {
        SurfacePoint {
            before: self.before.scaled(k),
            after: self.after.scaled(k),
            u: fmul_spec(self.u, k),
            v: fmul_spec(self.v, k),
        }
    }

    /// Every number fits an `i64`.
    pub open spec fn fits(self) -> bool {
        self.before.fits() && self.after.fits() && i64::MIN <= self.u <= i64::MAX && i64::MIN
            <= self.v <= i64::MAX
    }

    /// The tangents and normals brought to length one.
    pub open spec fn normalized(self) -> SurfacePoint {
        SurfacePoint {
            before: self.before.normalized(),
            after: self.after.normalized(),
            u: self.u,
            v: self.v,
        }
    }

    /// Positions bounded by `bp`, directions by `bd`, parameters by `bt`.
    pub open spec fn bounded(self, bp: int, bd: int, bt: int) -> bool {
        self.before.bounded(bp, bd) && self.after.bounded(bp, bd) && within(self.u, bt) && within(
            self.v,
            bt,
        )
    }
}

/// A sample of the surface: its data before the rotation, its data after it,
/// and the parameters it was taken at.
#[derive(Clone, Copy, Debug, PartialEq, Eq, Structural)]
pub struct Point {
    pub before_rotation: PData,
    pub after_rotation: PData,
    pub u: i64,
    pub v: i64,
}

impl View for Point {
    type V = SurfacePoint;

    open spec fn view(&self) -> SurfacePoint {
        SurfacePoint {
            before: self.before_rotation@,
            after: self.after_rotation@,
            u: self.u as int,
            v: self.v as int,
        }
    }
}

/// Component `c` of a vector.
fn component_of(v: Vec3, c: u8) -> (r: i64)
    ensures
        r == component(v@, c as int),
{
    if c == 0 {
        v.x
    } else if c == 1 {
        v.y
    } else {
        v.z
    }
}

/// `factor` times the weighted sum of a grid of values, as a fixed-point
/// number.
fn weighted_of(vals: &Vec<i64>, wu: &Vec<i64>, wv: &Vec<i64>, factor: i64, Ghost(bound): Ghost<int>) -> (r: i64)
    requires
        wu@.len() <= 4,
        wv@.len() <= 4,
        vals@.len() == wu@.len() * wv@.len(),
        is_partition(ints(wu@)),
        is_partition(ints(wv@)),
        forall|k: int| 0 <= k < wu@.len() ==> 0 <= #[trigger] wu@[k] <= ONE,
        forall|k: int| 0 <= k < wv@.len() ==> 0 <= #[trigger] wv@[k] <= ONE,
        0 <= bound <= 2 * COORD_MAX,
        forall|k: int| 0 <= k < vals@.len() ==> within(#[trigger] vals@[k] as int, bound),
        1 <= factor <= 3,
    ensures
        r == weighted(ints(vals@), ints(wu@), ints(wv@), factor as int),
        within(r as int, factor * bound),
{
    proof {
        assert forall|k: int| 0 <= k < wu@.len() * wv@.len() implies within(
            #[trigger] ints(vals@)[k],
            bound,
        ) by {
            assert(within(vals@[k] as int, bound));
        }
        lemma_weighted_within(ints(vals@), ints(wu@), ints(wv@), factor as int, bound);
        lemma_patch_sum_within(ints(vals@), ints(wu@), ints(wv@), bound);
        let s = patch_sum(ints(vals@), ints(wu@), ints(wv@));
        assert(bound * ONE * ONE <= 2 * COORD_MAX * ONE * ONE) by (nonlinear_arith)
            requires
                0 <= bound <= 2 * COORD_MAX,
        ;
        assert(2 * COORD_MAX * ONE * ONE == 20_000_000_000_000_000_000_000);
        assert(within(factor * s, 60_000_000_000_000_000_000_000)) by (nonlinear_arith)
            requires
                within(s, 20_000_000_000_000_000_000_000),
                1 <= factor <= 3,
        ;
        assert(within(factor * bound, 6 * COORD_MAX)) by (nonlinear_arith)
            requires
                0 <= bound <= 2 * COORD_MAX,
                1 <= factor <= 3,
        ;
    }
    let s: i128 = patch_sum_of(vals, wu, wv);
    let d: i128 = (ONE as i128) * (ONE as i128);
    let q: i128 = floor_div((factor as i128) * s, d);
    q as i64
}

/// Component `c` of the sixteen control points.
fn grid_values_of(cp: &ControlPoints, c: u8) -> (r: Vec<i64>)
    requires
        cp.wf(),
    ensures
        ints(r@) == grid_values(cp@, c as int),
        r@.len() == 16,
        forall|k: int| 0 <= k < 16 ==> within(#[trigger] r@[k] as int, COORD_MAX as int),
{
    let mut r: Vec<i64> = Vec::new();
    let mut k: usize = 0;
    while k < 16
        invariant
            cp.wf(),
            k <= 16,
            r@.len() == k,
            forall|t: int| 0 <= t < k ==> #[trigger] r@[t] == component(cp@[t], c as int),
            forall|t: int| 0 <= t < k ==> within(#[trigger] r@[t] as int, COORD_MAX as int),
        decreases 16 - k,
    {
        let v: Vec3 = cp.get(k);
        r.push(component_of(v, c));
        k = k + 1;
    }
    assert(ints(r@) =~= grid_values(cp@, c as int));
    r
}

/// Component `c` of the differences between the rows of the control grid.
fn row_differences_of(cp: &ControlPoints, c: u8) -> (r: Vec<i64>)
    requires
        cp.wf(),
    ensures
        ints(r@) == row_differences(cp@, c as int),
        r@.len() == 12,
        forall|k: int| 0 <= k < 12 ==> within(#[trigger] r@[k] as int, 2 * COORD_MAX),
{
    let mut r: Vec<i64> = Vec::new();
    let mut k: usize = 0;
    while k < 12
        invariant
            cp.wf(),
            k <= 12,
            r@.len() == k,
            forall|t: int| 0 <= t < k ==> #[trigger] r@[t] == component(cp@[t + 4], c as int) - component(cp@[t], c as int),
            forall|t: int| 0 <= t < k ==> within(#[trigger] r@[t] as int, 2 * COORD_MAX),
        decreases 12 - k,
    {
        let a: Vec3 = cp.get(k);
        let b: Vec3 = cp.get(k + 4);
        r.push(component_of(b, c) - component_of(a, c));
        k = k + 1;
    }
    assert(ints(r@) =~= row_differences(cp@, c as int));
    r
}

/// Component `c` of the differences between the columns of the control grid.
fn column_differences_of(cp: &ControlPoints, c: u8) -> (r: Vec<i64>)
    requires
        cp.wf(),
    ensures
        ints(r@) == column_differences(cp@, c as int),
        r@.len() == 12,
        forall|k: int| 0 <= k < 12 ==> within(#[trigger] r@[k] as int, 2 * COORD_MAX),
{
    let mut r: Vec<i64> = Vec::new();
    let mut k: usize = 0;
    while k < 12
        invariant
            cp.wf(),
            k <= 12,
            r@.len() == k,
            forall|t: int| 0 <= t < k ==> #[trigger] r@[t] == component(cp@[(t / 3) * 4 + t % 3 + 1], c as int) - component(
                cp@[(t / 3) * 4 + t % 3],
                c as int,
            ),
            forall|t: int| 0 <= t < k ==> within(#[trigger] r@[t] as int, 2 * COORD_MAX),
        decreases 12 - k,
    {
        let at: usize = (k / 3) * 4 + k % 3;
        let a: Vec3 = cp.get(at);
        let b: Vec3 = cp.get(at + 1);
        r.push(component_of(b, c) - component_of(a, c));
        k = k + 1;
    }
    assert(ints(r@) =~= column_differences(cp@, c as int));
    r
}

/// A vector bounded by `b`, multiplied by a number of at most `kb`, is
/// bounded by `b * kb`.
pub proof fn lemma_scaled_bounded(v: Vector, k: int, b: int, kb: int)
    requires
        v.bounded(b),
        within(k, kb * ONE),
        b >= 0,
        kb >= 0,
    ensures
        v.scaled(k).bounded(b * kb),
{
    lemma_fmul_within(v.x, k, b, kb);
    lemma_fmul_within(v.y, k, b, kb);
    lemma_fmul_within(v.z, k, b, kb);
}

/// A number bounded by `b`, multiplied by a number of at most `kb`, is
/// bounded by `b * kb`.
pub proof fn lemma_fmul_within(a: int, k: int, b: int, kb: int)
    requires
        within(a, b),
        within(k, kb * ONE),
        b >= 0,
        kb >= 0,
    ensures
        within(fmul_spec(a, k), b * kb),
{
    lemma_mul_within(a, k, b, kb * ONE);
    assert(b * (kb * ONE) == (b * kb) * ONE) by (nonlinear_arith);
    lemma_div_monotone(a * k, (b * kb) * ONE, ONE as int);
    lemma_div_monotone(-(b * kb) * ONE, a * k, ONE as int);
    lemma_div_exact(b * kb, ONE as int);
    lemma_div_exact(-(b * kb), ONE as int);
}

/// The data of a point of the patch lies within the control points, and its
/// directions are no longer than one.
pub proof fn lemma_surface_point_bounded(grid: Seq<Vector>, u: int, v: int)
    requires
        grid.len() == 16,
        forall|k: int| 0 <= k < 16 ==> (#[trigger] grid[k]).bounded(COORD_MAX as int),
        0 <= u <= ONE,
        0 <= v <= ONE,
    ensures
        surface_point(grid, u, v).bounded(COORD_MAX as int, UNIT_MAX as int),
        surface_derivative_u(grid, u, v).bounded(6 * COORD_MAX),
        surface_derivative_v(grid, u, v).bounded(6 * COORD_MAX),
{
    lemma_cubic_weights_partition(u);
    lemma_cubic_weights_partition(v);
    lemma_quadratic_weights_partition(u);
    lemma_quadratic_weights_partition(v);
    let c3u = cubic_weights(u);
    let c3v = cubic_weights(v);
    let c2u = quadratic_weights(u);
    let c2v = quadratic_weights(v);
    assert forall|c: int, k: int| 0 <= k < 16 implies within(
        #[trigger] grid_values(grid, c)[k],
        COORD_MAX as int,
    ) by {
        assert(grid[k].bounded(COORD_MAX as int));
    }
    assert forall|c: int, k: int| 0 <= k < 12 implies within(
        #[trigger] row_differences(grid, c)[k],
        2 * COORD_MAX,
    ) by {
        assert(grid[k].bounded(COORD_MAX as int));
        assert(grid[k + 4].bounded(COORD_MAX as int));
    }
    assert forall|c: int, k: int| 0 <= k < 12 implies within(
        #[trigger] column_differences(grid, c)[k],
        2 * COORD_MAX,
    ) by {
        let at = (k / 3) * 4 + k % 3;
        assert(0 <= at < 15);
        assert(grid[at].bounded(COORD_MAX as int));
        assert(grid[at + 1].bounded(COORD_MAX as int));
    }
    lemma_weighted_within(grid_values(grid, 0), c3u, c3v, 1, COORD_MAX as int);
    lemma_weighted_within(grid_values(grid, 1), c3u, c3v, 1, COORD_MAX as int);
    lemma_weighted_within(grid_values(grid, 2), c3u, c3v, 1, COORD_MAX as int);
    lemma_weighted_within(row_differences(grid, 0), c2u, c3v, 3, 2 * COORD_MAX);
    lemma_weighted_within(row_differences(grid, 1), c2u, c3v, 3, 2 * COORD_MAX);
    lemma_weighted_within(row_differences(grid, 2), c2u, c3v, 3, 2 * COORD_MAX);
    lemma_weighted_within(column_differences(grid, 0), c3u, c2v, 3, 2 * COORD_MAX);
    lemma_weighted_within(column_differences(grid, 1), c3u, c2v, 3, 2 * COORD_MAX);
    lemma_weighted_within(column_differences(grid, 2), c3u, c2v, 3, 2 * COORD_MAX);
    let pu = surface_derivative_u(grid, u, v).normalized();
    let pv = surface_derivative_v(grid, u, v).normalized();
    lemma_normalized_bounded(surface_derivative_u(grid, u, v));
    lemma_normalized_bounded(surface_derivative_v(grid, u, v));
    lemma_normalized_bounded(pu.cross(pv));
}

impl Point {
    /// The point whose numbers are all zero.
    pub open spec fn zero_spec() -> Point {
        let z = Vec3 { x: 0, y: 0, z: 0 };
        let d = PData { p: z, pu: z, pv: z, n: z };
        Point { before_rotation: d, after_rotation: d, u: 0, v: 0 }
    }

    /// The point whose numbers are all zero.
    pub fn zero() -> (r: Point)
        ensures
            r == Point::zero_spec(),
    {
        Point { before_rotation: PData::zero(), after_rotation: PData::zero(), u: 0, v: 0 }
    }

    /// Evaluates the patch at the parameters `u` and `v`, both between zero
    /// and one. The point is not rotated yet: its data after the rotation is
    /// the data before it.
    pub fn from_control_points(u: i64, v: i64, control_points: &ControlPoints) -> (r: Point)
        requires
            control_points.wf(),
            0 <= u <= ONE,
            0 <= v <= ONE,
        ensures
            r@.before == surface_point(control_points@, u as int, v as int),
            r@.after == r@.before,
            r.u == u,
            r.v == v,
            r@.before.bounded(COORD_MAX as int, UNIT_MAX as int),
            r@.before.has_unit_directions(),
    {
        proof {
            let grid = control_points@;
            let d = surface_point(grid, u as int, v as int);
            crate::vector::lemma_normalized_is_unit(surface_derivative_u(grid, u as int, v as int));
            crate::vector::lemma_normalized_is_unit(surface_derivative_v(grid, u as int, v as int));
            crate::vector::lemma_normalized_is_unit(d.pu.cross(d.pv));
            lemma_surface_point_bounded(control_points@, u as int, v as int);
            lemma_cubic_weights_partition(u as int);
            lemma_cubic_weights_partition(v as int);
            lemma_quadratic_weights_partition(u as int);
            lemma_quadratic_weights_partition(v as int);
        }
        let c3u: Vec<i64> = cubic_basis(u);
        let c3v: Vec<i64> = cubic_basis(v);
        let c2u: Vec<i64> = quadratic_basis(u);
        let c2v: Vec<i64> = quadratic_basis(v);

        let p = Vec3 {
            x: weighted_of(&grid_values_of(control_points, 0), &c3u, &c3v, 1, Ghost(COORD_MAX as int)),
            y: weighted_of(&grid_values_of(control_points, 1), &c3u, &c3v, 1, Ghost(COORD_MAX as int)),
            z: weighted_of(&grid_values_of(control_points, 2), &c3u, &c3v, 1, Ghost(COORD_MAX as int)),
        };
        let du = Vec3 {
            x: weighted_of(&row_differences_of(control_points, 0), &c2u, &c3v, 3, Ghost(2 * COORD_MAX)),
            y: weighted_of(&row_differences_of(control_points, 1), &c2u, &c3v, 3, Ghost(2 * COORD_MAX)),
            z: weighted_of(&row_differences_of(control_points, 2), &c2u, &c3v, 3, Ghost(2 * COORD_MAX)),
        };
        let dv = Vec3 {
            x: weighted_of(&column_differences_of(control_points, 0), &c3u, &c2v, 3, Ghost(2 * COORD_MAX)),
            y: weighted_of(&column_differences_of(control_points, 1), &c3u, &c2v, 3, Ghost(2 * COORD_MAX)),
            z: weighted_of(&column_differences_of(control_points, 2), &c3u, &c2v, 3, Ghost(2 * COORD_MAX)),
        };
        let pu = du.normalize();
        let pv = dv.normalize();
        proof {
            lemma_cross_within(pu@, pv@, UNIT_MAX as int, 2);
        }
        let n = pu.cross(pv).normalize();
        let before_rotation = PData::new(p, pu, pv, n);
        Point { before_rotation, after_rotation: before_rotation, u, v }
    }

    pub fn before_rotation(&self) -> (r: &PData)
        ensures
            *r == self.before_rotation,
    {
        &self.before_rotation
    }

    pub fn after_rotation(&self) -> (r: &PData)
        ensures
            *r == self.after_rotation,
    {
        &self.after_rotation
    }

    pub fn u(&self) -> (r: i64)
        ensures
            r == self.u,
    {
        self.u
    }

    pub fn v(&self) -> (r: i64)
        ensures
            r == self.v,
    {
        self.v
    }

    /// Rotates the data of the point as it was computed, and keeps the result
    /// beside it. The tangents and the normal are brought back to length one.
    pub fn apply_rotation(&mut self, rotation: &Mat3)
        requires
            rotation@.bounded(ONE as int),
            old(self)@.before.bounded(POSITION_MAX as int, UNIT_MAX as int),
        ensures
            final(self)@.after == old(self)@.before.rotated(rotation@),
            final(self)@.before == old(self)@.before,
            final(self).u == old(self).u,
            final(self).v == old(self).v,
            final(self)@.after.bounded(3 * POSITION_MAX, UNIT_MAX as int),
            rotation@ == Matrix::identity() && old(self)@.before.has_unit_directions() ==> final(self)@.after == old(
                self,
            )@.before,
    {
        proof {
            if rotation@ == Matrix::identity() && self@.before.has_unit_directions() {
                lemma_identity_rotation(self@.before);
            }
            lemma_apply_bounded(rotation@, self@.before.p, POSITION_MAX as int);
            lemma_apply_bounded(rotation@, self@.before.pu, UNIT_MAX as int);
            lemma_apply_bounded(rotation@, self@.before.pv, UNIT_MAX as int);
            lemma_apply_bounded(rotation@, self@.before.n, UNIT_MAX as int);
        }
        let p: Vec3 = rotation.apply(self.before_rotation.p);
        let pu: Vec3 = rotation.apply(self.before_rotation.pu);
        let pv: Vec3 = rotation.apply(self.before_rotation.pv);
        let n: Vec3 = rotation.apply(self.before_rotation.n);
        self.after_rotation = PData::new(p, pu, pv, n);
        self.after_rotation.normalize_all();
    }

    /// Brings the tangents and normals to length one, before and after the
    /// rotation.
    pub fn normalize_all(&mut self)
        requires
            old(self)@.before.bounded(i64::MAX as int, VEC_MAX as int),
            old(self)@.after.bounded(i64::MAX as int, VEC_MAX as int),
        ensures
            final(self)@ == old(self)@.normalized(),
            final(self)@.before.bounded(i64::MAX as int, UNIT_MAX as int),
            final(self)@.after.bounded(i64::MAX as int, UNIT_MAX as int),
    {
        self.before_rotation.normalize_all();
        self.after_rotation.normalize_all();
    }

    /// Every number of the point multiplied by the fixed-point number `rhs`.
    pub fn mul(self, rhs: i64) -> (r: Point)
        requires
            self@.scaled(rhs as int).fits(),
        ensures
            r@ == self@.scaled(rhs as int),
    {
        Point {
            after_rotation: self.after_rotation.mul(rhs),
            before_rotation: self.before_rotation.mul(rhs),
            u: fmul(self.u, rhs),
            v: fmul(self.v, rhs),
        }
    }

    /// Adds `rhs`, number by number.
    pub fn add_assign(&mut self, rhs: Point)
        requires
            old(self)@.plus(rhs@).fits(),
        ensures
            final(self)@ == old(self)@.plus(rhs@),
    {
        self.after_rotation.add_assign(rhs.after_rotation);
        self.before_rotation.add_assign(rhs.before_rotation);
        self.u = self.u + rhs.u;
        self.v = self.v + rhs.v;
    }
}

/// The cross product of vectors bounded by `ba` and by `bb * ONE` is bounded
/// by `2 * ba * bb`.
pub proof fn lemma_cross_within(a: Vector, b: Vector, ba: int, bb: int)
    requires
        a.bounded(ba),
        b.bounded(bb * ONE),
    ensures
        a.cross(b).bounded(2 * (ba * bb)),
{
    lemma_mul_within(a.y, b.z, ba, bb * ONE);
    lemma_mul_within(a.z, b.y, ba, bb * ONE);
    lemma_mul_within(a.z, b.x, ba, bb * ONE);
    lemma_mul_within(a.x, b.z, ba, bb * ONE);
    lemma_mul_within(a.x, b.y, ba, bb * ONE);
    lemma_mul_within(a.y, b.x, ba, bb * ONE);
    let t = 2 * (ba * bb);
    assert(2 * (ba * (bb * ONE)) == t * ONE) by (nonlinear_arith)
        requires
            t == 2 * (ba * bb),
    ;
    lemma_div_exact(t, ONE as int);
    lemma_div_exact(-t, ONE as int);
    lemma_div_monotone(a.y * b.z - a.z * b.y, t * ONE, ONE as int);
    lemma_div_monotone(-t * ONE, a.y * b.z - a.z * b.y, ONE as int);
    lemma_div_monotone(a.z * b.x - a.x * b.z, t * ONE, ONE as int);
    lemma_div_monotone(-t * ONE, a.z * b.x - a.x * b.z, ONE as int);
    lemma_div_monotone(a.x * b.y - a.y * b.x, t * ONE, ONE as int);
    lemma_div_monotone(-t * ONE, a.x * b.y - a.y * b.x, ONE as int);
}

/// Rotating by the identity matrix moves no point, and leaves every direction
/// that has length one as it is.
pub proof fn lemma_identity_rotation(d: PointData)
    requires
        d.has_unit_directions(),
    ensures
        d.rotated(Matrix::identity()) == d,
{
    lemma_identity_apply(d.p);
    lemma_identity_apply(d.pu);
    lemma_identity_apply(d.pv);
    lemma_identity_apply(d.n);
}

/// With both angles zero, the rotated data of every point of the patch is
/// the data as it was computed.
pub proof fn lemma_zero_angles_keep_surface_point(grid: Seq<Vector>, u: int, v: int)
    ensures
        surface_point(grid, u, v).rotated(crate::rotations::surface_rotation(0, ONE as int, 0, ONE as int))
            == surface_point(grid, u, v),
{
    crate::rotations::lemma_zero_angles();
    let d = surface_point(grid, u, v);
    crate::vector::lemma_normalized_is_unit(surface_derivative_u(grid, u, v));
    crate::vector::lemma_normalized_is_unit(surface_derivative_v(grid, u, v));
    crate::vector::lemma_normalized_is_unit(d.pu.cross(d.pv));
    lemma_identity_rotation(d);
}

} // verus!
