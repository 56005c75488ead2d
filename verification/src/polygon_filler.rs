//! Filling a triangle of the mesh: the pixels it covers, and the colour of each
//! from the surface data weighed by the barycentric coordinates of the pixel.

use vstd::prelude::*;
use crate::active_edge_table::{PixelPos, positions};
use crate::color::{Rgba, channel_to_level};
use crate::colors_manager::ColorsManager;
use crate::fixed::{
    COORD_MAX, ONE, VEC_MAX, clamp_spec, floor_div, fmul_spec, lemma_div_within, lemma_mul_within,
    within,
};
use crate::light_source::LightSource;
use crate::mesh::{Points2DArr, PosIn2DArr};
use crate::point::{PData, Point, PointData, SurfacePoint};
use crate::scan::{
    PIXEL_MAX, all_bounded, covered_pixels, index_seq, scan_polygon, sorted_vertex_indices, vectors,
    vertex_order,
};
use crate::shader::{light_direction, shade, shade_channel, shade_channel_of};
use crate::vector::{UNIT_MAX, Vec3, Vector};

verus! {

/// Largest magnitude of a barycentric weight: a million million. A weight
/// beyond it is limited to it. It is set by the products of a weight and a
/// coordinate of a corner, which are added up in 128 bits.
pub const WEIGHT_MAX: i64 = 1_000_000_000_000_000_000;

/// Largest magnitude of a coordinate or a parameter of a weighted point. A
/// point beyond it is limited to it. It is set by the lighting: the way from
/// the point to a light within `COORD_MAX` has to be no longer than
/// `VEC_MAX`, the longest vector that is brought to length one.
pub const CARRY_MAX: i64 = 990_000_000_000;

/// Largest magnitude of a coordinate, a component of a direction or a
/// parameter of a corner that is weighted: three times `COORD_MAX`, which is
/// as far as a rotation moves a point of the patch.
pub const CORNER_MAX: i64 = 30_000_000_000;

/// The cross product of two vectors of the plane: twice the signed area of
/// the triangle they span.
pub open spec fn plane_cross(ax: int, ay: int, bx: int, by: int) -> int {
    ax * by - ay * bx
}

/// The fixed-point quotient of `num` and `den`, rounded down.
pub open spec fn ratio(num: int, den: int) -> int {
    if den > 0 {
        (num * ONE) / den
    } else {
        ((-num) * ONE) / (-den)
    }
}

/// Twice the signed area of the triangle in the plane of the screen.
pub open spec fn triangle_area(pa: Vector, pb: Vector, pc: Vector) -> int {
    plane_cross(pb.x - pa.x, pb.y - pa.y, pc.x - pa.x, pc.y - pa.y)
}

/// The barycentric weights of the point `(x, y)` of the screen in the
/// triangle `pa`, `pb`, `pc`: the solution `(v, w)` of
/// `(x, y) - pa == v * (pb - pa) + w * (pc - pa)`, and `1 - v - w` in front
/// of them. A triangle without area has none.
pub open spec fn barycentric(pa: Vector, pb: Vector, pc: Vector, x: int, y: int) -> Option<(int, int, int)> {
    let den = triangle_area(pa, pb, pc);
    if den == 0 {
        None
    } else {
        let v = ratio(plane_cross(x - pa.x, y - pa.y, pc.x - pa.x, pc.y - pa.y), den);
        let w = ratio(plane_cross(pb.x - pa.x, pb.y - pa.y, x - pa.x, y - pa.y), den);
        Some((ONE - v - w, v, w))
    }
}

/// None of the three weights is larger than `WEIGHT_MAX`.
pub open spec fn weights_fit(w: (int, int, int)) -> bool {
    within(w.0, WEIGHT_MAX as int) && within(w.1, WEIGHT_MAX as int) && within(w.2, WEIGHT_MAX as int)
}

/// A number limited to the magnitude `b`.
pub open spec fn limited(a: int, b: int) -> int {
    clamp_spec(a, -b, b)
}

/// The three weights, each limited to `WEIGHT_MAX`.
pub open spec fn limited_weights(w: (int, int, int)) -> (int, int, int) {
    (limited(w.0, WEIGHT_MAX as int), limited(w.1, WEIGHT_MAX as int), limited(w.2, WEIGHT_MAX as int))
}

/// A vector with every component limited to the magnitude `b`.
pub open spec fn limited_vector(v: Vector, b: int) -> Vector {
    Vector { x: limited(v.x, b), y: limited(v.y, b), z: limited(v.z, b) }
}

/// The data of a point with the position limited to `CARRY_MAX` and the
/// directions to `VEC_MAX`.
pub open spec fn limited_data(d: PointData) -> PointData {
    PointData {
        p: limited_vector(d.p, CARRY_MAX as int),
        pu: limited_vector(d.pu, VEC_MAX as int),
        pv: limited_vector(d.pv, VEC_MAX as int),
        n: limited_vector(d.n, VEC_MAX as int),
    }
}

/// A point with its positions and parameters limited to `CARRY_MAX` and its
/// directions to `VEC_MAX`. A point within these bounds stays as it is.
pub open spec fn limited_point(s: SurfacePoint) -> SurfacePoint {
    SurfacePoint {
        before: limited_data(s.before),
        after: limited_data(s.after),
        u: limited(s.u, CARRY_MAX as int),
        v: limited(s.v, CARRY_MAX as int),
    }
}

/// The three points weighted and added.
pub open spec fn weighted_sum(q0: SurfacePoint, q1: SurfacePoint, q2: SurfacePoint, w: (int, int, int)) -> SurfacePoint {
    q0.scaled(w.0).plus(q1.scaled(w.1)).plus(q2.scaled(w.2))
}

/// The three points weighted and added, the directions brought to length
/// one afterwards. A sum that lies further out than the lighting reaches is
/// limited to that in between.
pub open spec fn interpolate(q0: SurfacePoint, q1: SurfacePoint, q2: SurfacePoint, w: (int, int, int)) -> SurfacePoint {
    limited_point(weighted_sum(q0, q1, q2, w)).normalized()
}

/// A quotient of a number by itself is one, and zero divided by anything is
/// zero.
pub proof fn lemma_ratio_ends(den: int)
    requires
        den != 0,
    ensures
        ratio(den, den) == ONE,
        ratio(0, den) == 0,
{
    if den > 0 {
        crate::fixed::lemma_div_exact(ONE as int, den);
        assert(den * ONE == ONE * den) by (nonlinear_arith);
        assert(0 * ONE == 0 * den) by (nonlinear_arith);
        crate::fixed::lemma_div_exact(0, den);
    } else {
        crate::fixed::lemma_div_exact(ONE as int, -den);
        assert((-den) * ONE == ONE * (-den)) by (nonlinear_arith);
        assert((-0) * ONE == 0 * (-den)) by (nonlinear_arith);
        crate::fixed::lemma_div_exact(0, -den);
    }
}

/// At a corner of the triangle the whole weight lies on that corner.
pub proof fn lemma_barycentric_at_vertices(pa: Vector, pb: Vector, pc: Vector)
    requires
        triangle_area(pa, pb, pc) != 0,
    ensures
        barycentric(pa, pb, pc, pa.x, pa.y) == Some((ONE as int, 0int, 0int)),
        barycentric(pa, pb, pc, pb.x, pb.y) == Some((0int, ONE as int, 0int)),
        barycentric(pa, pb, pc, pc.x, pc.y) == Some((0int, 0int, ONE as int)),
{
    let den = triangle_area(pa, pb, pc);
    lemma_ratio_ends(den);
    let ax = pb.x - pa.x;
    let ay = pb.y - pa.y;
    let bx = pc.x - pa.x;
    let by = pc.y - pa.y;
    assert(plane_cross(0, 0, bx, by) == 0) by (nonlinear_arith);
    assert(plane_cross(ax, ay, 0, 0) == 0) by (nonlinear_arith);
    assert(plane_cross(ax, ay, ax, ay) == 0) by (nonlinear_arith);
    assert(plane_cross(bx, by, bx, by) == 0) by (nonlinear_arith);
}

/// With the whole weight on one corner, the position and the parameters of
/// the interpolated point are those of the corner.
pub proof fn lemma_interpolate_at_vertices(q0: SurfacePoint, q1: SurfacePoint, q2: SurfacePoint)
    requires
        q0.bounded(CARRY_MAX as int, VEC_MAX as int, CARRY_MAX as int),
        q1.bounded(CARRY_MAX as int, VEC_MAX as int, CARRY_MAX as int),
        q2.bounded(CARRY_MAX as int, VEC_MAX as int, CARRY_MAX as int),
    ensures
        interpolate(q0, q1, q2, (ONE as int, 0int, 0int)).after.p == q0.after.p,
        interpolate(q0, q1, q2, (0int, ONE as int, 0int)).after.p == q1.after.p,
        interpolate(q0, q1, q2, (0int, 0int, ONE as int)).after.p == q2.after.p,
        interpolate(q0, q1, q2, (ONE as int, 0int, 0int)).before.p == q0.before.p,
        interpolate(q0, q1, q2, (0int, ONE as int, 0int)).before.p == q1.before.p,
        interpolate(q0, q1, q2, (0int, 0int, ONE as int)).before.p == q2.before.p,
        interpolate(q0, q1, q2, (ONE as int, 0int, 0int)).u == q0.u,
        interpolate(q0, q1, q2, (0int, ONE as int, 0int)).u == q1.u,
        interpolate(q0, q1, q2, (0int, 0int, ONE as int)).u == q2.u,
        interpolate(q0, q1, q2, (ONE as int, 0int, 0int)).v == q0.v,
        interpolate(q0, q1, q2, (0int, ONE as int, 0int)).v == q1.v,
        interpolate(q0, q1, q2, (0int, 0int, ONE as int)).v == q2.v,
{
    lemma_point_unit_scale(q0);
    lemma_point_unit_scale(q1);
    lemma_point_unit_scale(q2);
}

/// A point multiplied by one keeps its positions and parameters, and
/// multiplied by zero it has none.
proof fn lemma_point_unit_scale(q: SurfacePoint)
    ensures
        q.scaled(ONE as int).after.p == q.after.p,
        q.scaled(ONE as int).before.p == q.before.p,
        q.scaled(ONE as int).u == q.u,
        q.scaled(ONE as int).v == q.v,
        q.scaled(0).after.p == Vector::zero(),
        q.scaled(0).before.p == Vector::zero(),
        q.scaled(0).u == 0,
        q.scaled(0).v == 0,
{
    crate::fixed::lemma_fmul_unit(q.after.p.x);
    crate::fixed::lemma_fmul_unit(q.after.p.y);
    crate::fixed::lemma_fmul_unit(q.after.p.z);
    crate::fixed::lemma_fmul_unit(q.before.p.x);
    crate::fixed::lemma_fmul_unit(q.before.p.y);
    crate::fixed::lemma_fmul_unit(q.before.p.z);
    crate::fixed::lemma_fmul_unit(q.u);
    crate::fixed::lemma_fmul_unit(q.v);
}

/// The sum of three numbers, each multiplied by its weight.
fn weighted_number(a0: i64, a1: i64, a2: i64, bars: &Vec<i64>) -> (r: i128)
    requires
        bars@.len() == 3,
        weights_fit((bars@[0] as int, bars@[1] as int, bars@[2] as int)),
        within(a0 as int, CORNER_MAX as int),
        within(a1 as int, CORNER_MAX as int),
        within(a2 as int, CORNER_MAX as int),
    ensures
        r == fmul_spec(a0 as int, bars@[0] as int) + fmul_spec(a1 as int, bars@[1] as int) + fmul_spec(
            a2 as int,
            bars@[2] as int,
        ),
{
    let b0: i64 = bars[0];
    let b1: i64 = bars[1];
    let b2: i64 = bars[2];
    proof {
        let large = 30_000_000_000_000_000_000_000_000_000int;
        assert(CORNER_MAX * WEIGHT_MAX == large);
        lemma_mul_within(a0 as int, b0 as int, CORNER_MAX as int, WEIGHT_MAX as int);
        lemma_mul_within(a1 as int, b1 as int, CORNER_MAX as int, WEIGHT_MAX as int);
        lemma_mul_within(a2 as int, b2 as int, CORNER_MAX as int, WEIGHT_MAX as int);
        lemma_div_within(a0 * b0, ONE as int, large);
        lemma_div_within(a1 * b1, ONE as int, large);
        lemma_div_within(a2 * b2, ONE as int, large);
    }
    let t0: i128 = floor_div((a0 as i128) * (b0 as i128), ONE as i128);
    let t1: i128 = floor_div((a1 as i128) * (b1 as i128), ONE as i128);
    let t2: i128 = floor_div((a2 as i128) * (b2 as i128), ONE as i128);
    t0 + t1 + t2
}

/// A number limited to the magnitude `limit`.
fn limit_to(a: i128, limit: i64) -> (r: i64)
    requires
        0 <= limit,
    ensures
        r == limited(a as int, limit as int),
        within(r as int, limit as int),
{
    if a < -(limit as i128) {
        -limit
    } else if a > limit as i128 {
        limit
    } else {
        a as i64
    }
}

/// The sum of three vectors, each multiplied by its weight, with every
/// component limited to `limit`.
fn weighted_vector(a0: Vec3, a1: Vec3, a2: Vec3, bars: &Vec<i64>, limit: i64) -> (r: Vec3)
    requires
        bars@.len() == 3,
        weights_fit((bars@[0] as int, bars@[1] as int, bars@[2] as int)),
        a0@.bounded(CORNER_MAX as int),
        a1@.bounded(CORNER_MAX as int),
        a2@.bounded(CORNER_MAX as int),
        0 <= limit,
    ensures
        r@ == limited_vector(
            a0@.scaled(bars@[0] as int).plus(a1@.scaled(bars@[1] as int)).plus(a2@.scaled(bars@[2] as int)),
            limit as int,
        ),
        r@.bounded(limit as int),
{
    let x: i128 = weighted_number(a0.x, a1.x, a2.x, bars);
    let y: i128 = weighted_number(a0.y, a1.y, a2.y, bars);
    let z: i128 = weighted_number(a0.z, a1.z, a2.z, bars);
    Vec3 { x: limit_to(x, limit), y: limit_to(y, limit), z: limit_to(z, limit) }
}

/// The sum of the data of three points, each multiplied by its weight, with
/// the position limited to `CARRY_MAX` and the directions to `VEC_MAX`.
fn weighted_data(d0: PData, d1: PData, d2: PData, bars: &Vec<i64>) -> (r: PData)
    requires
        bars@.len() == 3,
        weights_fit((bars@[0] as int, bars@[1] as int, bars@[2] as int)),
        d0@.bounded(CORNER_MAX as int, CORNER_MAX as int),
        d1@.bounded(CORNER_MAX as int, CORNER_MAX as int),
        d2@.bounded(CORNER_MAX as int, CORNER_MAX as int),
    ensures
        r@ == limited_data(
            d0@.scaled(bars@[0] as int).plus(d1@.scaled(bars@[1] as int)).plus(d2@.scaled(bars@[2] as int)),
        ),
        r@.bounded(CARRY_MAX as int, VEC_MAX as int),
{
    let p: Vec3 = weighted_vector(d0.p, d1.p, d2.p, bars, CARRY_MAX);
    let pu: Vec3 = weighted_vector(d0.pu, d1.pu, d2.pu, bars, VEC_MAX);
    let pv: Vec3 = weighted_vector(d0.pv, d1.pv, d2.pv, bars, VEC_MAX);
    let n: Vec3 = weighted_vector(d0.n, d1.n, d2.n, bars, VEC_MAX);
    PData::new(p, pu, pv, n)
}

/// A pixel with its colour.
#[derive(Clone, Copy, Debug, PartialEq, Eq, Structural)]
pub struct Pixel {
    pub x: i64,
    pub y: i64,
    pub color: Rgba,
}

/// The whole weight on corner `k`, and none on the other two.
pub open spec fn unit_weights(k: int) -> Seq<i64> {
    if k == 0 {
        seq![ONE, 0i64, 0i64]
    } else if k == 1 {
        seq![0i64, ONE, 0i64]
    } else {
        seq![0i64, 0i64, ONE]
    }
}

/// Where the pixels lie: the column and the row of each.
pub open spec fn pixel_positions(s: Seq<Pixel>) -> Seq<(int, int)> {
    Seq::new(s.len(), |k: int| (s[k].x as int, s[k].y as int))
}

/// The three places of `other` are those of `polygon`, in some order.
pub open spec fn same_places(polygon: Seq<PosIn2DArr>, other: Seq<PosIn2DArr>) -> bool {
    &&& polygon.len() == 3
    &&& other.len() == 3
    &&& {
        ||| (other[0] == polygon[0] && other[1] == polygon[1] && other[2] == polygon[2])
        ||| (other[0] == polygon[1] && other[1] == polygon[2] && other[2] == polygon[0])
        ||| (other[0] == polygon[2] && other[1] == polygon[0] && other[2] == polygon[1])
        ||| (other[0] == polygon[0] && other[1] == polygon[2] && other[2] == polygon[1])
        ||| (other[0] == polygon[2] && other[1] == polygon[1] && other[2] == polygon[0])
        ||| (other[0] == polygon[1] && other[1] == polygon[0] && other[2] == polygon[2])
    }
}

/// A triangle has area in every order of its corners, or in none.
pub proof fn lemma_area_any_order(pa: Vector, pb: Vector, pc: Vector)
    ensures
        triangle_area(pb, pc, pa) == triangle_area(pa, pb, pc),
        triangle_area(pc, pa, pb) == triangle_area(pa, pb, pc),
        triangle_area(pa, pc, pb) == -triangle_area(pa, pb, pc),
        triangle_area(pc, pb, pa) == -triangle_area(pa, pb, pc),
        triangle_area(pb, pa, pc) == -triangle_area(pa, pb, pc),
{
    let ax = pa.x;
    let ay = pa.y;
    let bx = pb.x;
    let by = pb.y;
    let cx = pc.x;
    let cy = pc.y;
    let area = (bx - ax) * (cy - ay) - (by - ay) * (cx - ax);
    assert((cx - bx) * (ay - by) - (cy - by) * (ax - bx) == area) by (nonlinear_arith)
        requires
            area == (bx - ax) * (cy - ay) - (by - ay) * (cx - ax),
    ;
    assert((ax - cx) * (by - cy) - (ay - cy) * (bx - cx) == area) by (nonlinear_arith)
        requires
            area == (bx - ax) * (cy - ay) - (by - ay) * (cx - ax),
    ;
    assert((cx - ax) * (by - ay) - (cy - ay) * (bx - ax) == -area) by (nonlinear_arith)
        requires
            area == (bx - ax) * (cy - ay) - (by - ay) * (cx - ax),
    ;
    assert((bx - cx) * (ay - cy) - (by - cy) * (ax - cx) == -area) by (nonlinear_arith)
        requires
            area == (bx - ax) * (cy - ay) - (by - ay) * (cx - ax),
    ;
    assert((ax - bx) * (cy - by) - (ay - by) * (cx - bx) == -area) by (nonlinear_arith)
        requires
            area == (bx - ax) * (cy - ay) - (by - ay) * (cx - ax),
    ;
}

/// Fills the triangles of a grid of points: it finds the pixels that a
/// triangle covers and the colour of each under a light.
#[derive(Clone, Copy)]
pub struct PolygonFiller<'p, 'l, 'tl, 'nm> {
    pub all_points: &'p Points2DArr,
    pub light_source: &'l LightSource,
    pub colors_manager: ColorsManager<'tl, 'nm>,
    pub kd: i64,
    pub ks: i64,
    pub m: u8,
    pub use_normal_map: bool,
}

impl<'p, 'l, 'tl, 'nm> PolygonFiller<'p, 'l, 'tl, 'nm> {
    /// The grid, the light and the textures are well formed, no point of the
    /// grid lies further out than three times `COORD_MAX`, and `kd` and `ks`
    /// lie between zero and one.
    pub open spec fn wf(&self) -> bool {
        &&& self.all_points.wf()
        &&& self.all_points.bounded(3 * COORD_MAX, UNIT_MAX as int)
        &&& self.light_source.wf()
        &&& self.colors_manager.wf()
        &&& 0 <= self.kd <= ONE
        &&& 0 <= self.ks <= ONE
    }

    /// Every corner of the polygon is a place of the grid.
    pub open spec fn in_grid(&self, polygon: Seq<PosIn2DArr>) -> bool {
        forall|k: int| 0 <= k < polygon.len() ==> (#[trigger] polygon[k]).row < self.all_points.rows() && polygon[k].col < self.all_points.cols()
    }

    /// The point of the grid at corner `k` of the polygon.
    pub open spec fn corner(&self, polygon: Seq<PosIn2DArr>, k: int) -> Point {
        self.all_points.point(polygon[k].row as int, polygon[k].col as int)
    }

    /// Where the corners of the polygon lie after the rotation.
    pub open spec fn corner_positions(&self, polygon: Seq<PosIn2DArr>) -> Seq<Vector> {
        Seq::new(polygon.len(), |k: int| self.corner(polygon, k)@.after.p)
    }

    /// The barycentric weights of the pixel `(x, y)` in the triangle.
    pub open spec fn weights(&self, polygon: Seq<PosIn2DArr>, x: int, y: int) -> Option<(int, int, int)> {
        barycentric(
            self.corner(polygon, 0)@.after.p,
            self.corner(polygon, 1)@.after.p,
            self.corner(polygon, 2)@.after.p,
            x * ONE,
            y * ONE,
        )
    }

    /// The point of the surface that the weights select in the triangle.
    pub open spec fn weighted_point(&self, polygon: Seq<PosIn2DArr>, w: (int, int, int)) -> SurfacePoint {
        interpolate(self.corner(polygon, 0)@, self.corner(polygon, 1)@, self.corner(polygon, 2)@, w)
    }

    /// The colour of a point of the surface: its colour, from the texture or
    /// flat, and its normal, from the normal map or its own, under the light.
    pub open spec fn color_of(&self, q: SurfacePoint) -> Rgba {
        shade(
            self.light_source.position@,
            self.light_source.color,
            q.after.p,
            self.colors_manager.normal_at(q.u, q.v, q.after.n, self.use_normal_map),
            self.kd as int,
            self.ks as int,
            self.m as nat,
            self.colors_manager.base_color_at(q.u, q.v),
        )
    }

    /// The pixel `(x, y)` with the colour that the triangle has there: that of
    /// the point which the weights of the pixel select. A triangle without
    /// area has no colour anywhere.
    pub open spec fn painted(&self, polygon: Seq<PosIn2DArr>, x: int, y: int) -> Option<Pixel> {
        match self.weights(polygon, x, y) {
            Some(w) => Some(
                Pixel { x: x as i64, y: y as i64, color: self.color_of(self.weighted_point(polygon, limited_weights(w))) },
            ),
            None => None,
        }
    }

    /// The pixel `(x, y)` lies at corner `k` of the triangle.
    pub open spec fn lies_at_corner(&self, polygon: Seq<PosIn2DArr>, k: int, x: int, y: int) -> bool {
        x * ONE == self.corner(polygon, k)@.after.p.x && y * ONE == self.corner(polygon, k)@.after.p.y
    }

    /// The triangle has area on the screen.
    pub open spec fn has_area(&self, polygon: Seq<PosIn2DArr>) -> bool {
        triangle_area(
            self.corner(polygon, 0)@.after.p,
            self.corner(polygon, 1)@.after.p,
            self.corner(polygon, 2)@.after.p,
        ) != 0
    }

    /// What filling the triangle gives: the pixels that the scan of its
    /// corners covers, painted.
    pub open spec fn filled(&self, polygon: Seq<PosIn2DArr>) -> Seq<Pixel> {
        self.painted_all(polygon, covered_pixels(self.corner_positions(polygon)))
    }

    /// Painting the pixels of a triangle with area leaves none out and moves
    /// none: the painted pixels lie where the pixels lay.
    pub proof fn lemma_painted_positions(&self, polygon: Seq<PosIn2DArr>, at: Seq<(int, int)>)
        requires
            self.has_area(polygon),
            forall|k: int| 0 <= k < at.len() ==> within((#[trigger] at[k]).0, PIXEL_MAX as int) && within(at[k].1, PIXEL_MAX as int),
        ensures
            pixel_positions(self.painted_all(polygon, at)) == at,
        decreases at.len(),
    {
        if at.len() > 0 {
            let rest = at.drop_last();
            assert forall|k: int| 0 <= k < rest.len() implies within((#[trigger] rest[k]).0, PIXEL_MAX as int) && within(
                rest[k].1,
                PIXEL_MAX as int,
            ) by {
                assert(rest[k] == at[k]);
            }
            self.lemma_painted_positions(polygon, rest);
            let last = at.last();
            assert(last == at[at.len() - 1]);
            assert(self.painted(polygon, last.0, last.1).is_some());
            assert(pixel_positions(self.painted_all(polygon, at)) =~= pixel_positions(self.painted_all(polygon, rest)).push(
                last,
            ));
            assert(rest.push(last) =~= at);
        } else {
            assert(pixel_positions(self.painted_all(polygon, at)) =~= at);
        }
    }

    /// A triangle without area is not painted at all.
    pub proof fn lemma_painted_nothing(&self, polygon: Seq<PosIn2DArr>, at: Seq<(int, int)>)
        requires
            !self.has_area(polygon),
        ensures
            self.painted_all(polygon, at) == Seq::<Pixel>::empty(),
        decreases at.len(),
    {
        if at.len() > 0 {
            self.lemma_painted_nothing(polygon, at.drop_last());
        }
    }

    /// Filling a triangle with area gives the same pixels in whatever order
    /// its corners are named: a pixel is among those of the one order just if
    /// it is among those of the other.
    pub proof fn lemma_fill_any_order(&self, polygon: Seq<PosIn2DArr>, other: Seq<PosIn2DArr>, x: int, r: int)
        requires
            self.wf(),
            self.in_grid(polygon),
            same_places(polygon, other),
            self.has_area(polygon),
        ensures
            self.has_area(other),
            pixel_positions(self.filled(polygon)) == covered_pixels(self.corner_positions(polygon)),
            pixel_positions(self.filled(other)) == covered_pixels(self.corner_positions(other)),
            pixel_positions(self.filled(polygon)).contains((x, r)) <==> pixel_positions(self.filled(other)).contains((x, r)),
    {
        let p = self.corner_positions(polygon);
        let q = self.corner_positions(other);
        lemma_area_any_order(p[0], p[1], p[2]);
        assert(self.in_grid(other)) by {
            assert(polygon[0].row < self.all_points.rows() && polygon[1].row < self.all_points.rows() && polygon[2].row
                < self.all_points.rows());
        }
        self.lemma_corners_bounded(polygon);
        self.lemma_corners_bounded(other);
        crate::crossing::lemma_covered_pixels_within(p);
        crate::crossing::lemma_covered_pixels_within(q);
        self.lemma_painted_positions(polygon, covered_pixels(p));
        self.lemma_painted_positions(other, covered_pixels(q));
        assert(crate::crossing::same_corners(p, q));
        crate::crossing::lemma_triangle_any_order(p, q, x, r);
    }

    /// The corners of a triangle of the grid lie within the bounds of the
    /// scan.
    pub proof fn lemma_corners_bounded(&self, polygon: Seq<PosIn2DArr>)
        requires
            self.wf(),
            self.in_grid(polygon),
        ensures
            all_bounded(self.corner_positions(polygon), 3 * COORD_MAX),
            all_bounded(self.corner_positions(polygon), crate::active_edge_table::EDGE_MAX as int),
    {
        let p = self.corner_positions(polygon);
        assert forall|k: int| 0 <= k < p.len() implies (#[trigger] p[k]).bounded(3 * COORD_MAX) by {
            assert(self.all_points.point(polygon[k].row as int, polygon[k].col as int)@.bounded(
                3 * COORD_MAX,
                UNIT_MAX as int,
                ONE as int,
            ));
        }
    }

    /// The pixels of `at` painted: all of them, or none for a triangle without
    /// area.
    pub open spec fn painted_all(&self, polygon: Seq<PosIn2DArr>, at: Seq<(int, int)>) -> Seq<Pixel>
        decreases at.len(),
    {
        if at.len() == 0 {
            Seq::empty()
        } else {
            let rest = self.painted_all(polygon, at.drop_last());
            match self.painted(polygon, at.last().0, at.last().1) {
                Some(pixel) => rest.push(pixel),
                None => rest,
            }
        }
    }

    pub fn new(
        all_points: &'p Points2DArr,
        light_source: &'l LightSource,
        colors_manager: ColorsManager<'tl, 'nm>,
        kd: i64,
        ks: i64,
        m: u8,
        use_normal_map: bool,
    ) -> (r: Self)
        ensures
            r.all_points == all_points,
            r.light_source == light_source,
            r.colors_manager == colors_manager,
            r.kd == kd,
            r.ks == ks,
            r.m == m,
            r.use_normal_map == use_normal_map,
    {
        Self { all_points, light_source, colors_manager, kd, ks, m, use_normal_map }
    }

    /// The pixels that the triangle covers, each with its colour, in the
    /// order the scanlines fill them: every pixel that the scan covers, for
    /// a triangle with area, and none for a triangle without.
    pub fn fill_polygon(&mut self, polygon: &[PosIn2DArr]) -> (r: Vec<Pixel>)
        requires
            old(self).wf(),
            polygon@.len() == 3,
            old(self).in_grid(polygon@),
        ensures
            *final(self) == *old(self),
            r@ == old(self).filled(polygon@),
            old(self).has_area(polygon@) ==> pixel_positions(r@) == covered_pixels(old(self).corner_positions(polygon@)),
            !old(self).has_area(polygon@) ==> r@.len() == 0,
    {
        let vertices: Vec<Vec3> = self.polygon_vertices(polygon);
        let covered: Vec<PixelPos> = scan_polygon(&vertices);
        let ghost at = positions(covered@);
        proof {
            if self.has_area(polygon@) {
                assert forall|k: int| 0 <= k < at.len() implies within((#[trigger] at[k]).0, PIXEL_MAX as int) && within(
                    at[k].1,
                    PIXEL_MAX as int,
                ) by {
                    assert(at[k] == (covered@[k].x as int, covered@[k].y as int));
                }
                self.lemma_painted_positions(polygon@, at);
            } else {
                self.lemma_painted_nothing(polygon@, at);
            }
        }
        let mut out: Vec<Pixel> = Vec::new();
        let mut i: usize = 0;
        proof {
            assert(at.take(0) =~= Seq::empty());
        }
        while i < covered.len()
            invariant
                i <= covered@.len(),
                self.wf(),
                *self == *old(self),
                polygon@.len() == 3,
                self.in_grid(polygon@),
                at == positions(covered@),
                forall|k: int| 0 <= k < covered@.len() ==> within((#[trigger] covered@[k]).x as int, PIXEL_MAX as int) && within(covered@[k].y as int, PIXEL_MAX as int),
                out@ == self.painted_all(polygon@, at.take(i as int)),
            decreases covered@.len() - i,
        {
            let q: PixelPos = covered[i];
            proof {
                assert(at.take(i + 1).drop_last() =~= at.take(i as int));
                assert(at.take(i + 1).last() == (q.x as int, q.y as int));
            }
            match self.paint_pixel(q.x, q.y, polygon) {
                Some(pixel) => {
                    out.push(pixel);
                },
                None => {},
            }
            i = i + 1;
        }
        proof {
            assert(at.take(i as int) =~= at);
        }
        out
    }

    /// Where the corners of the polygon lie after the rotation.
    pub fn polygon_vertices(&self, polygon: &[PosIn2DArr]) -> (r: Vec<Vec3>)
        requires
            self.wf(),
            self.in_grid(polygon@),
        ensures
            vectors(r@) == self.corner_positions(polygon@),
            r@.len() == polygon@.len(),
            all_bounded(vectors(r@), 3 * COORD_MAX),
    {
        let mut r: Vec<Vec3> = Vec::new();
        let mut i: usize = 0;
        while i < polygon.len()
            invariant
                i <= polygon@.len(),
                self.wf(),
                self.in_grid(polygon@),
                r@.len() == i,
                forall|k: int| 0 <= k < i ==> (#[trigger] r@[k])@ == self.corner(polygon@, k)@.after.p,
                forall|k: int| 0 <= k < i ==> (#[trigger] r@[k])@.bounded(3 * COORD_MAX),
            decreases polygon@.len() - i,
        {
            let pos: PosIn2DArr = polygon[i];
            let p: Vec3 = self.all_points.at_pos(pos).after_rotation().p();
            proof {
                assert(self.all_points.point(pos.row as int, pos.col as int)@.bounded(3 * COORD_MAX, UNIT_MAX as int, ONE as int));
            }
            r.push(p);
            i = i + 1;
        }
        proof {
            assert(vectors(r@) =~= self.corner_positions(polygon@));
        }
        r
    }

    /// The pixel `(x, y)` with the colour that the triangle has there.
    pub fn paint_pixel(&self, x: i64, y: i64, polygon: &[PosIn2DArr]) -> (r: Option<Pixel>)
        requires
            self.wf(),
            polygon@.len() == 3,
            self.in_grid(polygon@),
            within(x as int, PIXEL_MAX as int),
            within(y as int, PIXEL_MAX as int),
        ensures
            r == self.painted(polygon@, x as int, y as int),
    {
        match self.get_barycentric_coords(polygon, x, y) {
            Some(bar_coords) => {
                let p: Point = self.point_from_barycentric_coords(polygon, bar_coords);
                let color: Rgba = self.color_in_point(p);
                Some(Pixel { x, y, color })
            },
            None => None,
        }
    }

    /// The polygon's corners in ascending order of their heights.
    pub fn get_vertices_sorted_indicies(&self, polygon: &[PosIn2DArr]) -> (r: Vec<usize>)
        requires
            self.wf(),
            self.in_grid(polygon@),
        ensures
            index_seq(r@) == vertex_order(self.corner_positions(polygon@)),
            r@.len() == polygon@.len(),
            forall|k: int| 0 <= k < r@.len() ==> #[trigger] r@[k] < polygon@.len(),
    {
        let vertices: Vec<Vec3> = self.polygon_vertices(polygon);
        sorted_vertex_indices(&vertices)
    }

    /// Where the corner at place `index` of the sorted order lies.
    pub fn get_point_at_index(&self, polygon: &[PosIn2DArr], sorted_indicies: &[usize], index: usize) -> (r: Vec3)
        requires
            self.wf(),
            self.in_grid(polygon@),
            index < sorted_indicies@.len(),
            sorted_indicies@[index as int] < polygon@.len(),
        ensures
            r@ == self.corner(polygon@, sorted_indicies@[index as int] as int)@.after.p,
    {
        let pos: PosIn2DArr = polygon[sorted_indicies[index]];
        self.all_points.at_pos(pos).after_rotation().p()
    }

    /// Returns vector where i-th element is barycentric coord of i-th point
    /// from polygon, for the pixel `(x, y)`; nothing for a triangle without
    /// area. A weight beyond `WEIGHT_MAX` is limited to it.
    pub fn get_barycentric_coords(&self, polygon: &[PosIn2DArr], x: i64, y: i64) -> (r: Option<Vec<i64>>)
        requires
            self.wf(),
            polygon@.len() == 3,
            self.in_grid(polygon@),
            within(x as int, PIXEL_MAX as int),
            within(y as int, PIXEL_MAX as int),
        ensures
            r.is_some() == self.weights(polygon@, x as int, y as int).is_some(),
            r matches Some(bars) ==> {
                let w = limited_weights(self.weights(polygon@, x as int, y as int).unwrap());
                &&& bars@.len() == 3
                &&& bars@[0] == w.0
                &&& bars@[1] == w.1
                &&& bars@[2] == w.2
                &&& weights_fit(w)
            },
            forall|k: int|
                0 <= k < 3 && self.has_area(polygon@) && #[trigger] self.lies_at_corner(polygon@, k, x as int, y as int)
                    ==> r.is_some() && r.unwrap()@ == unit_weights(k),
    {
        let pa: Vec3 = self.all_points.at_pos(polygon[0]).after_rotation().p();
        let pb: Vec3 = self.all_points.at_pos(polygon[1]).after_rotation().p();
        let pc: Vec3 = self.all_points.at_pos(polygon[2]).after_rotation().p();
        proof {
            if self.has_area(polygon@) {
                lemma_barycentric_at_vertices(pa@, pb@, pc@);
            }
            assert(self.corner(polygon@, 0)@.bounded(3 * COORD_MAX, UNIT_MAX as int, ONE as int));
            assert(self.corner(polygon@, 1)@.bounded(3 * COORD_MAX, UNIT_MAX as int, ONE as int));
            assert(self.corner(polygon@, 2)@.bounded(3 * COORD_MAX, UNIT_MAX as int, ONE as int));
            assert(within(x * ONE, 5_000_000_000_000_000_000)) by (nonlinear_arith)
                requires
                    within(x as int, 5_000_000_000_000),
            ;
            assert(within(y * ONE, 5_000_000_000_000_000_000)) by (nonlinear_arith)
                requires
                    within(y as int, 5_000_000_000_000),
            ;
        }
        let v0x: i128 = (pb.x - pa.x) as i128;
        let v0y: i128 = (pb.y - pa.y) as i128;
        let v1x: i128 = (pc.x - pa.x) as i128;
        let v1y: i128 = (pc.y - pa.y) as i128;
        let v2x: i128 = (x as i128) * (ONE as i128) - (pa.x as i128);
        let v2y: i128 = (y as i128) * (ONE as i128) - (pa.y as i128);
        proof {
            let small = 60_000_000_000int;
            let large = 6_000_000_000_000_000_000int;
            lemma_mul_within(v0x as int, v1y as int, small, small);
            lemma_mul_within(v0y as int, v1x as int, small, small);
            lemma_mul_within(v2x as int, v1y as int, large, small);
            lemma_mul_within(v2y as int, v1x as int, large, small);
            lemma_mul_within(v0x as int, v2y as int, small, large);
            lemma_mul_within(v0y as int, v2x as int, small, large);
            assert(small * small == 3_600_000_000_000_000_000_000);
            assert(large * small == 360_000_000_000_000_000_000_000_000_000);
            assert(small * large == 360_000_000_000_000_000_000_000_000_000);
        }
        let denom: i128 = v0x * v1y - v0y * v1x;
        if denom == 0 {
            return None;
        }
        let num_v: i128 = v2x * v1y - v2y * v1x;
        let num_w: i128 = v0x * v2y - v0y * v2x;
        let v: i128 = Self::quotient(num_v, denom);
        let w: i128 = Self::quotient(num_w, denom);
        let u: i128 = (ONE as i128) - v - w;
        let mut bars: Vec<i64> = Vec::new();
        bars.push(limit_to(u, WEIGHT_MAX));
        bars.push(limit_to(v, WEIGHT_MAX));
        bars.push(limit_to(w, WEIGHT_MAX));
        proof {
            assert forall|k: int|
                0 <= k < 3 && self.has_area(polygon@) && #[trigger] self.lies_at_corner(
                    polygon@,
                    k,
                    x as int,
                    y as int,
                ) implies bars@ == unit_weights(k) by {
                assert(bars@ =~= unit_weights(k));
            }
        }
        Some(bars)
    }

    /// The quotient of `num` and `den` as a fixed-point number.
    fn quotient(num: i128, den: i128) -> (r: i128)
        requires
            den != 0,
            within(num as int, 1_000_000_000_000_000_000_000_000_000_000),
            within(den as int, 1_000_000_000_000_000_000_000_000_000_000),
        ensures
            r == ratio(num as int, den as int),
            within(r as int, 1_000_000_000_000_000_000_000_000_000_000_000_000),
    {
        proof {
            lemma_mul_within(num as int, ONE as int, 1_000_000_000_000_000_000_000_000_000_000, ONE as int);
            assert(1_000_000_000_000_000_000_000_000_000_000 * ONE == 1_000_000_000_000_000_000_000_000_000_000_000_000);
            assert((-num) * ONE == -(num * ONE)) by (nonlinear_arith);
            if den > 0 {
                lemma_div_within(num * ONE, den as int, 1_000_000_000_000_000_000_000_000_000_000_000_000);
            } else {
                lemma_div_within((-num) * ONE, -den, 1_000_000_000_000_000_000_000_000_000_000_000_000);
            }
        }
        if den > 0 {
            floor_div(num * (ONE as i128), den)
        } else {
            floor_div((-num) * (ONE as i128), -den)
        }
    }

    /// The point of the surface that the weights select in the triangle.
    pub fn point_from_barycentric_coords(&self, polygon: &[PosIn2DArr], bars: Vec<i64>) -> (r: Point)
        requires
            self.wf(),
            polygon@.len() == 3,
            self.in_grid(polygon@),
            bars@.len() == 3,
            weights_fit((bars@[0] as int, bars@[1] as int, bars@[2] as int)),
        ensures
            r@ == self.weighted_point(polygon@, (bars@[0] as int, bars@[1] as int, bars@[2] as int)),
            r@.bounded(CARRY_MAX as int, UNIT_MAX as int, CARRY_MAX as int),
    {
        let q0: Point = *self.all_points.at_pos(polygon[0]);
        let q1: Point = *self.all_points.at_pos(polygon[1]);
        let q2: Point = *self.all_points.at_pos(polygon[2]);
        proof {
            assert(self.corner(polygon@, 0)@.bounded(3 * COORD_MAX, UNIT_MAX as int, ONE as int));
            assert(self.corner(polygon@, 1)@.bounded(3 * COORD_MAX, UNIT_MAX as int, ONE as int));
            assert(self.corner(polygon@, 2)@.bounded(3 * COORD_MAX, UNIT_MAX as int, ONE as int));
        }
        let ghost sum = weighted_sum(q0@, q1@, q2@, (bars@[0] as int, bars@[1] as int, bars@[2] as int));
        let before: PData = weighted_data(q0.before_rotation, q1.before_rotation, q2.before_rotation, &bars);
        assert(before@ == limited_data(sum.before));
        let after: PData = weighted_data(q0.after_rotation, q1.after_rotation, q2.after_rotation, &bars);
        assert(after@ == limited_data(sum.after));
        let u: i128 = weighted_number(q0.u, q1.u, q2.u, &bars);
        let v: i128 = weighted_number(q0.v, q1.v, q2.v, &bars);
        assert(u == sum.u && v == sum.v);
        let mut p = Point {
            before_rotation: before,
            after_rotation: after,
            u: limit_to(u, CARRY_MAX),
            v: limit_to(v, CARRY_MAX),
        };
        assert(p@ == limited_point(sum));
        p.normalize_all();
        p
    }

    /// The colour of the point under the light.
    pub fn color_in_point(&self, point: Point) -> (r: Rgba)
        requires
            self.wf(),
            point@.bounded(CARRY_MAX as int, UNIT_MAX as int, CARRY_MAX as int),
        ensures
            r == self.color_of(point@),
    {
        let base_color: Rgba = self.colors_manager.get_point_base_color(&point);
        let n: Vec3 = self.colors_manager.get_point_n_vector(&point, self.use_normal_map);
        let after: &PData = point.after_rotation();
        let lit: PData = PData::new(after.p(), after.pu(), after.pv(), n);
        let r: i64 = channel_to_level(base_color.r());
        let light_r: i64 = channel_to_level(self.light_source.color().r());
        let g: i64 = channel_to_level(base_color.g());
        let light_g: i64 = channel_to_level(self.light_source.color().g());
        let b: i64 = channel_to_level(base_color.b());
        let light_b: i64 = channel_to_level(self.light_source.color().b());
        let new_r: u8 = self.calculate_color_component(lit, r, light_r);
        let new_g: u8 = self.calculate_color_component(lit, g, light_g);
        let new_b: u8 = self.calculate_color_component(lit, b, light_b);
        Rgba::from_rgb(new_r, new_g, new_b)
    }

    /// One channel of the colour of a point with the position and the normal
    /// of `point`, of a surface and under a light with these levels of the
    /// channel.
    pub fn calculate_color_component(&self, point: PData, base_color_component: i64, light_color_component: i64) -> (r: u8)
        requires
            self.wf(),
            point@.p.bounded(CARRY_MAX as int),
            point@.n.bounded(UNIT_MAX as int),
            0 <= base_color_component <= ONE,
            0 <= light_color_component <= ONE,
        ensures
            r == shade_channel(
                self.light_source.position@,
                point@.p,
                point@.n,
                self.kd as int,
                self.ks as int,
                self.m as nat,
                base_color_component as int,
                light_color_component as int,
            ),
            self.ks == 0 && point@.n.dot(light_direction(self.light_source.position@, point@.p)) < 0 ==> r == 0,
    {
        shade_channel_of(
            self.light_source.position(),
            point.p(),
            point.n(),
            self.kd,
            self.ks,
            self.m,
            base_color_component,
            light_color_component,
        )
    }
}

/// At each corner of a triangle with area, whose corners lie within reach
/// of the lighting, the interpolated point has the position and the
/// parameters of that corner.
pub proof fn lemma_interpolation_reproduces_vertices(q0: SurfacePoint, q1: SurfacePoint, q2: SurfacePoint)
    requires
        triangle_area(q0.after.p, q1.after.p, q2.after.p) != 0,
        q0.bounded(CARRY_MAX as int, VEC_MAX as int, CARRY_MAX as int),
        q1.bounded(CARRY_MAX as int, VEC_MAX as int, CARRY_MAX as int),
        q2.bounded(CARRY_MAX as int, VEC_MAX as int, CARRY_MAX as int),
    ensures
        ({
            let w = barycentric(q0.after.p, q1.after.p, q2.after.p, q0.after.p.x, q0.after.p.y);
            w == Some((ONE as int, 0int, 0int)) && interpolate(q0, q1, q2, w.unwrap()).after.p == q0.after.p
        }),
        ({
            let w = barycentric(q0.after.p, q1.after.p, q2.after.p, q1.after.p.x, q1.after.p.y);
            w == Some((0int, ONE as int, 0int)) && interpolate(q0, q1, q2, w.unwrap()).after.p == q1.after.p
        }),
        ({
            let w = barycentric(q0.after.p, q1.after.p, q2.after.p, q2.after.p.x, q2.after.p.y);
            w == Some((0int, 0int, ONE as int)) && interpolate(q0, q1, q2, w.unwrap()).after.p == q2.after.p
        }),
{
    lemma_barycentric_at_vertices(q0.after.p, q1.after.p, q2.after.p);
    lemma_interpolate_at_vertices(q0, q1, q2);
}

} // verus!
