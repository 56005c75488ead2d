//! Rotation matrices about the X and the Z axis.

use vstd::prelude::*;
use crate::fixed::{ONE, lemma_div_exact, lemma_div_monotone, lemma_mul_within, within};
use crate::vector::{Mat3, Matrix, Vec3, Vector};

verus! {

/// Builds the rotation matrices. An angle is given by its sine and its
/// cosine, as fixed-point numbers.
pub struct Rotations;

/// The rotation about the X axis by the angle with this sine and cosine.
pub open spec fn x_rotation(sin: int, cos: int) -> Matrix {
    Matrix {
        r0: Vector { x: ONE as int, y: 0, z: 0 },
        r1: Vector { x: 0, y: cos, z: -sin },
        r2: Vector { x: 0, y: sin, z: cos },
    }
}

/// The rotation about the Z axis by the angle with this sine and cosine.
pub open spec fn z_rotation(sin: int, cos: int) -> Matrix {
    Matrix {
        r0: Vector { x: cos, y: -sin, z: 0 },
        r1: Vector { x: sin, y: cos, z: 0 },
        r2: Vector { x: 0, y: 0, z: ONE as int },
    }
}

/// The rotation of the surface: first the spin about the Z axis by `alfa`,
/// then the tilt about the X axis by `beta`.
pub open spec fn surface_rotation(sin_alfa: int, cos_alfa: int, sin_beta: int, cos_beta: int) -> Matrix {
    x_rotation(sin_beta, cos_beta).times(z_rotation(sin_alfa, cos_alfa))
}

/// At most one of the three products of a dot product differs from zero.
pub open spec fn single_term(a: Vector, b: Vector) -> bool {
    let zx = a.x == 0 || b.x == 0;
    let zy = a.y == 0 || b.y == 0;
    let zz = a.z == 0 || b.z == 0;
    (zx && zy) || (zx && zz) || (zy && zz)
}

/// A dot product with a single term, of vectors no longer than one, is at
/// most one.
proof fn lemma_single_term_dot(a: Vector, b: Vector)
    requires
        a.bounded(ONE as int),
        b.bounded(ONE as int),
        single_term(a, b),
    ensures
        within(a.dot(b), ONE as int),
{
    lemma_mul_within(a.x, b.x, ONE as int, ONE as int);
    lemma_mul_within(a.y, b.y, ONE as int, ONE as int);
    lemma_mul_within(a.z, b.z, ONE as int, ONE as int);
    assert((a.x == 0 || b.x == 0) ==> a.x * b.x == 0) by (nonlinear_arith);
    assert((a.y == 0 || b.y == 0) ==> a.y * b.y == 0) by (nonlinear_arith);
    assert((a.z == 0 || b.z == 0) ==> a.z * b.z == 0) by (nonlinear_arith);
    lemma_div_monotone(a.raw_dot(b), ONE * ONE, ONE as int);
    lemma_div_monotone(-ONE * ONE, a.raw_dot(b), ONE as int);
    lemma_div_exact(ONE as int, ONE as int);
    lemma_div_exact(-ONE as int, ONE as int);
}

/// The rotation of the surface has no entry beyond one.
pub proof fn lemma_surface_rotation_bounded(sin_alfa: int, cos_alfa: int, sin_beta: int, cos_beta: int)
    requires
        within(sin_alfa, ONE as int),
        within(cos_alfa, ONE as int),
        within(sin_beta, ONE as int),
        within(cos_beta, ONE as int),
    ensures
        surface_rotation(sin_alfa, cos_alfa, sin_beta, cos_beta).bounded(ONE as int),
{
    let rx = x_rotation(sin_beta, cos_beta);
    let rz = z_rotation(sin_alfa, cos_alfa);
    lemma_single_term_dot(rx.r0, rz.col0());
    lemma_single_term_dot(rx.r0, rz.col1());
    lemma_single_term_dot(rx.r0, rz.col2());
    lemma_single_term_dot(rx.r1, rz.col0());
    lemma_single_term_dot(rx.r1, rz.col1());
    lemma_single_term_dot(rx.r1, rz.col2());
    lemma_single_term_dot(rx.r2, rz.col0());
    lemma_single_term_dot(rx.r2, rz.col1());
    lemma_single_term_dot(rx.r2, rz.col2());
}

/// With both angles zero the surface is not rotated at all.
pub proof fn lemma_zero_angles()
    ensures
        x_rotation(0, ONE as int) == Matrix::identity(),
        z_rotation(0, ONE as int) == Matrix::identity(),
        surface_rotation(0, ONE as int, 0, ONE as int) == Matrix::identity(),
{
    assert(ONE * ONE / (ONE as int) == ONE);
}

impl Rotations {
    /// The rotation about the X axis by the angle `beta`, given by its sine
    /// and cosine.
    pub fn create_x_rotation_matrix(sin_beta: i64, cos_beta: i64) -> (r: Mat3)
        requires
            within(sin_beta as int, ONE as int),
            within(cos_beta as int, ONE as int),
        ensures
            r@ == x_rotation(sin_beta as int, cos_beta as int),
            r@.bounded(ONE as int),
    {
        Mat3 {
            r0: Vec3 { x: ONE, y: 0, z: 0 },
            r1: Vec3 { x: 0, y: cos_beta, z: -sin_beta },
            r2: Vec3 { x: 0, y: sin_beta, z: cos_beta },
        }
    }

    /// The rotation about the Z axis by the angle `alfa`, given by its sine
    /// and cosine.
    pub fn create_z_rotation_matrix(sin_alfa: i64, cos_alfa: i64) -> (r: Mat3)
        requires
            within(sin_alfa as int, ONE as int),
            within(cos_alfa as int, ONE as int),
        ensures
            r@ == z_rotation(sin_alfa as int, cos_alfa as int),
            r@.bounded(ONE as int),
    {
        Mat3 {
            r0: Vec3 { x: cos_alfa, y: -sin_alfa, z: 0 },
            r1: Vec3 { x: sin_alfa, y: cos_alfa, z: 0 },
            r2: Vec3 { x: 0, y: 0, z: ONE },
        }
    }

    /// The rotation of the surface: the spin by `alfa` about the Z axis
    /// followed by the tilt by `beta` about the X axis.
    pub fn create_surface_rotation(sin_alfa: i64, cos_alfa: i64, sin_beta: i64, cos_beta: i64) -> (r: Mat3)
        requires
            within(sin_alfa as int, ONE as int),
            within(cos_alfa as int, ONE as int),
            within(sin_beta as int, ONE as int),
            within(cos_beta as int, ONE as int),
        ensures
            r@ == surface_rotation(sin_alfa as int, cos_alfa as int, sin_beta as int, cos_beta as int),
            r@.bounded(ONE as int),
    {
        proof {
            lemma_surface_rotation_bounded(sin_alfa as int, cos_alfa as int, sin_beta as int, cos_beta as int);
        }
        let x_rotation = Self::create_x_rotation_matrix(sin_beta, cos_beta);
        let z_rotation = Self::create_z_rotation_matrix(sin_alfa, cos_alfa);
        x_rotation.times(&z_rotation)
    }
}

} // verus!
