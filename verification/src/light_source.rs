//! The point light.

use vstd::prelude::*;
use crate::color::Rgba;
use crate::fixed::{COORD_MAX, ONE, fmul, fmul_spec, within};
use crate::point::lemma_fmul_within;
use crate::vector::{Vec3, Vector};

verus! {

/// Largest base radius of the curve that an animated light moves on. It is
/// set by `COORD_MAX`: the light moves as far out as three times the radius.
pub const RADIUS_MAX: i64 = 3_000_000_000;

/// A point light: where it is, its colour, and the base radius of the curve
/// it moves on when it is animated.
pub struct LightSource {
    pub position: Vec3,
    pub color: Rgba,
    pub radius_base: i64,
}

/// The radius of the curve at the moment whose sine is `sin`: between one and
/// three times the base radius.
pub open spec fn orbit_radius(radius_base: int, sin: int) -> int {
    fmul_spec(radius_base, sin + 2 * ONE)
}

/// Where the light is at the moment with this sine and cosine: on the curve
/// around the Z axis, at the height `z`.
pub open spec fn orbit_position(radius_base: int, sin: int, cos: int, z: int) -> Vector {
    Vector {
        x: fmul_spec(orbit_radius(radius_base, sin), cos),
        y: fmul_spec(orbit_radius(radius_base, sin), sin),
        z,
    }
}

impl LightSource {
    /// The light lies within `COORD_MAX`, and its base radius is at most
    /// `RADIUS_MAX`, to either side.
    pub open spec fn wf(&self) -> bool {
        self.position@.bounded(COORD_MAX as int) && within(self.radius_base as int, RADIUS_MAX as int)
    }

    /// The light as it is when the program starts: light green, four
    /// hundred above the surface, with a base radius of one hundred.
    pub open spec fn initial() -> LightSource {
        LightSource {
            position: Vec3 { x: 0, y: 0, z: 400_000_000 },
            color: Rgba { r: 144, g: 238, b: 144, a: 255 },
            radius_base: 100_000_000,
        }
    }

    /// A light on the Z axis at the height `z`.
    pub fn new(z: i64, color: Rgba, radius_base: i64) -> (r: Self)
        ensures
            r.position == (Vec3 { x: 0, y: 0, z }),
            r.color == color,
            r.radius_base == radius_base,
    {
        LightSource { position: Vec3::new(0, 0, z), color, radius_base }
    }

    pub fn position(&self) -> (r: Vec3)
        ensures
            r == self.position,
    {
        self.position
    }

    pub fn position_mut(&mut self) -> (r: &mut Vec3)
        ensures
            *r == old(self).position,
            *final(self) == (LightSource { position: *final(r), ..*old(self) }),
    {
        &mut self.position
    }

    pub fn color(&self) -> (r: Rgba)
        ensures
            r == self.color,
    {
        self.color
    }

    pub fn color_mut(&mut self) -> (r: &mut Rgba)
        ensures
            *r == old(self).color,
            *final(self) == (LightSource { color: *final(r), ..*old(self) }),
    {
        &mut self.color
    }

    pub fn radius_base_mut(&mut self) -> (r: &mut i64)
        ensures
            *r == old(self).radius_base,
            *final(self) == (LightSource { radius_base: *final(r), ..*old(self) }),
    {
        &mut self.radius_base
    }

    /// Moves the light to where it is at the moment `t` of the animation,
    /// given by the sine and the cosine of `t`. The height stays.
    pub fn update_position(&mut self, sin_t: i64, cos_t: i64)
        requires
            old(self).wf(),
            within(sin_t as int, ONE as int),
            within(cos_t as int, ONE as int),
        ensures
            final(self).position@ == orbit_position(
                old(self).radius_base as int,
                sin_t as int,
                cos_t as int,
                old(self).position.z as int,
            ),
            final(self).color == old(self).color,
            final(self).radius_base == old(self).radius_base,
            final(self).wf(),
    {
        proof {
            lemma_fmul_within(self.radius_base as int, sin_t + 2 * ONE, RADIUS_MAX as int, 3);
            let radius = orbit_radius(self.radius_base as int, sin_t as int);
            lemma_fmul_within(radius, cos_t as int, 3 * RADIUS_MAX, 1);
            lemma_fmul_within(radius, sin_t as int, 3 * RADIUS_MAX, 1);
        }
        let radius: i64 = fmul(self.radius_base, sin_t + 2 * ONE);
        let x: i64 = fmul(radius, cos_t);
        let y: i64 = fmul(radius, sin_t);
        self.position = Vec3::new(x, y, self.position.z);
    }
}

} // verus!
