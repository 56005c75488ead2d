//! The Phong reflection model for one point and one point light.

use vstd::prelude::*;
use crate::color::{Rgba, channel_level, level_channel, level_to_channel};
use crate::fixed::{
    ONE, VEC_MAX, clamp, clamp_spec, fmul, fmul_spec, fpow, fpow_spec, lemma_div_monotone,
    lemma_fmul_unit,
};
use crate::point::{lemma_fmul_within, lemma_scaled_bounded};
use crate::vector::{UNIT_MAX, Vec3, Vector, lemma_dot_within};

verus! {

/// The direction in which the surface is looked at: along the Z axis.
pub open spec fn view_direction() -> Vector {
    Vector { x: 0, y: 0, z: ONE as int }
}

/// The direction from the point `p` to the light, of length one.
pub open spec fn light_direction(light: Vector, p: Vector) -> Vector {
    light.minus(p).normalized()
}

/// The cosine of the angle between the normal and the direction to the
/// light; zero where the light is behind the surface.
pub open spec fn light_cosine(n: Vector, l: Vector) -> int {
    if n.dot(l) < 0 {
        0
    } else {
        n.dot(l)
    }
}

/// The light that the surface scatters: `kd * light * base * cos`.
pub open spec fn diffuse_term(kd: int, light: int, base: int, cos: int) -> int {
    fmul_spec(fmul_spec(fmul_spec(kd, light), base), cos)
}

/// The direction of the mirrored light: `2 * cos * n - l`.
pub open spec fn reflection(n: Vector, l: Vector, cos: int) -> Vector {
    n.scaled(2 * cos).minus(l)
}

/// The cosine of the angle between the mirrored light and the viewer, not
/// below zero and, against rounding, not above one.
pub open spec fn mirror_cosine(n: Vector, l: Vector, cos: int) -> int {
    clamp_spec(view_direction().dot(reflection(n, l, cos)), 0, ONE as int)
}

/// The light that the surface mirrors: `ks * light * base * mirror^m`.
pub open spec fn specular_term(ks: int, light: int, base: int, mirror: int, m: nat) -> int {
    fmul_spec(fmul_spec(fmul_spec(ks, light), base), fpow_spec(mirror, m))
}

/// One channel of the colour of a point: the scattered and the mirrored
/// light together, limited to one, as a number from 0 to 255.
pub open spec fn shade_channel(light: Vector, p: Vector, n: Vector, kd: int, ks: int, m: nat, base: int, light_level: int) -> int {
    let l = light_direction(light, p);
    let cos = light_cosine(n, l);
    let sum = diffuse_term(kd, light_level, base, cos) + specular_term(ks, light_level, base, mirror_cosine(n, l, cos), m);
    level_channel(clamp_spec(sum, 0, ONE as int))
}

/// The colour of a point with the normal `n` and the colour `base` under a
/// light of the colour `light_color`. The result is opaque.
pub open spec fn shade(light: Vector, light_color: Rgba, p: Vector, n: Vector, kd: int, ks: int, m: nat, base: Rgba) -> Rgba {
    Rgba {
        r: shade_channel(light, p, n, kd, ks, m, channel_level(base.r as int), channel_level(light_color.r as int)) as u8,
        g: shade_channel(light, p, n, kd, ks, m, channel_level(base.g as int), channel_level(light_color.g as int)) as u8,
        b: shade_channel(light, p, n, kd, ks, m, channel_level(base.b as int), channel_level(light_color.b as int)) as u8,
        a: 255,
    }
}

/// A channel lies between 0 and 255.
pub proof fn lemma_shade_channel_range(light: Vector, p: Vector, n: Vector, kd: int, ks: int, m: nat, base: int, light_level: int)
    ensures
        0 <= shade_channel(light, p, n, kd, ks, m, base, light_level) <= 255,
{
    let l = light_direction(light, p);
    let cos = light_cosine(n, l);
    let sum = diffuse_term(kd, light_level, base, cos) + specular_term(ks, light_level, base, mirror_cosine(n, l, cos), m);
    let c = clamp_spec(sum, 0, ONE as int);
    lemma_div_monotone(0, c * 255, ONE as int);
    lemma_div_monotone(c * 255, 255 * ONE, ONE as int);
    crate::fixed::lemma_div_exact(255, ONE as int);
}

/// Where the light is behind the surface nothing is scattered, and only the
/// mirrored light is left.
pub proof fn lemma_no_diffuse_light_behind(light: Vector, p: Vector, n: Vector, kd: int, ks: int, m: nat, base: int, light_level: int)
    requires
        n.dot(light_direction(light, p)) < 0,
    ensures
        diffuse_term(kd, light_level, base, light_cosine(n, light_direction(light, p))) == 0,
        shade_channel(light, p, n, kd, ks, m, base, light_level) == level_channel(
            clamp_spec(
                specular_term(ks, light_level, base, mirror_cosine(n, light_direction(light, p), 0), m),
                0,
                ONE as int,
            ),
        ),
{
    lemma_fmul_unit(fmul_spec(fmul_spec(kd, light_level), base));
}

/// Where the light is behind the surface and the surface mirrors nothing,
/// the point is dark.
pub proof fn lemma_dark_light_behind(light: Vector, p: Vector, n: Vector, kd: int, m: nat, base: int, light_level: int)
    requires
        n.dot(light_direction(light, p)) < 0,
    ensures
        shade_channel(light, p, n, kd, 0, m, base, light_level) == 0,
{
    lemma_no_diffuse_light_behind(light, p, n, kd, 0, m, base, light_level);
    lemma_fmul_unit(light_level);
    lemma_fmul_unit(base);
    lemma_fmul_unit(fpow_spec(mirror_cosine(n, light_direction(light, p), 0), m));
}

/// One channel of the colour of the point `p` with the normal `n`.
pub fn shade_channel_of(light: Vec3, p: Vec3, n: Vec3, kd: i64, ks: i64, m: u8, base: i64, light_level: i64) -> (r: u8)
    requires
        light@.minus(p@).bounded(VEC_MAX as int),
        n@.bounded(UNIT_MAX as int),
        0 <= kd <= ONE,
        0 <= ks <= ONE,
        0 <= base <= ONE,
        0 <= light_level <= ONE,
    ensures
        r == shade_channel(light@, p@, n@, kd as int, ks as int, m as nat, base as int, light_level as int),
        ks == 0 && n@.dot(light_direction(light@, p@)) < 0 ==> r == 0,
{
    proof {
        if ks == 0 && n@.dot(light_direction(light@, p@)) < 0 {
            lemma_dark_light_behind(light@, p@, n@, kd as int, m as nat, base as int, light_level as int);
        }
    }
    let l: Vec3 = light.minus(p).normalize();
    proof {
        lemma_dot_within(n@, l@, UNIT_MAX as int, 2);
    }
    let mut cos_n_l: i64 = n.dot(l);
    if cos_n_l < 0 {
        cos_n_l = 0;
    }
    proof {
        lemma_fmul_within(kd as int, light_level as int, ONE as int, 1);
        lemma_fmul_within(fmul_spec(kd as int, light_level as int), base as int, ONE as int, 1);
        lemma_fmul_within(fmul_spec(fmul_spec(kd as int, light_level as int), base as int), cos_n_l as int, ONE as int, 7);
        lemma_fmul_within(ks as int, light_level as int, ONE as int, 1);
        lemma_fmul_within(fmul_spec(ks as int, light_level as int), base as int, ONE as int, 1);
        lemma_scaled_bounded(n@, 2 * cos_n_l, UNIT_MAX as int, 13);
        lemma_dot_within(view_direction(), reflection(n@, l@, cos_n_l as int), ONE as int, 16);
    }
    let lhs: i64 = fmul(fmul(fmul(kd, light_level), base), cos_n_l);
    let v = Vec3::new(0, 0, ONE);
    let r: Vec3 = n.scaled(2 * cos_n_l).minus(l);
    let cos_v_r: i64 = clamp(v.dot(r), 0, ONE);
    let cos_m_v_r: i64 = fpow(cos_v_r, m);
    proof {
        lemma_fmul_within(
            fmul_spec(fmul_spec(ks as int, light_level as int), base as int),
            cos_m_v_r as int,
            ONE as int,
            1,
        );
    }
    let rhs: i64 = fmul(fmul(fmul(ks, light_level), base), cos_m_v_r);
    let sum: i64 = clamp(lhs + rhs, 0, ONE);
    level_to_channel(sum)
}

} // verus!
