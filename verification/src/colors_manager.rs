//! Which colour and which normal a point is shaded with.

use vstd::prelude::*;
use crate::color::Rgba;
use crate::point::Point;
use crate::texture_loader::{TextureLoader, decoded_normal};
use crate::vector::{UNIT_MAX, Vec3, Vector};

verus! {

/// The flat colour of the shape, the texture and the normal map.
#[derive(Clone, Copy)]
pub struct ColorsManager<'tl, 'nm> {
    pub base_color: Rgba,
    pub texture_loader: &'tl TextureLoader,
    pub normal_map_loader: &'nm TextureLoader,
}

impl<'tl, 'nm> ColorsManager<'tl, 'nm> {
    /// Both loaders are well formed.
    pub open spec fn wf(&self) -> bool {
        self.texture_loader.wf() && self.normal_map_loader.wf()
    }

    /// The colour of the surface at parameters `u` and `v`: that of the
    /// texture where one is loaded, the flat colour otherwise.
    pub open spec fn base_color_at(&self, u: int, v: int) -> Rgba {
        if self.texture_loader.texture().is_some() {
            self.texture_loader.color_at(u, v)
        } else {
            self.base_color
        }
    }

    /// The normal for the lighting: that of the normal map where one is
    /// loaded and in use, the normal `n` of the surface otherwise.
    pub open spec fn normal_at(&self, u: int, v: int, n: Vector, use_normal_map: bool) -> Vector {
        if self.normal_map_loader.texture().is_some() && use_normal_map {
            decoded_normal(self.normal_map_loader.color_at(u, v)).normalized()
        } else {
            n
        }
    }

    pub fn new(base_color: Rgba, texture_loader: &'tl TextureLoader, normal_map_loader: &'nm TextureLoader) -> (r: Self)
        ensures
            r.base_color == base_color,
            r.texture_loader == texture_loader,
            r.normal_map_loader == normal_map_loader,
    {
        Self { base_color, texture_loader, normal_map_loader }
    }

    /// The colour of the surface at the point.
    pub fn get_point_base_color(&self, point: &Point) -> (r: Rgba)
        requires
            self.wf(),
        ensures
            r == self.base_color_at(point.u as int, point.v as int),
    {
        match self.texture_loader.get_color_in_point(point) {
            Ok(color) => color,
            Err(_) => self.base_color,
        }
    }

    /// The normal that the point is lit with.
    pub fn get_point_n_vector(&self, point: &Point, use_normal_map: bool) -> (r: Vec3)
        requires
            self.wf(),
        ensures
            r@ == self.normal_at(point.u as int, point.v as int, point.after_rotation.n@, use_normal_map),
            point.after_rotation.n@.bounded(UNIT_MAX as int) ==> r@.bounded(UNIT_MAX as int),
    {
        if use_normal_map {
            match self.get_normal_map_n_vector(point) {
                Ok(n) => n,
                Err(_) => point.after_rotation().n(),
            }
        } else {
            point.after_rotation().n()
        }
    }

    /// The normal of the normal map at the point, if a map is loaded.
    fn get_normal_map_n_vector(&self, point: &Point) -> (r: Result<Vec3, crate::texture_loader::TextureError>)
        requires
            self.wf(),
        ensures
            self.normal_map_loader.texture().is_none() ==> r.is_err(),
            self.normal_map_loader.texture().is_some() ==> r.is_ok() && r.unwrap()@ == decoded_normal(
                self.normal_map_loader.color_at(point.u as int, point.v as int),
            ).normalized(),
            r.is_ok() ==> r.unwrap()@.bounded(UNIT_MAX as int),
    {
        self.normal_map_loader.get_n_in_point(point)
    }
}

} // verus!
