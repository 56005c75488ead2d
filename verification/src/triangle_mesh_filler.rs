//! The state of the scene from one frame to the next: the settings, the
//! control points, the mesh, the light and the textures.

use vstd::prelude::*;
use crate::color::Rgba;
use crate::colors_manager::ColorsManager;
use crate::control_points::{ControlPoints, LoadError};
use crate::fixed::{ONE, within};
use crate::light_source::LightSource;
use crate::mesh::{Mesh, is_grid_triangle};
use crate::polygon_filler::{Pixel, PolygonFiller};
use crate::scan::covered_pixels;
use crate::rotations::Rotations;
use crate::texture_loader::TextureLoader;
use crate::triangle::Triangle;
use crate::vector::{Mat3, Matrix};

verus! {

/// The largest accuracy of the triangulation. It is set by the index of a
/// triangle: twice the square of the accuracy has to fit a `usize` of 32
/// bits.
pub const ACCURACY_MAX: usize = 32_767;

/// What the controls are set to.
#[derive(Debug, PartialEq, Eq, Structural, Clone, Copy)]
pub struct ControlsState {
    pub triangulation_accuracy: usize,
    /// The spin about the Z axis, in degrees.
    pub alfa: i64,
    /// The tilt about the X axis, in degrees.
    pub beta: i64,
    pub show_mesh: bool,
    pub kd: i64,
    pub ks: i64,
    pub m: u8,
    pub shape_color: Rgba,
    pub show_light_source: bool,
    pub run_animation: bool,
    pub use_normal_map: bool,
}

impl ControlsState {
    /// The settings as they are when the program starts.
    pub open spec fn initial() -> ControlsState {
        ControlsState {
            triangulation_accuracy: 5,
            alfa: 0,
            beta: 0,
            show_mesh: false,
            kd: 500_000,
            ks: 500_000,
            m: 50,
            shape_color: Rgba { r: 160, g: 160, b: 160, a: 255 },
            show_light_source: false,
            run_animation: true,
            use_normal_map: false,
        }
    }

    /// The accuracy is at least two and at most `ACCURACY_MAX`, and `kd` and
    /// `ks` lie between zero and one.
    pub open spec fn wf(&self) -> bool {
        &&& 2 <= self.triangulation_accuracy <= ACCURACY_MAX
        &&& 0 <= self.kd <= ONE
        &&& 0 <= self.ks <= ONE
    }

    pub fn triangulation_accuracy(&self) -> (r: usize)
        ensures
            r == self.triangulation_accuracy,
    {
        self.triangulation_accuracy
    }

    pub fn alfa(&self) -> (r: i64)
        ensures
            r == self.alfa,
    {
        self.alfa
    }

    pub fn beta(&self) -> (r: i64)
        ensures
            r == self.beta,
    {
        self.beta
    }

    pub fn show_mesh(&self) -> (r: bool)
        ensures
            r == self.show_mesh,
    {
        self.show_mesh
    }

    pub fn kd(&self) -> (r: i64)
        ensures
            r == self.kd,
    {
        self.kd
    }

    pub fn ks(&self) -> (r: i64)
        ensures
            r == self.ks,
    {
        self.ks
    }

    pub fn m(&self) -> (r: u8)
        ensures
            r == self.m,
    {
        self.m
    }

    pub fn shape_color(&self) -> (r: Rgba)
        ensures
            r == self.shape_color,
    {
        self.shape_color
    }

    pub fn show_light_source(&self) -> (r: bool)
        ensures
            r == self.show_light_source,
    {
        self.show_light_source
    }

    pub fn run_animation(&self) -> (r: bool)
        ensures
            r == self.run_animation,
    {
        self.run_animation
    }

    pub fn use_normal_map(&self) -> (r: bool)
        ensures
            r == self.use_normal_map,
    {
        self.use_normal_map
    }
}

impl Default for ControlsState {
    fn default() -> (r: Self)
        ensures
            r == ControlsState::initial(),
            r.wf(),
    {
        ControlsState {
            triangulation_accuracy: 5,
            alfa: 0,
            beta: 0,
            show_mesh: false,
            kd: 500_000,
            ks: 500_000,
            m: 50,
            shape_color: Rgba { r: 160, g: 160, b: 160, a: 255 },
            show_light_source: false,
            run_animation: true,
            use_normal_map: false,
        }
    }
}

/// The scene: what is drawn, and what has to be computed anew before the
/// next frame.
pub struct TriangleMeshFiller {
    pub controls_state: ControlsState,
    pub previous_controls_state: ControlsState,
    pub need_mesh_recalculation: bool,
    pub control_points: ControlPoints,
    pub mesh: Mesh,
    pub light_source: LightSource,
    pub texture_loader: TextureLoader,
    pub normal_map_loader: TextureLoader,
}

impl TriangleMeshFiller {
    /// Every part of the scene is well formed.
    pub open spec fn wf(&self) -> bool {
        &&& self.controls_state.wf()
        &&& self.control_points.wf()
        &&& self.mesh.wf()
        &&& self.light_source.wf()
        &&& self.texture_loader.wf()
        &&& self.normal_map_loader.wf()
    }

    /// The filler that the scene is drawn with.
    pub open spec fn filler(&self) -> PolygonFiller {
        PolygonFiller {
            all_points: &self.mesh.grid(),
            light_source: &self.light_source,
            colors_manager: ColorsManager {
                base_color: self.controls_state.shape_color,
                texture_loader: &self.texture_loader,
                normal_map_loader: &self.normal_map_loader,
            },
            kd: self.controls_state.kd,
            ks: self.controls_state.ks,
            m: self.controls_state.m,
            use_normal_map: self.controls_state.use_normal_map,
        }
    }

    /// The pixels of the first `count` triangles of the mesh, one triangle
    /// after the other.
    pub open spec fn rendered(&self, count: nat) -> Seq<Pixel>
        decreases count,
    {
        if count == 0 {
            Seq::empty()
        } else {
            let polygon = self.mesh.triangle_list()[count - 1]@;
            self.rendered((count - 1) as nat) + self.filler().painted_all(
                polygon,
                covered_pixels(self.filler().corner_positions(polygon)),
            )
        }
    }

    /// The scene for the control points in the text of a file, with the
    /// settings and the light as they are when the program starts. The
    /// surface is not rotated yet.
    pub fn load_from_file(file: &[u8]) -> (r: Result<Self, LoadError>)
        ensures
            match r {
                Ok(scene) => {
                    &&& scene.wf()
                    &&& ControlPoints::from_lines_spec(crate::control_file::text_numbers(file@)) matches Ok(points)
                    &&& scene.control_points@ == points
                    &&& scene.controls_state == ControlsState::initial()
                    &&& scene.previous_controls_state == ControlsState::initial()
                    &&& scene.need_mesh_recalculation
                    &&& scene.light_source == LightSource::initial()
                    &&& scene.texture_loader.texture().is_none()
                    &&& scene.normal_map_loader.texture().is_none()
                    &&& scene.mesh_is(Matrix::identity())
                },
                Err(e) => ControlPoints::from_lines_spec(crate::control_file::text_numbers(file@)) == Err::<
                    Seq<crate::vector::Vector>,
                    LoadError,
                >(e),
            },
    {
        let controls_state = ControlsState::default();
        let control_points = match ControlPoints::load_from_file(file) {
            Ok(control_points) => control_points,
            Err(e) => {
                return Err(e);
            },
        };
        proof {
            crate::rotations::lemma_zero_angles();
        }
        let rotation: Mat3 = Rotations::create_surface_rotation(0, ONE, 0, ONE);
        let mesh = Mesh::triangulation(&control_points, controls_state.triangulation_accuracy(), &rotation);
        let light_source = LightSource::new(400_000_000, Rgba::from_rgb(144, 238, 144), 100_000_000);
        let texture_loader = TextureLoader::new();
        let normal_map_loader = TextureLoader::new();
        Ok(
            Self {
                control_points,
                mesh,
                previous_controls_state: controls_state,
                controls_state,
                light_source,
                texture_loader,
                normal_map_loader,
                need_mesh_recalculation: true,
            },
        )
    }

    /// The mesh is the patch sampled with the accuracy of the settings and
    /// rotated by `rotation`.
    pub open spec fn mesh_is(&self, rotation: Matrix) -> bool {
        let n = self.controls_state.triangulation_accuracy;
        &&& self.mesh.grid().rows() == n
        &&& self.mesh.grid().cols() == n
        &&& forall|i: int, j: int|
            0 <= i < n && 0 <= j < n ==> (#[trigger] self.mesh.grid().point(i, j))@ == crate::mesh::mesh_point(
                self.control_points@,
                rotation,
                i,
                j,
                n as int,
            )
    }

    /// Computes the mesh anew if the settings have changed since it was
    /// computed. `rotation` is the rotation that the angles of the settings
    /// give.
    pub fn recalculate_mesh(&mut self, rotation: &Mat3)
        requires
            old(self).wf(),
            rotation@.bounded(ONE as int),
        ensures
            final(self).wf(),
            !final(self).need_mesh_recalculation,
            old(self).need_mesh_recalculation ==> final(self).mesh_is(rotation@),
            !old(self).need_mesh_recalculation ==> final(self).mesh == old(self).mesh,
            final(self).controls_state == old(self).controls_state,
            final(self).previous_controls_state == old(self).previous_controls_state,
            final(self).control_points == old(self).control_points,
            final(self).light_source == old(self).light_source,
            final(self).texture_loader == old(self).texture_loader,
            final(self).normal_map_loader == old(self).normal_map_loader,
    {
        if self.need_mesh_recalculation {
            assert(2 * (self.controls_state.triangulation_accuracy * self.controls_state.triangulation_accuracy)
                <= 2 * (32_767 * 32_767)) by (nonlinear_arith)
                requires
                    self.controls_state.triangulation_accuracy <= 32_767,
            ;
            let new_mesh = Mesh::triangulation(&self.control_points, self.controls_state.triangulation_accuracy(), rotation);
            self.mesh = new_mesh;
            self.need_mesh_recalculation = false;
        }
    }

    /// Notes whether the settings have changed since they were looked at
    /// last: if so, the mesh has to be computed anew.
    pub fn track_controls(&mut self) -> (values_changed: bool)
        ensures
            values_changed == (old(self).controls_state != old(self).previous_controls_state),
            final(self).need_mesh_recalculation == (old(self).need_mesh_recalculation || values_changed),
            final(self).previous_controls_state == old(self).controls_state,
            final(self).controls_state == old(self).controls_state,
            final(self).control_points == old(self).control_points,
            final(self).mesh == old(self).mesh,
            final(self).light_source == old(self).light_source,
            final(self).texture_loader == old(self).texture_loader,
            final(self).normal_map_loader == old(self).normal_map_loader,
    {
        let values_changed: bool = self.controls_state != self.previous_controls_state;
        if values_changed {
            self.need_mesh_recalculation = true;
            self.previous_controls_state = self.controls_state;
        }
        values_changed
    }

    /// Moves the light along its curve to the moment with this sine and
    /// cosine, if the animation runs.
    pub fn animate(&mut self, sin_t: i64, cos_t: i64)
        requires
            old(self).wf(),
            within(sin_t as int, ONE as int),
            within(cos_t as int, ONE as int),
        ensures
            final(self).wf(),
            old(self).controls_state.run_animation ==> final(self).light_source.position@
                == crate::light_source::orbit_position(
                old(self).light_source.radius_base as int,
                sin_t as int,
                cos_t as int,
                old(self).light_source.position.z as int,
            ),
            !old(self).controls_state.run_animation ==> final(self).light_source.position == old(self).light_source.position,
            final(self).light_source.color == old(self).light_source.color,
            final(self).light_source.radius_base == old(self).light_source.radius_base,
            final(self).controls_state == old(self).controls_state,
            final(self).previous_controls_state == old(self).previous_controls_state,
            final(self).need_mesh_recalculation == old(self).need_mesh_recalculation,
            final(self).control_points == old(self).control_points,
            final(self).mesh == old(self).mesh,
            final(self).texture_loader == old(self).texture_loader,
            final(self).normal_map_loader == old(self).normal_map_loader,
    {
        if self.controls_state.run_animation() {
            self.light_source.update_position(sin_t, cos_t);
        }
    }

    /// The filler that the scene is drawn with.
    pub fn polygon_filler(&self) -> (r: PolygonFiller<'_, '_, '_, '_>)
        ensures
            r == self.filler(),
            self.wf() ==> r.wf(),
    {
        PolygonFiller::new(
            self.mesh.points(),
            &self.light_source,
            ColorsManager::new(self.controls_state.shape_color(), &self.texture_loader, &self.normal_map_loader),
            self.controls_state.kd(),
            self.controls_state.ks(),
            self.controls_state.m(),
            self.controls_state.use_normal_map(),
        )
    }

    /// The pixels of the surface with their colours: every triangle of the
    /// mesh is filled, one after the other.
    pub fn render(&self) -> (r: Vec<Pixel>)
        requires
            self.wf(),
        ensures
            r@ == self.rendered(self.mesh.triangle_list().len()),
    {
        let pf = self.polygon_filler();
        let triangles: &[Triangle] = self.mesh.triangles();
        let mut out: Vec<Pixel> = Vec::new();
        let mut i: usize = 0;
        while i < triangles.len()
            invariant
                i <= triangles@.len(),
                self.wf(),
                pf == self.filler(),
                triangles@ == self.mesh.triangle_list(),
                out@ == self.rendered(i as nat),
            decreases triangles@.len() - i,
        {
            let triangle: &Triangle = &triangles[i];
            let mut pf_clone = pf;
            proof {
                let n = self.mesh.grid().rows() as int;
                assert(is_grid_triangle(self.mesh.triangle_list()[i as int], i as int, n, n));
            }
            let mut filled: Vec<Pixel> = pf_clone.fill_polygon(triangle.vertices());
            out.append(&mut filled);
            i = i + 1;
        }
        out
    }
}

} // verus!
