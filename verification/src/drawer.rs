//! Where things are drawn: from the coordinates of the surface to those of
//! the screen.

use vstd::prelude::*;
use crate::color::Rgba;
use crate::control_points::{CONTROL_POINTS_COUNT, ControlPoints};
use crate::fixed::{COORD_MAX, ONE, within};
use crate::mesh::{Mesh, Points2DArr};
use crate::point::POSITION_MAX;
use crate::polygon_filler::Pixel;
use crate::triangle::Triangle;
use crate::vector::{UNIT_MAX, Mat3, Vec3, lemma_apply_bounded};

verus! {

/// Maps the surface to the screen. The screen has its origin in a corner and
/// its Y axis pointing down; the surface is drawn around the centre of the
/// screen with its Y axis pointing up.
pub struct Drawer;

/// A place on the screen, in fixed-point pixels.
#[derive(Clone, Copy, Debug, PartialEq, Eq, Structural)]
pub struct ScreenPos {
    pub x: i64,
    pub y: i64,
}

/// A line from one place on the screen to another.
#[derive(Clone, Copy, Debug, PartialEq, Eq, Structural)]
pub struct Segment {
    pub start: ScreenPos,
    pub end: ScreenPos,
}

/// A square of one pixel with its upper left corner at `pos`.
#[derive(Clone, Copy, Debug, PartialEq, Eq, Structural)]
pub struct ScreenPixel {
    pub pos: ScreenPos,
    pub color: Rgba,
}

/// The place on the screen of the point `(x, y)` of the surface.
pub open spec fn to_screen(x: int, y: int, center: ScreenPos) -> (int, int) {
    (center.x + x, center.y - y)
}

/// The screen position stands for this pair of numbers.
pub open spec fn pos_is(pos: ScreenPos, at: (int, int)) -> bool {
    pos.x == at.0 && pos.y == at.1
}

/// The line from corner `k` of a triangle to the next corner, on the screen.
pub open spec fn triangle_side(points: Points2DArr, triangle: Triangle, k: int, center: ScreenPos) -> ((int, int), (int, int)) {
    let a = triangle@[k];
    let b = triangle@[(k + 1) % 3];
    let pa = points.point(a.row as int, a.col as int)@.after.p;
    let pb = points.point(b.row as int, b.col as int)@.after.p;
    (to_screen(pa.x, pa.y, center), to_screen(pb.x, pb.y, center))
}

/// The segment stands for this pair of places.
pub open spec fn segment_is(s: Segment, ends: ((int, int), (int, int))) -> bool {
    pos_is(s.start, ends.0) && pos_is(s.end, ends.1)
}

impl Drawer {
    /// The centre of the screen is not further out than `POSITION_MAX`.
    pub open spec fn center_ok(center: ScreenPos) -> bool {
        within(center.x as int, POSITION_MAX as int) && within(center.y as int, POSITION_MAX as int)
    }

    /// The place on the screen of a point of the surface.
    pub fn point_to_screen(point: &Vec3, screen_center: &ScreenPos) -> (r: ScreenPos)
        requires
            Drawer::center_ok(*screen_center),
            point@.bounded(POSITION_MAX as int),
        ensures
            pos_is(r, to_screen(point.x as int, point.y as int, *screen_center)),
    {
        let x: i64 = screen_center.x + point.x;
        let y: i64 = screen_center.y - point.y;
        ScreenPos { x, y }
    }

    /// The place on the screen of a place given relative to the centre.
    pub fn pos_to_screen(pos: &ScreenPos, screen_center: &ScreenPos) -> (r: ScreenPos)
        requires
            i64::MIN <= screen_center.x + pos.x <= i64::MAX,
            i64::MIN <= screen_center.y - pos.y <= i64::MAX,
        ensures
            pos_is(r, to_screen(pos.x as int, pos.y as int, *screen_center)),
    {
        let x: i64 = screen_center.x + pos.x;
        let y: i64 = screen_center.y - pos.y;
        ScreenPos { x, y }
    }

    /// Where the sixteen control points are drawn: each is rotated as the
    /// surface is, and mapped to the screen.
    pub fn draw_control_points(screen_center: &ScreenPos, control_points: &ControlPoints, rotation: &Mat3) -> (r: Vec<ScreenPos>)
        requires
            Drawer::center_ok(*screen_center),
            control_points.wf(),
            rotation@.bounded(ONE as int),
        ensures
            r@.len() == CONTROL_POINTS_COUNT,
            forall|k: int|
                0 <= k < CONTROL_POINTS_COUNT ==> {
                    let p = rotation@.apply(control_points@[k]);
                    pos_is(#[trigger] r@[k], to_screen(p.x, p.y, *screen_center))
                },
    {
        let mut r: Vec<ScreenPos> = Vec::new();
        let mut k: usize = 0;
        while k < CONTROL_POINTS_COUNT
            invariant
                k <= CONTROL_POINTS_COUNT,
                Drawer::center_ok(*screen_center),
                control_points.wf(),
                rotation@.bounded(ONE as int),
                r@.len() == k,
                forall|t: int|
                    0 <= t < k ==> {
                        let p = rotation@.apply(control_points@[t]);
                        pos_is(#[trigger] r@[t], to_screen(p.x, p.y, *screen_center))
                    },
            decreases CONTROL_POINTS_COUNT - k,
        {
            let c: Vec3 = control_points.get(k);
            proof {
                lemma_apply_bounded(rotation@, c@, COORD_MAX as int);
            }
            let control_point: Vec3 = rotation.apply(c);
            let position: ScreenPos = Self::point_to_screen(&control_point, screen_center);
            r.push(position);
            k = k + 1;
        }
        r
    }

    /// The lines of the wireframe: the three sides of every triangle, one
    /// triangle after the other.
    pub fn draw_mesh(screen_center: &ScreenPos, mesh: &Mesh) -> (r: Vec<Segment>)
        requires
            Drawer::center_ok(*screen_center),
            mesh.wf(),
        ensures
            r@.len() == 3 * mesh.triangle_list().len(),
            forall|t: int, k: int|
                0 <= t < mesh.triangle_list().len() && 0 <= k < 3 ==> segment_is(
                    #[trigger] r@[3 * t + k],
                    triangle_side(mesh.grid(), mesh.triangle_list()[t], k, *screen_center),
                ),
    {
        let triangles: &[Triangle] = mesh.triangles();
        let points: &Points2DArr = mesh.points();
        let mut r: Vec<Segment> = Vec::new();
        let mut i: usize = 0;
        while i < triangles.len()
            invariant
                i <= triangles@.len(),
                Drawer::center_ok(*screen_center),
                mesh.wf(),
                triangles@ == mesh.triangle_list(),
                *points == mesh.grid(),
                r@.len() == 3 * i,
                forall|t: int, k: int|
                    0 <= t < i && 0 <= k < 3 ==> segment_is(
                        #[trigger] r@[3 * t + k],
                        triangle_side(*points, triangles@[t], k, *screen_center),
                    ),
            decreases triangles@.len() - i,
        {
            let triangle: &Triangle = &triangles[i];
            proof {
                assert(crate::mesh::is_grid_triangle(mesh.triangle_list()[i as int], i as int, points.rows() as int, points.rows() as int));
            }
            let sides: Vec<Segment> = Self::draw_triangle(screen_center, triangle, points);
            let ghost before = r@;
            r.push(sides[0]);
            r.push(sides[1]);
            r.push(sides[2]);
            proof {
                assert forall|t: int, k: int| 0 <= t < i + 1 && 0 <= k < 3 implies segment_is(
                    #[trigger] r@[3 * t + k],
                    triangle_side(*points, triangles@[t], k, *screen_center),
                ) by {
                    if t < i {
                        assert(r@[3 * t + k] == before[3 * t + k]);
                    } else {
                        assert(r@[3 * t + k] == sides@[k]);
                    }
                }
            }
            i = i + 1;
        }
        r
    }

    /// The three sides of a triangle on the screen.
    pub fn draw_triangle(screen_center: &ScreenPos, triangle: &Triangle, points: &Points2DArr) -> (r: Vec<Segment>)
        requires
            Drawer::center_ok(*screen_center),
            points.wf(),
            points.bounded(3 * COORD_MAX, UNIT_MAX as int),
            triangle@.len() == 3,
            triangle.in_grid(points.rows() as int, points.cols() as int),
        ensures
            r@.len() == 3,
            forall|k: int| 0 <= k < 3 ==> segment_is(#[trigger] r@[k], triangle_side(*points, *triangle, k, *screen_center)),
    {
        let vertices = triangle.vertices();
        let mut r: Vec<Segment> = Vec::new();
        let mut id: usize = 0;
        while id < 3
            invariant
                id <= 3,
                Drawer::center_ok(*screen_center),
                points.wf(),
                points.bounded(3 * COORD_MAX, UNIT_MAX as int),
                vertices@ == triangle@,
                triangle@.len() == 3,
                triangle.in_grid(points.rows() as int, points.cols() as int),
                r@.len() == id,
                forall|k: int| 0 <= k < id ==> segment_is(#[trigger] r@[k], triangle_side(*points, *triangle, k, *screen_center)),
            decreases 3 - id,
        {
            let next_id: usize = (id + 1) % 3;
            let start_ids = vertices[id];
            let end_ids = vertices[next_id];
            proof {
                assert(triangle@[id as int].row < points.rows());
                assert(triangle@[next_id as int].row < points.rows());
                assert(points.point(start_ids.row as int, start_ids.col as int)@.bounded(3 * COORD_MAX, UNIT_MAX as int, ONE as int));
                assert(points.point(end_ids.row as int, end_ids.col as int)@.bounded(3 * COORD_MAX, UNIT_MAX as int, ONE as int));
            }
            let start = points.at(start_ids.row, start_ids.col);
            let end = points.at(end_ids.row, end_ids.col);
            let start_position: ScreenPos = Self::point_to_screen(&start.after_rotation().p(), screen_center);
            let end_position: ScreenPos = Self::point_to_screen(&end.after_rotation().p(), screen_center);
            r.push(Segment { start: start_position, end: end_position });
            id = id + 1;
        }
        r
    }

    /// The square on the screen that a filled pixel is painted as.
    pub fn paint_pixel(screen_center: &ScreenPos, pixel: &Pixel) -> (r: ScreenPixel)
        requires
            Drawer::center_ok(*screen_center),
            within(pixel.x as int, POSITION_MAX as int),
            within(pixel.y as int, POSITION_MAX as int),
        ensures
            pos_is(r.pos, to_screen(pixel.x * ONE, pixel.y * ONE, *screen_center)),
            r.color == pixel.color,
    {
        assert(within(pixel.x * ONE, POSITION_MAX * ONE) && within(pixel.y * ONE, POSITION_MAX * ONE)) by (nonlinear_arith)
            requires
                within(pixel.x as int, POSITION_MAX as int),
                within(pixel.y as int, POSITION_MAX as int),
        ;
        assert(POSITION_MAX * ONE == 1_000_000_000_000_000_000);
        let position = ScreenPos { x: pixel.x * ONE, y: pixel.y * ONE };
        let pos: ScreenPos = Self::pos_to_screen(&position, screen_center);
        ScreenPixel { pos, color: pixel.color }
    }
}

} // verus!
