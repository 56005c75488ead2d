use triangle_mesh_filler::control_points::ControlPoints;
use triangle_mesh_filler::fixed::ONE;
use triangle_mesh_filler::mesh::{Mesh, Points2DArr, PosIn2DArr};
use triangle_mesh_filler::point::Point;
use triangle_mesh_filler::rotations::Rotations;
use triangle_mesh_filler::triangle::Triangle;
use triangle_mesh_filler::vector::{Mat3, Vec3};

fn pos(row: usize, col: usize) -> PosIn2DArr {
    PosIn2DArr { row, col }
}

fn flat_grid() -> ControlPoints {
    let mut lines = Vec::new();
    for i in 0..4i64 {
        for j in 0..4i64 {
            lines.push(vec![i * 100 * ONE - 150 * ONE, j * 100 * ONE - 150 * ONE, 0]);
        }
    }
    ControlPoints::from_lines(&lines).unwrap()
}

#[test]
fn triangle_keeps_its_corners() {
    let t = Triangle::new([pos(0, 1), pos(0, 0), pos(1, 0)]);
    let v = t.vertices();
    assert_eq!(v.len(), 3);
    assert_eq!(v[0], pos(0, 1));
    assert_eq!(v[1], pos(0, 0));
    assert_eq!(v[2], pos(1, 0));
}

#[test]
fn grid_index_is_row_major() {
    let g = Points2DArr::new(3, 5);
    assert_eq!(g.rows(), 3);
    assert_eq!(g.cols(), 5);
    assert_eq!(g.get_index(0, 0), 0);
    assert_eq!(g.get_index(2, 4), 14);
    assert_eq!(g.get_index(1, 2), 7);
}

#[test]
fn grid_starts_with_zero_points_and_keeps_what_is_set() {
    let mut g = Points2DArr::new(2, 3);
    for i in 0..2 {
        for j in 0..3 {
            assert_eq!(*g.at(i, j), Point::zero());
        }
    }
    let mut p = Point::zero();
    p.u = 7;
    p.after_rotation.p = Vec3::new(1, 2, 3);
    g.set_at(1, 2, p);
    assert_eq!(*g.at(1, 2), p);
    assert_eq!(*g.at_pos(pos(1, 2)), p);
    assert_eq!(*g.at(1, 1), Point::zero());
    assert_eq!(*g.at(0, 2), Point::zero());
    assert_eq!(g.rows(), 2);
    assert_eq!(g.cols(), 3);
}

#[test]
fn empty_grid_has_no_points() {
    let g = Points2DArr::new(0, 4);
    assert_eq!(g.rows(), 0);
    assert_eq!(g.cols(), 4);
    let h = Points2DArr::new(1, 0);
    assert_eq!(Mesh::generate_triangles(&h).len(), 0);
}

#[test]
fn two_triangles_for_every_cell() {
    for n in [2usize, 3, 5, 8, 13] {
        let mesh = Mesh::triangulation(&flat_grid(), n, &Mat3::identity());
        assert_eq!(mesh.triangles().len(), 2 * (n - 1) * (n - 1));
        assert_eq!(mesh.points().rows(), n);
        assert_eq!(mesh.points().cols(), n);
        for t in mesh.triangles() {
            let v = t.vertices();
            assert_eq!(v.len(), 3);
            assert!(v[0] != v[1] && v[0] != v[2] && v[1] != v[2]);
            for corner in v {
                assert!(corner.row < n && corner.col < n);
            }
        }
    }
}

#[test]
fn cells_are_split_along_the_same_diagonal() {
    let grid = Points2DArr::new(3, 3);
    let triangles = Mesh::generate_triangles(&grid);
    assert_eq!(triangles.len(), 8);
    assert_eq!(triangles[0].vertices(), &[pos(0, 1), pos(0, 0), pos(1, 0)]);
    assert_eq!(triangles[1].vertices(), &[pos(0, 1), pos(1, 1), pos(1, 0)]);
    assert_eq!(triangles[2].vertices(), &[pos(0, 2), pos(0, 1), pos(1, 1)]);
    assert_eq!(triangles[3].vertices(), &[pos(0, 2), pos(1, 2), pos(1, 1)]);
    assert_eq!(triangles[4].vertices(), &[pos(1, 1), pos(1, 0), pos(2, 0)]);
    assert_eq!(triangles[7].vertices(), &[pos(1, 2), pos(2, 2), pos(2, 1)]);
}

#[test]
fn uneven_grid_is_split_too() {
    let grid = Points2DArr::new(2, 4);
    let triangles = Mesh::generate_triangles(&grid);
    assert_eq!(triangles.len(), 6);
    assert_eq!(triangles[5].vertices(), &[pos(0, 3), pos(1, 3), pos(1, 2)]);
    assert_eq!(Mesh::generate_triangles(&Points2DArr::new(1, 7)).len(), 0);
}

#[test]
fn samples_are_spread_evenly_and_rotated() {
    let cp = flat_grid();
    // a quarter turn about the Z axis
    let rotation = Rotations::create_surface_rotation(ONE, 0, 0, ONE);
    let mesh = Mesh::triangulation(&cp, 5, &rotation);
    let points = mesh.points();
    for i in 0..5usize {
        for j in 0..5usize {
            let p = points.at(i, j);
            assert_eq!(p.u(), (i as i64) * ONE / 4);
            assert_eq!(p.v(), (j as i64) * ONE / 4);
            let expected = Point::from_control_points(p.u(), p.v(), &cp);
            assert_eq!(p.before_rotation(), expected.before_rotation());
            let x = (i as i64) * 75 * ONE - 150 * ONE;
            let y = (j as i64) * 75 * ONE - 150 * ONE;
            assert_eq!(p.before_rotation().p(), Vec3::new(x, y, 0));
            assert_eq!(p.after_rotation().p(), Vec3::new(-y, x, 0));
            assert_eq!(p.after_rotation().pu(), Vec3::new(0, ONE, 0));
            assert_eq!(p.after_rotation().pv(), Vec3::new(-ONE, 0, 0));
            assert_eq!(p.after_rotation().n(), Vec3::new(0, 0, ONE));
        }
    }
    let coarse = Mesh::generate_points(&cp, 7, &Mat3::identity());
    assert_eq!(coarse.at(1, 6).u(), 166_666);
    assert_eq!(coarse.at(5, 6).u(), 833_333);
    assert_eq!(coarse.at(6, 0).u(), ONE);
}
