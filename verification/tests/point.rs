use triangle_mesh_filler::control_points::ControlPoints;
use triangle_mesh_filler::fixed::ONE;
use triangle_mesh_filler::point::{PData, Point};
use triangle_mesh_filler::rotations::Rotations;
use triangle_mesh_filler::vector::{Mat3, Vec3};

fn grid(bump: i64) -> ControlPoints {
    let mut lines = Vec::new();
    for i in 0..4i64 {
        for j in 0..4i64 {
            let z = if (i == 1 || i == 2) && (j == 1 || j == 2) { bump } else { 0 };
            lines.push(vec![i * 100 * ONE - 150 * ONE, j * 100 * ONE - 150 * ONE, z]);
        }
    }
    ControlPoints::from_lines(&lines).unwrap()
}

#[test]
fn corners_of_the_patch_are_the_corner_control_points() {
    let cp = grid(50 * ONE);
    for (u, v, row, col) in [(0, 0, 0, 0), (0, ONE, 0, 3), (ONE, 0, 3, 0), (ONE, ONE, 3, 3)] {
        let point = Point::from_control_points(u, v, &cp);
        assert_eq!(point.before_rotation().p(), cp.at(row, col));
        assert_eq!(point.u(), u);
        assert_eq!(point.v(), v);
    }
}

#[test]
fn corners_of_an_uneven_grid_are_reproduced() {
    let mut lines = Vec::new();
    for k in 0..16i64 {
        lines.push(vec![k * k * 1_234_567 - 77, -k * 9_999_999 + 5, (k % 5) * 3_141_592]);
    }
    let cp = ControlPoints::from_lines(&lines).unwrap();
    assert_eq!(Point::from_control_points(0, 0, &cp).before_rotation().p(), cp.get(0));
    assert_eq!(Point::from_control_points(0, ONE, &cp).before_rotation().p(), cp.get(3));
    assert_eq!(Point::from_control_points(ONE, 0, &cp).before_rotation().p(), cp.get(12));
    assert_eq!(Point::from_control_points(ONE, ONE, &cp).before_rotation().p(), cp.get(15));
}

#[test]
fn flat_patch_has_the_axes_as_tangents_and_normal() {
    let cp = grid(0);
    let point = Point::from_control_points(250_000, 750_000, &cp);
    let data = point.before_rotation();
    assert_eq!(data.p(), Vec3::new(-75 * ONE, 75 * ONE, 0));
    assert_eq!(data.pu(), Vec3::new(ONE, 0, 0));
    assert_eq!(data.pv(), Vec3::new(0, ONE, 0));
    assert_eq!(data.n(), Vec3::new(0, 0, ONE));
    assert_eq!(point.after_rotation(), point.before_rotation());
}

#[test]
fn curved_patch_is_evaluated_exactly() {
    let cp = grid(50 * ONE);
    let middle = Point::from_control_points(ONE / 2, ONE / 2, &cp);
    assert_eq!(middle.before_rotation().p(), Vec3::new(0, 0, 28_125_000));
    assert_eq!(middle.before_rotation().n(), Vec3::new(0, 0, ONE));
    let point = Point::from_control_points(250_000, 750_000, &cp);
    let data = point.before_rotation();
    assert_eq!(data.p(), Vec3::new(-75_000_000, 75_000_000, 15_820_312));
    assert_eq!(data.pu(), Vec3::new(990_256, 0, 139_254));
    assert_eq!(data.pv(), Vec3::new(0, 990_256, -139_255));
    assert_eq!(data.n(), Vec3::new(-137_925, 137_924, 980_792));
}

#[test]
fn rotating_by_zero_angles_changes_nothing() {
    let cp = grid(50 * ONE);
    let rotation = Rotations::create_surface_rotation(0, ONE, 0, ONE);
    assert_eq!(rotation, Mat3::identity());
    for (u, v) in [(0, 0), (250_000, 750_000), (333_333, 666_667), (ONE, ONE / 2), (1, 999_999)] {
        let mut point = Point::from_control_points(u, v, &cp);
        let before = *point.before_rotation();
        point.apply_rotation(&rotation);
        assert_eq!(*point.after_rotation(), before);
        assert_eq!(*point.before_rotation(), before);
    }
}

#[test]
fn rotation_turns_position_tangents_and_normal() {
    let cp = grid(50 * ONE);
    // alfa = 30 degrees, beta = 10 degrees
    let rotation = Rotations::create_surface_rotation(500_000, 866_025, 173_648, 984_807);
    assert_eq!(
        rotation,
        Mat3 {
            r0: Vec3::new(866_025, -500_000, 0),
            r1: Vec3::new(492_403, 852_867, -173_648),
            r2: Vec3::new(86_824, 150_383, 984_807),
        }
    );
    let mut point = Point::from_control_points(250_000, 750_000, &cp);
    point.apply_rotation(&rotation);
    let after = point.after_rotation();
    assert_eq!(after.p(), Vec3::new(-102_451_875, 24_287_634, 20_346_878));
    assert_eq!(after.pu(), Vec3::new(857_586, 463_423, 223_116));
    assert_eq!(after.pv(), Vec3::new(-495_128, 868_738, 11_778));
    assert_eq!(after.n(), Vec3::new(-188_409, -120_597, 974_657));
    assert_eq!(point.before_rotation().p(), Vec3::new(-75_000_000, 75_000_000, 15_820_312));
}

#[test]
fn single_rotations_have_the_usual_entries() {
    assert_eq!(
        Rotations::create_x_rotation_matrix(600_000, 800_000),
        Mat3 { r0: Vec3::new(ONE, 0, 0), r1: Vec3::new(0, 800_000, -600_000), r2: Vec3::new(0, 600_000, 800_000) }
    );
    assert_eq!(
        Rotations::create_z_rotation_matrix(600_000, 800_000),
        Mat3 { r0: Vec3::new(800_000, -600_000, 0), r1: Vec3::new(600_000, 800_000, 0), r2: Vec3::new(0, 0, ONE) }
    );
}

#[test]
fn point_data_is_scaled_added_and_normalized() {
    let d = PData::new(Vec3::new(2 * ONE, 0, 0), Vec3::new(0, 4 * ONE, 0), Vec3::new(0, 0, 6), Vec3::zero());
    let half = d.mul(ONE / 2);
    assert_eq!(half, PData::new(Vec3::new(ONE, 0, 0), Vec3::new(0, 2 * ONE, 0), Vec3::new(0, 0, 3), Vec3::zero()));
    let mut sum = PData::zero();
    sum.add_assign(half);
    sum.add_assign(half);
    assert_eq!(sum.pv(), Vec3::new(0, 0, 6));
    sum.normalize_all();
    assert_eq!(sum, PData::new(Vec3::new(2 * ONE, 0, 0), Vec3::new(0, ONE, 0), Vec3::new(0, 0, ONE), Vec3::zero()));

    let point = Point { before_rotation: d, after_rotation: half, u: ONE, v: ONE / 2 };
    let scaled = point.mul(ONE / 2);
    assert_eq!(scaled.u(), ONE / 2);
    assert_eq!(scaled.v(), ONE / 4);
    assert_eq!(*scaled.before_rotation(), half);
    let mut total = Point::zero();
    total.add_assign(scaled);
    total.add_assign(scaled);
    assert_eq!(total.u(), ONE);
    assert_eq!(*total.before_rotation(), sum_of(half, half));
    total.normalize_all();
    assert_eq!(total.before_rotation().pu(), Vec3::new(0, ONE, 0));
    assert_eq!(total.after_rotation().pu(), Vec3::new(0, ONE, 0));
}

fn sum_of(a: PData, b: PData) -> PData {
    let mut s = a;
    s.add_assign(b);
    s
}
