use triangle_mesh_filler::fixed::ONE;
use triangle_mesh_filler::vector::{Mat3, Vec3};

#[test]
fn plus_minus_and_scaled_work_by_component() {
    let a = Vec3::new(1, 2, 3);
    let b = Vec3::new(10, 20, 30);
    assert_eq!(a.plus(b), Vec3::new(11, 22, 33));
    assert_eq!(b.minus(a), Vec3::new(9, 18, 27));
    assert_eq!(Vec3::new(2 * ONE, -4 * ONE, 1).scaled(ONE / 2), Vec3::new(ONE, -2 * ONE, 0));
    assert_eq!(Vec3::new(-1, 0, 0).scaled(ONE / 2), Vec3::new(-1, 0, 0));
}

#[test]
fn dot_and_cross_of_the_axes() {
    let x = Vec3::new(ONE, 0, 0);
    let y = Vec3::new(0, ONE, 0);
    let z = Vec3::new(0, 0, ONE);
    assert_eq!(x.dot(x), ONE);
    assert_eq!(x.dot(y), 0);
    assert_eq!(x.cross(y), z);
    assert_eq!(y.cross(z), x);
    assert_eq!(z.cross(x), y);
    assert_eq!(y.cross(x), Vec3::new(0, 0, -ONE));
    assert_eq!(Vec3::new(2 * ONE, 3 * ONE, 4 * ONE).dot(Vec3::new(ONE, ONE, ONE)), 9 * ONE);
    assert_eq!(Vec3::new(2, 3, 4).raw_dot(Vec3::new(5, 6, 7)), 56);
}

#[test]
fn normalize_gives_length_one() {
    assert_eq!(Vec3::new(3 * ONE, 4 * ONE, 0).normalize(), Vec3::new(600_000, 800_000, 0));
    assert_eq!(Vec3::new(0, 0, 17).normalize(), Vec3::new(0, 0, ONE));
    assert_eq!(Vec3::new(0, -5 * ONE, 0).normalize(), Vec3::new(0, -ONE, 0));
    // the length 1.414213 is rounded down, so the quotient 0.7071071 is a little large
    assert_eq!(Vec3::new(1, 1, 0).normalize(), Vec3::new(707_107, 707_107, 0));
    // rounding down moves a negative component away from zero
    assert_eq!(Vec3::new(-1, 1, 0).normalize(), Vec3::new(-707_108, 707_107, 0));
    assert_eq!(Vec3::new(3, -7, 11).normalize(), Vec3::new(224_230, -523_205, 822_178));
}

#[test]
fn normalize_keeps_the_zero_vector() {
    assert_eq!(Vec3::zero().normalize(), Vec3::zero());
}

#[test]
fn normalize_twice_is_normalize_once() {
    let samples = [
        Vec3::new(1, 1, 0),
        Vec3::new(-1, 1, 0),
        Vec3::new(3, -7, 11),
        Vec3::new(123_456_789, -987_654_321, 555),
        Vec3::new(1_000_000_000_000, 1_000_000_000_000, 1_000_000_000_000),
        Vec3::new(-1_000_000_000_000, 1, -1),
        Vec3::new(999_996, 0, 0),
        Vec3::new(999_995, 0, 0),
        Vec3::new(1_000_004, 0, 0),
        Vec3::new(1_000_005, 0, 0),
    ];
    for v in samples {
        let once = v.normalize();
        assert_eq!(once.normalize(), once);
    }
}

#[test]
fn normalize_leaves_a_vector_of_length_one_within_the_slack() {
    assert_eq!(Vec3::new(999_996, 0, 0).normalize(), Vec3::new(999_996, 0, 0));
    assert_eq!(Vec3::new(1_000_004, 0, 0).normalize(), Vec3::new(1_000_004, 0, 0));
    assert_eq!(Vec3::new(999_995, 0, 0).normalize(), Vec3::new(ONE, 0, 0));
    assert_eq!(Vec3::new(1_000_005, 0, 0).normalize(), Vec3::new(ONE, 0, 0));
}

#[test]
fn identity_matrix_moves_nothing() {
    let v = Vec3::new(123_456, -7, 9_999_999_999);
    assert_eq!(Mat3::identity().apply(v), v);
    let m = Mat3 { r0: Vec3::new(0, -ONE, 0), r1: Vec3::new(ONE, 0, 0), r2: Vec3::new(0, 0, ONE) };
    assert_eq!(Mat3::identity().times(&m), m);
    assert_eq!(m.times(&Mat3::identity()), m);
}

#[test]
fn quarter_turn_about_z() {
    let m = Mat3 { r0: Vec3::new(0, -ONE, 0), r1: Vec3::new(ONE, 0, 0), r2: Vec3::new(0, 0, ONE) };
    assert_eq!(m.apply(Vec3::new(5 * ONE, 0, 2 * ONE)), Vec3::new(0, 5 * ONE, 2 * ONE));
    let twice = m.times(&m);
    assert_eq!(twice.apply(Vec3::new(5 * ONE, ONE, 0)), Vec3::new(-5 * ONE, -ONE, 0));
}
