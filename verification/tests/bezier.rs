use triangle_mesh_filler::bezier::{cubic_basis, patch_sum_of, quadratic_basis};
use triangle_mesh_filler::fixed::ONE;

#[test]
fn cubic_basis_at_the_ends_and_in_the_middle() {
    assert_eq!(cubic_basis(0), vec![ONE, 0, 0, 0]);
    assert_eq!(cubic_basis(ONE), vec![0, 0, 0, ONE]);
    assert_eq!(cubic_basis(ONE / 2), vec![125_000, 375_000, 375_000, 125_000]);
    assert_eq!(cubic_basis(ONE / 4), vec![421_875, 421_875, 140_625, 15_625]);
}

#[test]
fn quadratic_basis_at_the_ends_and_in_the_middle() {
    assert_eq!(quadratic_basis(0), vec![ONE, 0, 0]);
    assert_eq!(quadratic_basis(ONE), vec![0, 0, ONE]);
    assert_eq!(quadratic_basis(ONE / 2), vec![250_000, 500_000, 250_000]);
    assert_eq!(quadratic_basis(333_333), vec![444_444, 444_444, 111_110]);
}

#[test]
fn basis_values_add_up_to_at_most_one() {
    for k in 0..=1000i64 {
        let u = k * 1000 + (k % 7);
        let u = if u > ONE { ONE } else { u };
        let c: i64 = cubic_basis(u).iter().sum();
        let q: i64 = quadratic_basis(u).iter().sum();
        assert!(ONE - 3 <= c && c <= ONE);
        assert!(ONE - 2 <= q && q <= ONE);
    }
}

#[test]
fn patch_sum_weighs_rows_and_columns() {
    let vals = vec![1, 2, 3, 4, 5, 6];
    let wu = vec![10, 100];
    let wv = vec![1, 2, 3];
    // (1*1 + 2*2 + 3*3) * 10 + (4*1 + 5*2 + 6*3) * 100
    assert_eq!(patch_sum_of(&vals, &wu, &wv), 140 + 3200);
    assert_eq!(patch_sum_of(&Vec::new(), &Vec::new(), &wv), 0);
}
