use std::collections::BTreeSet;
use triangle_mesh_filler::fixed::ONE;
use triangle_mesh_filler::active_edge_table::{AET, AETData, PixelPos, scanline_of};
use triangle_mesh_filler::scan::{check_point, scan_polygon, sorted_vertex_indices};
use triangle_mesh_filler::vector::Vec3;

fn vertex(x: i64, y: i64) -> Vec3 {
    Vec3::new(x * ONE, y * ONE, 0)
}

fn pixel_set(pixels: &[PixelPos]) -> BTreeSet<(i64, i64)> {
    pixels.iter().map(|p| (p.x, p.y)).collect()
}

fn row(pixels: &[PixelPos], y: i64) -> Vec<i64> {
    pixels.iter().filter(|p| p.y == y).map(|p| p.x).collect()
}

#[test]
fn right_triangle_covers_the_reference_set_and_one_column_more() {
    // Every scanline is filled with the crossings of the scanline before, so
    // the rows above the first reach one pixel further than the triangle.
    let triangle = vec![vertex(0, 0), vertex(10, 0), vertex(0, 10)];
    let got = pixel_set(&scan_polygon(&triangle));
    let mut reference = BTreeSet::new();
    let mut expected = BTreeSet::new();
    for y in 0..=10i64 {
        for x in 0..=10i64 {
            if x + y <= 10 {
                reference.insert((x, y));
            }
            if y == 0 || x + y <= 11 {
                expected.insert((x, y));
            }
        }
    }
    assert!(reference.is_subset(&got));
    assert_eq!(got, expected);
    let extra: Vec<(i64, i64)> = got.difference(&reference).cloned().collect();
    let mut shifted: Vec<(i64, i64)> = (1..=10i64).map(|y| (11 - y, y)).collect();
    shifted.sort();
    assert_eq!(extra, shifted);
}

#[test]
fn right_triangle_is_filled_row_by_row() {
    let triangle = vec![vertex(0, 0), vertex(10, 0), vertex(0, 10)];
    let pixels = scan_polygon(&triangle);
    // the bottom edge is met from both of its ends
    assert_eq!(pixels.len(), 22 + (2..=11).sum::<usize>());
    let bottom: Vec<i64> = (0..=10).chain(0..=10).collect();
    assert_eq!(row(&pixels, 0), bottom);
    assert_eq!(row(&pixels, 1), (0..=10).collect::<Vec<i64>>());
    assert_eq!(row(&pixels, 5), (0..=6).collect::<Vec<i64>>());
    assert_eq!(row(&pixels, 10), vec![0, 1]);
    assert!(row(&pixels, 11).is_empty());
    assert!(row(&pixels, -1).is_empty());
    // rows come in ascending order
    let ys: Vec<i64> = pixels.iter().skip(22).map(|p| p.y).collect();
    let mut sorted = ys.clone();
    sorted.sort();
    assert_eq!(ys, sorted);
}

#[test]
fn only_whole_columns_between_the_crossings_are_filled() {
    // crossings at 0.5 and 2.5 on the first scanline above the vertices
    let polygon = vec![
        Vec3::new(ONE / 2, 0, 0),
        Vec3::new(5 * ONE / 2, 0, 0),
        Vec3::new(5 * ONE / 2, 3 * ONE, 0),
        Vec3::new(ONE / 2, 3 * ONE, 0),
    ];
    let pixels = scan_polygon(&polygon);
    assert_eq!(row(&pixels, 1), vec![1, 2]);
    assert_eq!(row(&pixels, 3), vec![1, 2]);
    assert_eq!(row(&pixels, 0), vec![1, 2, 1, 2]);
}

#[test]
fn triangle_below_zero_uses_the_scanline_that_holds_each_height() {
    // heights -2.5, -0.5 and 1.5 lie on the scanlines -3, -1 and 1
    assert_eq!(scanline_of(-5 * ONE / 2), -3);
    assert_eq!(scanline_of(-ONE / 2), -1);
    assert_eq!(scanline_of(3 * ONE / 2), 1);
    assert_eq!(scanline_of(-ONE), -1);
    assert_eq!(scanline_of(0), 0);
    let polygon = vec![
        Vec3::new(0, -5 * ONE / 2, 0),
        Vec3::new(4 * ONE, -ONE / 2, 0),
        Vec3::new(0, 3 * ONE / 2, 0),
    ];
    let pixels = scan_polygon(&polygon);
    let rows: BTreeSet<i64> = pixels.iter().map(|p| p.y).collect();
    assert_eq!(rows, (-2..=1).collect::<BTreeSet<i64>>());
    // the edge to the right rises by two for four to the right, and the edge back by two for
    // four to the left: each moves by two from one scanline to the next
    assert_eq!(row(&pixels, -2), vec![0]);
    assert_eq!(row(&pixels, -1), vec![0, 1, 2]);
    assert_eq!(row(&pixels, 0), vec![0, 1, 2, 3, 4]);
    assert_eq!(row(&pixels, 1), vec![0, 1, 2]);
}

#[test]
fn the_step_of_an_edge_is_its_width_divided_by_its_height() {
    let mut aet = AET::new();
    // from (0, 0.9) to (10, 2.1): ten to the right for a rise of 1.2
    aet.add_edge(Vec3::new(0, 900_000, 0), Vec3::new(10 * ONE, 2_100_000, 0), 0, 1);
    assert_eq!(aet.entry(0), AETData { x: 0, x_diff: 8_333_333, start: 0, end: 1 });
    // the ends lie on one scanline, but not at one height: an entry, no stretch
    aet.add_edge(Vec3::new(10 * ONE, 800_000, 0), Vec3::new(0, 200_000, 0), 1, 2);
    assert_eq!(aet.len(), 2);
    assert_eq!(aet.pending_spans(), 0);
    assert_eq!(aet.entry(1), AETData { x: 0, x_diff: 16_666_666, start: 1, end: 2 });
    // the same height: a stretch, no entry
    aet.add_edge(Vec3::new(10 * ONE, 800_000, 0), Vec3::new(0, 800_000, 0), 2, 3);
    assert_eq!(aet.len(), 2);
    assert_eq!(aet.pending_spans(), 1);
    // naming the ends the other way round gives the same entry
    let mut other = AET::new();
    other.add_edge(Vec3::new(10 * ONE, 2_100_000, 0), Vec3::new(0, 900_000, 0), 1, 0);
    assert_eq!(other.entry(0), aet.entry(0));
}

#[test]
fn vertices_are_ordered_by_height_and_ties_keep_their_order() {
    let polygon = vec![vertex(0, 5), vertex(1, 2), vertex(2, 5), vertex(3, 2), vertex(4, -1)];
    assert_eq!(sorted_vertex_indices(&polygon), vec![4, 1, 3, 0, 2]);
    assert_eq!(sorted_vertex_indices(&Vec::new()), Vec::<usize>::new());
    let same = vec![vertex(9, 1), vertex(8, 1), vertex(7, 1)];
    assert_eq!(sorted_vertex_indices(&same), vec![0, 1, 2]);
}

#[test]
fn adding_then_removing_an_edge_leaves_the_table_as_it_was() {
    let mut aet = AET::new();
    aet.add_edge(vertex(0, 0), vertex(4, 8), 0, 1);
    assert_eq!(aet.len(), 1);
    let first = aet.entry(0);
    aet.add_edge(vertex(3, 1), vertex(9, 4), 2, 1);
    assert_eq!(aet.len(), 2);
    aet.remove_edge(1, 2);
    assert_eq!(aet.len(), 1);
    assert_eq!(aet.entry(0), first);
    aet.add_edge(vertex(3, 1), vertex(9, 4), 2, 1);
    aet.remove_edge(2, 1);
    assert_eq!(aet.len(), 1);
    assert_eq!(aet.entry(0), first);
    // an edge within one scanline is no entry, and taking it out changes nothing
    aet.add_edge(vertex(3, 1), vertex(9, 1), 5, 6);
    assert_eq!(aet.len(), 1);
    assert_eq!(aet.pending_spans(), 1);
    aet.remove_edge(6, 5);
    assert_eq!(aet.len(), 1);
    assert_eq!(aet.entry(0), first);
}

#[test]
fn removing_takes_out_every_entry_of_the_edge() {
    let mut aet = AET::new();
    aet.add_edge(vertex(0, 0), vertex(4, 8), 0, 1);
    aet.add_edge(vertex(1, 0), vertex(5, 8), 1, 0);
    aet.add_edge(vertex(2, 0), vertex(6, 8), 1, 2);
    assert_eq!(aet.len(), 3);
    aet.add_edge(vertex(0, 0), vertex(4, 8), 0, 1);
    aet.remove_edge(0, 1);
    assert_eq!(aet.len(), 1);
    assert_eq!((aet.entry(0).start, aet.entry(0).end), (1, 2));
}

#[test]
fn an_edge_starts_at_its_lower_end_and_steps_towards_the_upper() {
    let mut aet = AET::new();
    aet.add_edge(vertex(10, 7), vertex(2, 3), 4, 1);
    assert_eq!(aet.entry(0), AETData { x: 2 * ONE, x_diff: 2 * ONE, start: 1, end: 4 });
    aet.add_edge(vertex(0, 0), vertex(-10, 3), 0, 7);
    // -10 / 3, rounded down
    assert_eq!(aet.entry(1), AETData { x: 0, x_diff: -3_333_334, start: 0, end: 7 });
    aet.update_x();
    assert_eq!(aet.entry(0).x, 4 * ONE);
    assert_eq!(aet.entry(1).x, -3_333_334);
    aet.update_x();
    assert_eq!(aet.entry(0).x, 6 * ONE);
    assert_eq!(aet.entry(1).x, -6_666_668);
    let mut entry = aet.entry(0);
    entry.update_x();
    assert_eq!(entry.x, 8 * ONE);
}

#[test]
fn edges_are_sorted_by_their_crossing_and_ties_keep_their_order() {
    let mut aet = AET::new();
    aet.add_edge(vertex(5, 0), vertex(5, 9), 0, 1);
    aet.add_edge(vertex(2, 0), vertex(7, 9), 1, 2);
    aet.add_edge(vertex(5, 0), vertex(0, 9), 2, 3);
    aet.add_edge(vertex(-1, 0), vertex(0, 9), 3, 4);
    aet.sort_by_x();
    let keys: Vec<(usize, usize)> = (0..4).map(|k| (aet.entry(k).start, aet.entry(k).end)).collect();
    assert_eq!(keys, vec![(3, 4), (1, 2), (0, 1), (2, 3)]);
}

#[test]
fn a_scanline_is_filled_between_pairs_of_edges() {
    let mut aet = AET::new();
    aet.add_edge(vertex(0, 0), vertex(0, 9), 0, 1);
    aet.add_edge(vertex(2, 0), vertex(2, 9), 1, 2);
    aet.add_edge(vertex(5, 0), vertex(5, 9), 2, 3);
    aet.add_edge(vertex(6, 0), vertex(6, 9), 3, 4);
    aet.add_edge(vertex(9, 0), vertex(9, 9), 4, 5);
    aet.add_edge(vertex(20, 3), vertex(22, 3), 7, 8);
    let pixels = aet.fill_line(4);
    let got: Vec<(i64, i64)> = pixels.iter().map(|p| (p.x, p.y)).collect();
    assert_eq!(got, vec![(20, 3), (21, 3), (22, 3), (0, 4), (1, 4), (2, 4), (5, 4), (6, 4)]);
    assert_eq!(aet.pending_spans(), 0);
    assert_eq!(aet.len(), 5);
    let again = aet.fill_line(5);
    assert_eq!(again.len(), 5);
    assert!(AET::new().fill_line(0).is_empty());
}

#[test]
fn an_edge_enters_towards_a_higher_neighbour_and_leaves_towards_a_lower() {
    let mut aet = AET::new();
    check_point(&mut aet, 0, vertex(0, 0), 1, vertex(4, 8));
    assert_eq!(aet.len(), 1);
    check_point(&mut aet, 1, vertex(4, 8), 0, vertex(0, 0));
    assert_eq!(aet.len(), 0);
    // the same height counts as higher
    check_point(&mut aet, 2, vertex(0, 3), 3, vertex(5, 3));
    assert_eq!(aet.len(), 0);
    assert_eq!(aet.pending_spans(), 1);
}

fn closed_form(polygon: &[Vec3]) -> BTreeSet<(i64, i64)> {
    let n = polygon.len();
    let row = |v: usize| polygon[v].y.div_euclid(ONE);
    let first = (0..n).map(row).min().unwrap();
    let last = (0..n).map(row).max().unwrap();
    let mut covered = BTreeSet::new();
    let mut columns = |from: i64, to: i64, r: i64| {
        let mut x = (from + ONE - 1).div_euclid(ONE);
        while x * ONE <= to {
            covered.insert((x, r));
            x += 1;
        }
    };
    for i in 0..n {
        let j = (i + 1) % n;
        if polygon[i].y == polygon[j].y && row(i) < last {
            columns(polygon[i].x.min(polygon[j].x), polygon[i].x.max(polygon[j].x), row(i));
        }
    }
    for r in first + 1..=last {
        let mut crossings = Vec::new();
        for i in 0..n {
            let j = (i + 1) % n;
            let (lo, hi) = if polygon[i].y <= polygon[j].y { (i, j) } else { (j, i) };
            if row(lo) < r && r <= row(hi) {
                let width = (polygon[hi].x - polygon[lo].x) as i128;
                let height = (polygon[hi].y - polygon[lo].y) as i128;
                let step = (width * ONE as i128).div_euclid(height) as i64;
                crossings.push(polygon[lo].x + (r - 1 - row(lo)) * step);
            }
        }
        crossings.sort();
        assert_eq!(crossings.len() % 2, 0);
        for pair in crossings.chunks(2) {
            columns(pair[0], pair[1], r);
        }
    }
    covered
}

#[test]
fn filling_covers_what_the_crossings_of_every_row_say() {
    let mut state: u64 = 0x2545_f491_4f6c_dd1d;
    let mut next = |range: i64| {
        state = state.wrapping_mul(6_364_136_223_846_793_005).wrapping_add(1_442_695_040_888_963_407);
        ((state >> 33) as i64).rem_euclid(2 * range + 1) - range
    };
    for round in 0..300 {
        let corners = 3 + round % 4;
        let whole = round % 3 == 0;
        let polygon: Vec<Vec3> = (0..corners)
            .map(|_| {
                if whole {
                    vertex(next(12), next(12))
                } else {
                    Vec3::new(next(12 * ONE), next(12 * ONE), next(ONE))
                }
            })
            .collect();
        let got = pixel_set(&scan_polygon(&polygon));
        assert_eq!(got, closed_form(&polygon), "{:?}", polygon);
    }
}

#[test]
fn a_triangle_covers_the_same_pixels_in_every_order_of_its_corners() {
    let mut state: u64 = 0x9e37_79b9_7f4a_7c15;
    let mut next = |range: i64| {
        state = state.wrapping_mul(6_364_136_223_846_793_005).wrapping_add(1_442_695_040_888_963_407);
        ((state >> 33) as i64).rem_euclid(2 * range + 1) - range
    };
    for round in 0..100 {
        let whole = round % 2 == 0;
        let mut corner = || {
            if whole {
                vertex(next(9), next(9))
            } else {
                Vec3::new(next(9 * ONE), next(9 * ONE), 0)
            }
        };
        let (a, b, c) = (corner(), corner(), corner());
        let first = pixel_set(&scan_polygon(&vec![a, b, c]));
        for other in [[b, c, a], [c, a, b], [a, c, b], [c, b, a], [b, a, c]] {
            assert_eq!(pixel_set(&scan_polygon(&other.to_vec())), first, "{:?}", other);
        }
    }
}
