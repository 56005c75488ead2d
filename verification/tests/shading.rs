use triangle_mesh_filler::color::Rgba;
use triangle_mesh_filler::colors_manager::ColorsManager;
use triangle_mesh_filler::fixed::ONE;
use triangle_mesh_filler::light_source::LightSource;
use triangle_mesh_filler::mesh::{Points2DArr, PosIn2DArr};
use triangle_mesh_filler::point::{PData, Point};
use triangle_mesh_filler::polygon_filler::{Pixel, PolygonFiller};
use triangle_mesh_filler::shader::shade_channel_of;
use triangle_mesh_filler::texture_loader::TextureLoader;
use triangle_mesh_filler::vector::Vec3;

const LIGHT_GREEN: Rgba = Rgba { r: 144, g: 238, b: 144, a: 255 };
const GRAY: Rgba = Rgba { r: 160, g: 160, b: 160, a: 255 };

fn light() -> Vec3 {
    Vec3::new(0, 0, 400 * ONE)
}

fn surface_point(x: i64, y: i64, z: i64, u: i64, v: i64) -> Point {
    let data = PData::new(
        Vec3::new(x * ONE, y * ONE, z * ONE),
        Vec3::new(ONE, 0, 0),
        Vec3::new(0, ONE, 0),
        Vec3::new(0, 0, ONE),
    );
    Point { before_rotation: data, after_rotation: data, u, v }
}

fn corner_grid() -> Points2DArr {
    let mut grid = Points2DArr::new(2, 2);
    grid.set_at(0, 0, surface_point(0, 0, 0, 0, 0));
    grid.set_at(0, 1, surface_point(10, 0, 5, 0, ONE));
    grid.set_at(1, 0, surface_point(0, 10, -5, ONE, 0));
    grid.set_at(1, 1, surface_point(10, 10, 0, ONE, ONE));
    grid
}

fn corners() -> [PosIn2DArr; 3] {
    [PosIn2DArr { row: 0, col: 0 }, PosIn2DArr { row: 0, col: 1 }, PosIn2DArr { row: 1, col: 0 }]
}

#[test]
fn channel_under_a_light_straight_above() {
    let n = Vec3::new(0, 0, ONE);
    assert_eq!(shade_channel_of(light(), Vec3::zero(), n, ONE / 2, ONE / 2, 50, 627_450, 564_705), 90);
    assert_eq!(shade_channel_of(light(), Vec3::new(100 * ONE, 0, 0), n, ONE / 2, ONE / 2, 2, 627_450, 933_333), 142);
    assert_eq!(
        shade_channel_of(
            light(),
            Vec3::new(300 * ONE, -200 * ONE, 10 * ONE),
            Vec3::new(600_000, 0, 800_000),
            700_000,
            300_000,
            10,
            784_313,
            ONE
        ),
        34
    );
}

#[test]
fn light_behind_the_surface_gives_no_light() {
    let away = Vec3::new(0, 0, -ONE);
    assert_eq!(shade_channel_of(light(), Vec3::zero(), away, ONE, ONE, 1, ONE, ONE), 0);
    assert_eq!(shade_channel_of(light(), Vec3::zero(), away, ONE / 2, ONE / 2, 50, ONE, ONE), 0);
    // the light stands to the left of this point, the normal points to the right
    let sideways = Vec3::new(ONE, 0, 0);
    assert_eq!(shade_channel_of(light(), Vec3::new(100 * ONE, 0, 0), sideways, ONE, 0, 1, ONE, ONE), 0);
    assert_eq!(shade_channel_of(light(), Vec3::new(100 * ONE, 0, 0), Vec3::new(-ONE, 0, 0), ONE, 0, 1, ONE, ONE), 61);
}

#[test]
fn channel_is_limited_to_the_full_level() {
    let n = Vec3::new(0, 0, ONE);
    assert_eq!(shade_channel_of(light(), Vec3::zero(), n, ONE, ONE, 1, ONE, ONE), 255);
    assert_eq!(shade_channel_of(light(), Vec3::zero(), n, ONE, 0, 1, ONE, ONE), 255);
    assert_eq!(shade_channel_of(light(), Vec3::zero(), n, 0, 0, 1, ONE, ONE), 0);
    assert_eq!(shade_channel_of(light(), Vec3::zero(), n, ONE, ONE, 1, 0, ONE), 0);
    assert_eq!(shade_channel_of(light(), Vec3::zero(), Vec3::zero(), ONE, ONE, 1, ONE, ONE), 0);
}

#[test]
fn colour_is_shaded_channel_by_channel() {
    let grid = corner_grid();
    let source = LightSource::new(400 * ONE, LIGHT_GREEN, 100 * ONE);
    let none = TextureLoader::new();
    let point = surface_point(2, 3, 0, 0, 0);
    let gray = PolygonFiller::new(&grid, &source, ColorsManager::new(GRAY, &none, &none), ONE / 2, ONE / 2, 50, false);
    assert_eq!(gray.color_in_point(point), Rgba::from_rgb(90, 149, 90));
    let red = Rgba::from_rgb(255, 0, 10);
    let other = PolygonFiller::new(&grid, &source, ColorsManager::new(red, &none, &none), ONE / 2, ONE / 2, 50, false);
    assert_eq!(other.color_in_point(point), Rgba::from_rgb(143, 0, 5));
    assert_eq!(other.calculate_color_component(point.after_rotation, ONE, 933_333), 237);
    assert_eq!(gray.calculate_color_component(point.after_rotation, 627_450, 564_705), 90);
}

#[test]
fn barycentric_weights_at_the_corners_and_inside() {
    let grid = corner_grid();
    let source = LightSource::new(400 * ONE, LIGHT_GREEN, 100 * ONE);
    let none = TextureLoader::new();
    let filler = PolygonFiller::new(&grid, &source, ColorsManager::new(GRAY, &none, &none), ONE / 2, ONE / 2, 50, false);
    let polygon = corners();
    assert_eq!(filler.get_barycentric_coords(&polygon, 0, 0), Some(vec![ONE, 0, 0]));
    assert_eq!(filler.get_barycentric_coords(&polygon, 10, 0), Some(vec![0, ONE, 0]));
    assert_eq!(filler.get_barycentric_coords(&polygon, 0, 10), Some(vec![0, 0, ONE]));
    assert_eq!(filler.get_barycentric_coords(&polygon, 5, 5), Some(vec![0, ONE / 2, ONE / 2]));
    assert_eq!(filler.get_barycentric_coords(&polygon, 2, 3), Some(vec![500_000, 200_000, 300_000]));
    assert_eq!(filler.get_barycentric_coords(&polygon, 10, 10), Some(vec![-ONE, ONE, ONE]));
    // far outside, the weights are those of the point all the same
    assert_eq!(filler.get_barycentric_coords(&polygon, -100, 0), Some(vec![11 * ONE, -10 * ONE, 0]));
    assert_eq!(filler.get_barycentric_coords(&polygon, 1_000, 0), Some(vec![-99 * ONE, 100 * ONE, 0]));
    assert_eq!(
        filler.get_barycentric_coords(&polygon, 7, -1_000_000),
        Some(vec![100_000_300_000, 700_000, -100_000 * ONE])
    );
    let turned = [polygon[0], polygon[2], polygon[1]];
    assert_eq!(filler.get_barycentric_coords(&turned, 2, 3), Some(vec![500_000, 300_000, 200_000]));
}

#[test]
fn triangle_without_area_has_no_weights_and_no_pixels() {
    let mut grid = Points2DArr::new(1, 3);
    grid.set_at(0, 0, surface_point(0, 0, 0, 0, 0));
    grid.set_at(0, 1, surface_point(5, 5, 0, 0, ONE / 2));
    grid.set_at(0, 2, surface_point(10, 10, 0, 0, ONE));
    let source = LightSource::new(400 * ONE, LIGHT_GREEN, 100 * ONE);
    let none = TextureLoader::new();
    let mut filler = PolygonFiller::new(&grid, &source, ColorsManager::new(GRAY, &none, &none), ONE / 2, ONE / 2, 50, false);
    let line = [PosIn2DArr { row: 0, col: 0 }, PosIn2DArr { row: 0, col: 1 }, PosIn2DArr { row: 0, col: 2 }];
    assert_eq!(filler.get_barycentric_coords(&line, 1, 1), None);
    assert_eq!(filler.paint_pixel(1, 1, &line), None);
    assert!(filler.fill_polygon(&line).is_empty());
}

#[test]
fn interpolation_at_a_corner_gives_the_corner() {
    let grid = corner_grid();
    let source = LightSource::new(400 * ONE, LIGHT_GREEN, 100 * ONE);
    let none = TextureLoader::new();
    let filler = PolygonFiller::new(&grid, &source, ColorsManager::new(GRAY, &none, &none), ONE / 2, ONE / 2, 50, false);
    let polygon = corners();
    for (k, (x, y)) in [(0i64, 0i64), (10, 0), (0, 10)].into_iter().enumerate() {
        let bars = filler.get_barycentric_coords(&polygon, x, y).unwrap();
        let got = filler.point_from_barycentric_coords(&polygon, bars);
        let corner = grid.at_pos(polygon[k]);
        assert_eq!(got.after_rotation().p(), corner.after_rotation().p());
        assert_eq!(got, *corner);
    }
}

#[test]
fn interpolation_inside_weighs_the_corners() {
    let grid = corner_grid();
    let source = LightSource::new(400 * ONE, LIGHT_GREEN, 100 * ONE);
    let none = TextureLoader::new();
    let filler = PolygonFiller::new(&grid, &source, ColorsManager::new(GRAY, &none, &none), ONE / 2, ONE / 2, 50, false);
    let got = filler.point_from_barycentric_coords(&corners(), vec![500_000, 200_000, 300_000]);
    assert_eq!(got.after_rotation().p(), Vec3::new(2 * ONE, 3 * ONE, -ONE / 2));
    assert_eq!(got.after_rotation().n(), Vec3::new(0, 0, ONE));
    assert_eq!(got.after_rotation().pu(), Vec3::new(ONE, 0, 0));
    assert_eq!(got.u(), 300_000);
    assert_eq!(got.v(), 200_000);
}

#[test]
fn pixel_is_painted_with_the_flat_colour_or_the_texture() {
    let mut grid = corner_grid();
    grid.set_at(0, 1, surface_point(10, 0, 0, 0, ONE));
    grid.set_at(1, 0, surface_point(0, 10, 0, ONE, 0));
    let source = LightSource::new(400 * ONE, LIGHT_GREEN, 100 * ONE);
    let none = TextureLoader::new();
    let flat = PolygonFiller::new(&grid, &source, ColorsManager::new(GRAY, &none, &none), ONE / 2, ONE / 2, 50, false);
    assert_eq!(flat.paint_pixel(2, 3, &corners()), Some(Pixel { x: 2, y: 3, color: Rgba::from_rgb(90, 149, 90) }));
    assert_eq!(flat.color_in_point(surface_point(10, 0, 0, 0, 0)), Rgba::from_rgb(89, 148, 89));

    let mut texture = TextureLoader::new();
    let red = Rgba::from_rgb(255, 0, 10);
    let blue = Rgba::from_rgb(0, 0, 255);
    assert_eq!(texture.load_texture_from_file(2, 2, vec![red, blue, blue, blue]), Ok(()));
    let textured = PolygonFiller::new(&grid, &source, ColorsManager::new(GRAY, &texture, &none), ONE / 2, ONE / 2, 50, false);
    // u = 0.3 and v = 0.2 select the first pixel of the first line
    assert_eq!(textured.paint_pixel(2, 3, &corners()), Some(Pixel { x: 2, y: 3, color: Rgba::from_rgb(143, 0, 5) }));

    let mut map = TextureLoader::new();
    assert_eq!(map.load_texture_from_file(1, 1, vec![Rgba { r: 0, g: 128, b: 255, a: 255 }]), Ok(()));
    let mapped = PolygonFiller::new(&grid, &source, ColorsManager::new(GRAY, &none, &map), ONE / 2, ONE / 2, 50, true);
    assert_eq!(mapped.paint_pixel(2, 3, &corners()), Some(Pixel { x: 2, y: 3, color: Rgba::from_rgb(32, 53, 32) }));
    let unused = PolygonFiller::new(&grid, &source, ColorsManager::new(GRAY, &none, &map), ONE / 2, ONE / 2, 50, false);
    assert_eq!(unused.paint_pixel(2, 3, &corners()), Some(Pixel { x: 2, y: 3, color: Rgba::from_rgb(90, 149, 90) }));
}

#[test]
fn triangle_is_filled_with_one_colour_for_every_covered_pixel() {
    let mut grid = corner_grid();
    grid.set_at(0, 1, surface_point(10, 0, 0, 0, ONE));
    grid.set_at(1, 0, surface_point(0, 10, 0, ONE, 0));
    let source = LightSource::new(400 * ONE, LIGHT_GREEN, 100 * ONE);
    let none = TextureLoader::new();
    let mut filler = PolygonFiller::new(&grid, &source, ColorsManager::new(GRAY, &none, &none), ONE / 2, ONE / 2, 50, false);
    let pixels = filler.fill_polygon(&corners());
    assert_eq!(pixels.len(), 87);
    assert_eq!(pixels[0], Pixel { x: 0, y: 0, color: Rgba::from_rgb(90, 149, 90) });
    for pixel in &pixels {
        assert_eq!(Some(*pixel), filler.paint_pixel(pixel.x, pixel.y, &corners()));
        assert_eq!(pixel.color.a, 255);
    }
    assert!(pixels.contains(&Pixel { x: 10, y: 0, color: Rgba::from_rgb(89, 148, 89) }));
    assert_eq!(filler.get_vertices_sorted_indicies(&corners()), vec![0, 1, 2]);
    assert_eq!(filler.get_point_at_index(&corners(), &[0, 1, 2], 2), Vec3::new(0, 10 * ONE, 0));
    assert_eq!(filler.polygon_vertices(&corners()), vec![Vec3::zero(), Vec3::new(10 * ONE, 0, 0), Vec3::new(0, 10 * ONE, 0)]);
}

#[test]
fn weights_far_outside_select_the_point_far_outside() {
    let mut grid = Points2DArr::new(1, 3);
    grid.set_at(0, 0, surface_point(0, 0, 0, 0, 0));
    grid.set_at(0, 1, surface_point(1, 0, 0, 0, ONE));
    grid.set_at(0, 2, surface_point(0, 1, 0, ONE, 0));
    let source = LightSource::new(400 * ONE, LIGHT_GREEN, 100 * ONE);
    let none = TextureLoader::new();
    let filler = PolygonFiller::new(&grid, &source, ColorsManager::new(GRAY, &none, &none), ONE / 2, ONE / 2, 50, false);
    let polygon = [PosIn2DArr { row: 0, col: 0 }, PosIn2DArr { row: 0, col: 1 }, PosIn2DArr { row: 0, col: 2 }];
    let bars = filler.get_barycentric_coords(&polygon, 100, 0).unwrap();
    assert_eq!(bars, vec![-99 * ONE, 100 * ONE, 0]);
    let point = filler.point_from_barycentric_coords(&polygon, bars);
    assert_eq!(point.after_rotation().p(), Vec3::new(100 * ONE, 0, 0));
    assert_eq!(point.after_rotation().n(), Vec3::new(0, 0, ONE));
    assert_eq!(point.v(), 100 * ONE);
    assert!(filler.paint_pixel(100, 0, &polygon).is_some());
    // a point a million to the right lies out of reach of the light: it is taken as near
    // as the light reaches
    let far = filler.get_barycentric_coords(&polygon, 1_000_000, 0).unwrap();
    assert_eq!(far, vec![-999_999 * ONE, 1_000_000 * ONE, 0]);
    let limited = filler.point_from_barycentric_coords(&polygon, far);
    assert_eq!(limited.after_rotation().p(), Vec3::new(990_000 * ONE, 0, 0));
    assert_eq!(limited.v(), 990_000 * ONE);
    assert_eq!(
        filler.paint_pixel(1_000_000, 0, &polygon).map(|p| p.color),
        filler.paint_pixel(990_000, 0, &polygon).map(|p| p.color)
    );
    assert!(filler.paint_pixel(1_000_000, 0, &polygon).is_some());
    let near = filler.get_barycentric_coords(&polygon, 989_999, 0).unwrap();
    assert_eq!(filler.point_from_barycentric_coords(&polygon, near).after_rotation().p(), Vec3::new(989_999 * ONE, 0, 0));
}

#[test]
fn weights_beyond_a_million_million_are_limited() {
    // a triangle with the area of half a millionth of a millionth
    let corner = |x: i64, y: i64| {
        let data = PData::new(Vec3::new(x, y, 0), Vec3::new(ONE, 0, 0), Vec3::new(0, ONE, 0), Vec3::new(0, 0, ONE));
        Point { before_rotation: data, after_rotation: data, u: 0, v: 0 }
    };
    let mut grid = Points2DArr::new(1, 3);
    grid.set_at(0, 0, corner(0, 0));
    grid.set_at(0, 1, corner(1, 0));
    grid.set_at(0, 2, corner(0, 1));
    let source = LightSource::new(400 * ONE, LIGHT_GREEN, 100 * ONE);
    let none = TextureLoader::new();
    let filler = PolygonFiller::new(&grid, &source, ColorsManager::new(GRAY, &none, &none), ONE / 2, ONE / 2, 50, false);
    let polygon = [PosIn2DArr { row: 0, col: 0 }, PosIn2DArr { row: 0, col: 1 }, PosIn2DArr { row: 0, col: 2 }];
    assert_eq!(filler.get_barycentric_coords(&polygon, 0, 0), Some(vec![ONE, 0, 0]));
    // the pixel (1, 0) lies a million corners to the right
    assert_eq!(
        filler.get_barycentric_coords(&polygon, 1, 0),
        Some(vec![-999_999_000_000, 1_000_000 * ONE, 0])
    );
    let limit = 1_000_000_000_000_000_000i64;
    assert_eq!(filler.get_barycentric_coords(&polygon, 2_000_000, 0), Some(vec![-limit, limit, 0]));
    assert_eq!(filler.get_barycentric_coords(&polygon, 0, -3_000_000), Some(vec![limit, 0, -limit]));
    assert!(filler.paint_pixel(2_000_000, 0, &polygon).is_some());
}

#[test]
fn a_thin_triangle_is_filled_alike_in_every_order_of_its_corners() {
    // corners (0, 0, 100), (10000, 1, 0) and (9997, 1, 297): the point that the weights of
    // the pixel (0, 1) select lies about as high as the lighting reaches
    let corner = |x: i64, y: i64, z: i64| {
        let data = PData::new(
            Vec3::new(x * ONE, y * ONE, z * ONE),
            Vec3::new(ONE, 0, 0),
            Vec3::new(0, ONE, 0),
            Vec3::new(0, 0, ONE),
        );
        Point { before_rotation: data, after_rotation: data, u: 0, v: 0 }
    };
    let mut grid = Points2DArr::new(1, 3);
    grid.set_at(0, 0, corner(0, 0, 100));
    grid.set_at(0, 1, corner(10_000, 1, 0));
    grid.set_at(0, 2, corner(9_997, 1, 297));
    let source = LightSource::new(400 * ONE, LIGHT_GREEN, 100 * ONE);
    let none = TextureLoader::new();
    let mut filler = PolygonFiller::new(&grid, &source, ColorsManager::new(GRAY, &none, &none), ONE / 2, ONE / 2, 50, false);
    let place = |k: usize| PosIn2DArr { row: 0, col: k };
    let positions = |pixels: Vec<Pixel>| {
        let mut at: Vec<(i64, i64)> = pixels.iter().map(|p| (p.x, p.y)).collect();
        at.sort();
        at.dedup();
        at
    };
    let first = positions(filler.fill_polygon(&[place(0), place(1), place(2)]));
    assert_eq!(first, vec![(0, 1)]);
    for order in [[1, 2, 0], [2, 0, 1], [0, 2, 1], [2, 1, 0], [1, 0, 2]] {
        let polygon = [place(order[0]), place(order[1]), place(order[2])];
        assert_eq!(positions(filler.fill_polygon(&polygon)), first, "{:?}", order);
    }
    assert_eq!(
        filler.get_barycentric_coords(&[place(0), place(1), place(2)], 0, 1),
        Some(vec![1, -3_332_333_334, 3_333_333_333])
    );
    assert_eq!(
        filler.get_barycentric_coords(&[place(1), place(2), place(0)], 0, 1),
        Some(vec![-3_332_333_333, 3_333_333_333, 0])
    );
    let high = filler.point_from_barycentric_coords(&[place(0), place(1), place(2)], vec![1, -3_332_333_334, 3_333_333_333]);
    assert_eq!(high.after_rotation().p().z, 990_000 * ONE);
}

#[test]
fn a_flat_triangle_is_shaded_where_each_pixel_lies() {
    // corners (0, 0.9), (1000, 0.9), (1000, 1.0); white under a light at (0, 0, 100)
    let corner = |x: i64, y: i64| {
        let data = PData::new(Vec3::new(x, y, 0), Vec3::new(ONE, 0, 0), Vec3::new(0, ONE, 0), Vec3::new(0, 0, ONE));
        Point { before_rotation: data, after_rotation: data, u: 0, v: 0 }
    };
    let mut grid = Points2DArr::new(1, 3);
    grid.set_at(0, 0, corner(0, 900_000));
    grid.set_at(0, 1, corner(1000 * ONE, 900_000));
    grid.set_at(0, 2, corner(1000 * ONE, ONE));
    let source = LightSource::new(100 * ONE, Rgba::from_rgb(255, 255, 255), 100 * ONE);
    let none = TextureLoader::new();
    let white = Rgba::from_rgb(255, 255, 255);
    let mut filler = PolygonFiller::new(&grid, &source, ColorsManager::new(white, &none, &none), ONE, 0, 1, false);
    let polygon = [PosIn2DArr { row: 0, col: 0 }, PosIn2DArr { row: 0, col: 1 }, PosIn2DArr { row: 0, col: 2 }];
    assert_eq!(filler.get_barycentric_coords(&polygon, 500, 0), Some(vec![500_000, 9_500_000, -9_000_000]));
    let point = filler.point_from_barycentric_coords(&polygon, vec![500_000, 9_500_000, -9_000_000]);
    assert_eq!(point.after_rotation().p(), Vec3::new(500 * ONE, 0, 0));
    let pixels = filler.fill_polygon(&polygon);
    let middle = pixels.iter().find(|p| p.x == 500 && p.y == 0).unwrap();
    // the light stands at the distance 100 over a point 500 away: the cosine is 0.196
    assert_eq!(middle.color, Rgba::from_rgb(50, 50, 50));
    // straight under the light the surface is as bright as can be
    let first = pixels.iter().find(|p| p.x == 0 && p.y == 0).unwrap();
    assert_eq!(first.color, Rgba::from_rgb(255, 255, 255));
}
