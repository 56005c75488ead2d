use triangle_mesh_filler::color::Rgba;
use triangle_mesh_filler::control_points::{ControlPoints, LoadError};
use triangle_mesh_filler::drawer::{Drawer, ScreenPos, Segment};
use triangle_mesh_filler::fixed::ONE;
use triangle_mesh_filler::light_source::LightSource;
use triangle_mesh_filler::mesh::Mesh;
use triangle_mesh_filler::polygon_filler::Pixel;
use triangle_mesh_filler::rotations::Rotations;
use triangle_mesh_filler::triangle_mesh_filler::{ControlsState, TriangleMeshFiller};
use triangle_mesh_filler::vector::{Mat3, Vec3};

fn file() -> String {
    let mut text = String::new();
    for i in 0..4i64 {
        for j in 0..4i64 {
            let z = if (i == 1 || i == 2) && (j == 1 || j == 2) { 20 } else { 0 };
            text.push_str(&format!("{} {} {}\n", i * 10 - 15, j * 10 - 15, z));
        }
    }
    text
}

#[test]
fn controls_start_with_their_defaults() {
    let state = ControlsState::default();
    assert_eq!(state.triangulation_accuracy(), 5);
    assert_eq!(state.alfa(), 0);
    assert_eq!(state.beta(), 0);
    assert!(!state.show_mesh());
    assert_eq!(state.kd(), ONE / 2);
    assert_eq!(state.ks(), ONE / 2);
    assert_eq!(state.m(), 50);
    assert_eq!(state.shape_color(), Rgba::from_rgb(160, 160, 160));
    assert!(!state.show_light_source());
    assert!(state.run_animation());
    assert!(!state.use_normal_map());
}

#[test]
fn light_starts_on_the_axis_and_moves_on_its_curve() {
    let green = Rgba::from_rgb(144, 238, 144);
    let mut light = LightSource::new(400 * ONE, green, 100 * ONE);
    assert_eq!(light.position(), Vec3::new(0, 0, 400 * ONE));
    assert_eq!(light.color(), green);
    light.update_position(0, ONE);
    assert_eq!(light.position(), Vec3::new(200 * ONE, 0, 400 * ONE));
    light.update_position(ONE, 0);
    assert_eq!(light.position(), Vec3::new(0, 300 * ONE, 400 * ONE));
    light.update_position(500_000, 866_025);
    assert_eq!(light.position(), Vec3::new(216_506_250, 125 * ONE, 400 * ONE));
    *light.position_mut() = Vec3::new(1, 2, 7);
    *light.radius_base_mut() = 100 * ONE;
    *light.color_mut() = Rgba::from_rgb(1, 2, 3);
    light.update_position(-ONE, 0);
    assert_eq!(light.position(), Vec3::new(0, -100 * ONE, 7));
    assert_eq!(light.color(), Rgba::from_rgb(1, 2, 3));
}

#[test]
fn scene_is_loaded_from_the_text_of_a_file() {
    let scene = TriangleMeshFiller::load_from_file(file().as_bytes()).ok().unwrap();
    assert_eq!(scene.controls_state, ControlsState::default());
    assert_eq!(scene.previous_controls_state, ControlsState::default());
    assert!(scene.need_mesh_recalculation);
    assert_eq!(scene.light_source.position(), Vec3::new(0, 0, 400 * ONE));
    assert_eq!(scene.light_source.color(), Rgba::from_rgb(144, 238, 144));
    assert_eq!(scene.light_source.radius_base, 100 * ONE);
    assert!(!scene.texture_loader.has_texture());
    assert!(!scene.normal_map_loader.has_texture());
    assert_eq!(scene.mesh.triangles().len(), 32);
    assert_eq!(scene.control_points.at(3, 0), Vec3::new(15 * ONE, -15 * ONE, 0));
    assert_eq!(scene.mesh.points().at(4, 0).after_rotation().p(), Vec3::new(15 * ONE, -15 * ONE, 0));
}

#[test]
fn scene_is_not_loaded_from_a_bad_file() {
    assert_eq!(TriangleMeshFiller::load_from_file(b"1 2 3\n").err(), Some(LoadError::InvalidCount { got: 1 }));
    let bad = file().replace("-15 -15 0", "-15 0");
    assert_eq!(TriangleMeshFiller::load_from_file(bad.as_bytes()).err(), Some(LoadError::InvalidCoords { line: 0 }));
}

#[test]
fn mesh_is_computed_anew_only_after_a_change() {
    let mut scene = TriangleMeshFiller::load_from_file(file().as_bytes()).ok().unwrap();
    let quarter = Rotations::create_surface_rotation(ONE, 0, 0, ONE);
    scene.recalculate_mesh(&Mat3::identity());
    assert!(!scene.need_mesh_recalculation);
    assert!(!scene.track_controls());
    scene.recalculate_mesh(&quarter);
    assert_eq!(scene.mesh.points().at(4, 0).after_rotation().p(), Vec3::new(15 * ONE, -15 * ONE, 0));

    scene.controls_state.triangulation_accuracy = 3;
    scene.controls_state.alfa = 90 * ONE;
    assert!(scene.track_controls());
    assert!(scene.need_mesh_recalculation);
    assert_eq!(scene.previous_controls_state, scene.controls_state);
    assert!(!scene.track_controls());
    assert!(scene.need_mesh_recalculation);
    scene.recalculate_mesh(&quarter);
    assert!(!scene.need_mesh_recalculation);
    assert_eq!(scene.mesh.triangles().len(), 8);
    assert_eq!(scene.mesh.points().rows(), 3);
    assert_eq!(scene.mesh.points().at(2, 0).after_rotation().p(), Vec3::new(15 * ONE, 15 * ONE, 0));
}

#[test]
fn light_moves_only_while_the_animation_runs() {
    let mut scene = TriangleMeshFiller::load_from_file(file().as_bytes()).ok().unwrap();
    scene.animate(0, ONE);
    assert_eq!(scene.light_source.position(), Vec3::new(200 * ONE, 0, 400 * ONE));
    scene.controls_state.run_animation = false;
    scene.animate(ONE, 0);
    assert_eq!(scene.light_source.position(), Vec3::new(200 * ONE, 0, 400 * ONE));
}

#[test]
fn every_triangle_of_the_scene_is_filled() {
    let mut scene = TriangleMeshFiller::load_from_file(file().as_bytes()).ok().unwrap();
    scene.controls_state.triangulation_accuracy = 4;
    scene.track_controls();
    scene.recalculate_mesh(&Mat3::identity());
    let pixels = scene.render();
    assert!(!pixels.is_empty());
    for pixel in &pixels {
        assert!(-16 <= pixel.x && pixel.x <= 16, "{:?}", pixel);
        assert!(-16 <= pixel.y && pixel.y <= 15, "{:?}", pixel);
        assert_eq!(pixel.color.a, 255);
    }
    for y in -14..=14 {
        for x in -14..=14 {
            assert!(pixels.iter().any(|p| p.x == x && p.y == y), "({}, {})", x, y);
        }
    }
    // the surface is symmetric, and so is its light in the middle column
    let at = |x: i64, y: i64| pixels.iter().rev().find(|p| p.x == x && p.y == y).map(|p: &Pixel| p.color);
    assert!(at(0, 0).is_some());
    let mut all: Vec<Pixel> = Vec::new();
    let mut filler = scene.polygon_filler();
    for triangle in scene.mesh.triangles() {
        all.extend(filler.fill_polygon(triangle.vertices()));
    }
    assert_eq!(pixels, all);
}

#[test]
fn surface_is_mapped_to_the_screen_with_the_y_axis_turned() {
    let center = ScreenPos { x: 640 * ONE, y: 360 * ONE };
    assert_eq!(
        Drawer::point_to_screen(&Vec3::new(10 * ONE, 20 * ONE, 99), &center),
        ScreenPos { x: 650 * ONE, y: 340 * ONE }
    );
    assert_eq!(
        Drawer::pos_to_screen(&ScreenPos { x: -10 * ONE, y: -20 * ONE }, &center),
        ScreenPos { x: 630 * ONE, y: 380 * ONE }
    );
    let painted = Drawer::paint_pixel(&center, &Pixel { x: 3, y: -4, color: Rgba::from_rgb(1, 2, 3) });
    assert_eq!(painted.pos, ScreenPos { x: 643 * ONE, y: 364 * ONE });
    assert_eq!(painted.color, Rgba::from_rgb(1, 2, 3));
}

#[test]
fn control_points_and_wireframe_are_drawn_rotated() {
    let center = ScreenPos { x: 100 * ONE, y: 100 * ONE };
    let cp = ControlPoints::load_from_file(file().as_bytes()).unwrap();
    let quarter = Rotations::create_surface_rotation(ONE, 0, 0, ONE);
    let dots = Drawer::draw_control_points(&center, &cp, &quarter);
    assert_eq!(dots.len(), 16);
    // (-15, -15) turns to (15, -15)
    assert_eq!(dots[0], ScreenPos { x: 115 * ONE, y: 115 * ONE });
    // (15, -15) turns to (15, 15)
    assert_eq!(dots[12], ScreenPos { x: 115 * ONE, y: 85 * ONE });

    let mesh = Mesh::triangulation(&cp, 2, &Mat3::identity());
    let lines = Drawer::draw_mesh(&center, &mesh);
    assert_eq!(lines.len(), 6);
    let a = ScreenPos { x: 85 * ONE, y: 85 * ONE };
    let b = ScreenPos { x: 85 * ONE, y: 115 * ONE };
    let c = ScreenPos { x: 115 * ONE, y: 115 * ONE };
    let d = ScreenPos { x: 115 * ONE, y: 85 * ONE };
    // the triangle (0,1), (0,0), (1,0) and then the triangle (0,1), (1,1), (1,0)
    assert_eq!(lines[0], Segment { start: a, end: b });
    assert_eq!(lines[1], Segment { start: b, end: c });
    assert_eq!(lines[2], Segment { start: c, end: a });
    assert_eq!(lines[3], Segment { start: a, end: d });
    assert_eq!(lines[4], Segment { start: d, end: c });
    assert_eq!(lines[5], Segment { start: c, end: a });
    assert_eq!(Drawer::draw_triangle(&center, &mesh.triangles()[1], mesh.points()), lines[3..].to_vec());
}
