use triangle_mesh_filler::rotations::Rotations;
use triangle_mesh_filler::triangle_mesh_filler::TriangleMeshFiller;

#[test]
fn a_surface_of_the_size_of_a_window_is_rendered() {
    let mut text = String::new();
    for i in 0..4i64 {
        for j in 0..4i64 {
            let z = if (i == 1 || i == 2) && (j == 1 || j == 2) { 120 } else { 0 };
            text.push_str(&format!("{} {} {}\n", i * 100 - 150, j * 100 - 150, z));
        }
    }
    let mut scene = TriangleMeshFiller::load_from_file(text.as_bytes()).ok().unwrap();
    scene.controls_state.triangulation_accuracy = 30;
    scene.track_controls();
    // alfa = 30 degrees, beta = 10 degrees
    let rotation = Rotations::create_surface_rotation(500_000, 866_025, 173_648, 984_807);
    scene.recalculate_mesh(&rotation);
    assert_eq!(scene.mesh.triangles().len(), 2 * 29 * 29);
    let pixels = scene.render();
    assert!(pixels.len() > 60_000);
    let lit = pixels.iter().filter(|p| p.color.g > 0).count();
    assert!(lit > pixels.len() / 2);
    for pixel in &pixels {
        assert!(pixel.x.abs() <= 260 && pixel.y.abs() <= 260, "{:?}", pixel);
    }
}
