use triangle_mesh_filler::color::{channel_to_level, level_to_channel, Rgba};
use triangle_mesh_filler::colors_manager::ColorsManager;
use triangle_mesh_filler::fixed::ONE;
use triangle_mesh_filler::point::Point;
use triangle_mesh_filler::texture_loader::{Texture, TextureError, TextureLoader};
use triangle_mesh_filler::vector::Vec3;

fn texel(i: usize, j: usize) -> Rgba {
    Rgba { r: i as u8, g: j as u8, b: (i * 16 + j) as u8, a: 255 }
}

fn texture(width: usize, height: usize) -> Vec<Rgba> {
    let mut pixels = Vec::new();
    for i in 0..width {
        for j in 0..height {
            pixels.push(texel(i, j));
        }
    }
    pixels
}

fn point_at(u: i64, v: i64) -> Point {
    let mut p = Point::zero();
    p.u = u;
    p.v = v;
    p.after_rotation.n = Vec3::new(0, 0, ONE);
    p
}

#[test]
fn sampling_at_the_ends_gives_the_first_and_the_last_pixel() {
    let mut loader = TextureLoader::new();
    assert_eq!(loader.load_texture_from_file(4, 7, texture(4, 7)), Ok(()));
    assert_eq!(loader.get_color_in_point(&point_at(0, 0)), Ok(texel(0, 0)));
    assert_eq!(loader.get_color_in_point(&point_at(999_900, 999_900)), Ok(texel(3, 6)));
    assert_eq!(loader.get_color_in_point(&point_at(ONE, ONE)), Ok(texel(3, 6)));
    assert_eq!(loader.get_color_in_point(&point_at(17 * ONE, 5 * ONE)), Ok(texel(3, 6)));
    assert_eq!(loader.get_color_in_point(&point_at(-3, -ONE)), Ok(texel(0, 0)));
    assert_eq!(loader.get_color_in_point(&point_at(0, ONE)), Ok(texel(0, 6)));
}

#[test]
fn sampling_selects_the_line_by_u_and_the_pixel_by_v() {
    let t = Texture::new(4, 10, texture(4, 10)).unwrap();
    assert_eq!(t.width(), 4);
    assert_eq!(t.height(), 10);
    assert_eq!(t.sample(ONE / 2, ONE / 4), texel(2, 2));
    assert_eq!(t.sample(249_999, 99_999), texel(0, 0));
    assert_eq!(t.sample(250_000, 100_000), texel(1, 1));
    assert_eq!(t.sample(749_999, 899_999), texel(2, 8));
    assert_eq!(t.get(3, 9), texel(3, 9));
    assert_eq!(Texture::index_of(999_900, 10_000), 9_999);
    assert_eq!(Texture::index_of(999_900, 10_001), 9_999);
    assert_eq!(Texture::index_of(ONE, 1), 0);
}

#[test]
fn sampling_without_a_texture_is_an_error() {
    let loader = TextureLoader::new();
    assert!(!loader.has_texture());
    assert_eq!(loader.get_color_in_point(&point_at(0, 0)), Err(TextureError::MissingTexture));
    assert_eq!(loader.get_n_in_point(&point_at(0, 0)), Err(TextureError::MissingTexture));
}

#[test]
fn pixels_that_do_not_fit_the_size_are_refused_and_the_texture_stays() {
    let mut loader = TextureLoader::new();
    assert_eq!(loader.load_texture_from_file(2, 2, texture(2, 3)), Err(TextureError::InvalidSize));
    assert!(!loader.has_texture());
    assert_eq!(loader.load_texture_from_file(0, 0, Vec::new()), Err(TextureError::InvalidSize));
    assert_eq!(loader.load_texture_from_file(0, 5, Vec::new()), Err(TextureError::InvalidSize));
    assert_eq!(loader.load_texture_from_file(usize::MAX, 2, texture(1, 2)), Err(TextureError::InvalidSize));
    assert_eq!(loader.load_texture_from_file(2, 3, texture(2, 3)), Ok(()));
    assert!(loader.has_texture());
    assert_eq!(loader.load_texture_from_file(3, 3, texture(2, 3)), Err(TextureError::InvalidSize));
    assert!(loader.has_texture());
    assert_eq!(loader.get_color_in_point(&point_at(ONE, ONE)), Ok(texel(1, 2)));
    loader.remove_texture();
    assert!(!loader.has_texture());
    assert!(Texture::new(1, 1, texture(1, 1)).is_some());
    assert!(Texture::new(1, 2, texture(1, 1)).is_none());
}

#[test]
fn channels_of_a_normal_map_run_from_minus_one_to_one() {
    let loader = TextureLoader::new();
    assert_eq!(loader.scale_rgb(0), -ONE);
    assert_eq!(loader.scale_rgb(255), ONE);
    assert_eq!(loader.scale_rgb(127), -3_922);
    assert_eq!(loader.scale_rgb(128), 3_921);
    assert_eq!(loader.scale_rgb(64), -498_040);
}

#[test]
fn normal_map_gives_a_direction_of_length_one() {
    let mut loader = TextureLoader::new();
    let pixels = vec![Rgba { r: 0, g: 128, b: 255, a: 255 }, Rgba { r: 128, g: 128, b: 255, a: 255 }];
    assert_eq!(loader.load_texture_from_file(1, 2, pixels), Ok(()));
    assert_eq!(loader.get_n_in_point(&point_at(0, 0)), Ok(Vec3::new(-707_105, 2_772, 707_104)));
    assert_eq!(loader.get_n_in_point(&point_at(0, ONE)), Ok(Vec3::new(3_920, 3_920, 999_984)));
}

#[test]
fn texture_takes_precedence_over_the_flat_colour() {
    let gray = Rgba::from_rgb(160, 160, 160);
    let empty = TextureLoader::new();
    let mut loaded = TextureLoader::new();
    assert_eq!(loaded.load_texture_from_file(2, 2, texture(2, 2)), Ok(()));
    let p = point_at(ONE / 2, 0);
    assert_eq!(ColorsManager::new(gray, &empty, &empty).get_point_base_color(&p), gray);
    assert_eq!(ColorsManager::new(gray, &loaded, &empty).get_point_base_color(&p), texel(1, 0));
}

#[test]
fn normal_map_is_used_only_when_it_is_loaded_and_switched_on() {
    let gray = Rgba::from_rgb(160, 160, 160);
    let empty = TextureLoader::new();
    let mut map = TextureLoader::new();
    assert_eq!(map.load_texture_from_file(1, 1, vec![Rgba { r: 0, g: 128, b: 255, a: 255 }]), Ok(()));
    let p = point_at(0, 0);
    let own = Vec3::new(0, 0, ONE);
    let mapped = Vec3::new(-707_105, 2_772, 707_104);
    assert_eq!(ColorsManager::new(gray, &empty, &map).get_point_n_vector(&p, true), mapped);
    assert_eq!(ColorsManager::new(gray, &empty, &map).get_point_n_vector(&p, false), own);
    assert_eq!(ColorsManager::new(gray, &empty, &empty).get_point_n_vector(&p, true), own);
    assert_eq!(ColorsManager::new(gray, &map, &empty).get_point_n_vector(&p, true), own);
}

#[test]
fn channels_and_levels() {
    assert_eq!(channel_to_level(0), 0);
    assert_eq!(channel_to_level(255), ONE);
    assert_eq!(channel_to_level(160), 627_450);
    assert_eq!(channel_to_level(1), 3_921);
    assert_eq!(level_to_channel(0), 0);
    assert_eq!(level_to_channel(ONE), 255);
    assert_eq!(level_to_channel(ONE - 1), 254);
    assert_eq!(level_to_channel(ONE / 2), 127);
    assert_eq!(Rgba::from_rgb(1, 2, 3), Rgba { r: 1, g: 2, b: 3, a: 255 });
    let c = Rgba::from_rgb(1, 2, 3);
    assert_eq!((c.r(), c.g(), c.b()), (1, 2, 3));
}
