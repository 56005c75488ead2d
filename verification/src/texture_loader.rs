//! Textures and normal maps: grids of colours that are sampled by the
//! parameters of a surface point.

use vstd::prelude::*;
use crate::color::Rgba;
use crate::fixed::{ONE, clamp, clamp_spec, floor_div, lemma_div_exact, lemma_div_monotone, within};
use crate::point::Point;
use crate::vector::{UNIT_MAX, Vec3, Vector};

verus! {

/// The largest parameter that is looked up: 0.9999. Larger ones are taken
/// down to it, so that the last line and the last pixel are not passed.
pub const PARAMETER_MAX: i64 = 999_900;

/// Why a texture could not be used.
#[derive(Clone, Copy, Debug, PartialEq, Eq, Structural)]
pub enum TextureError {
    /// No texture is loaded.
    MissingTexture,
    /// The texture has no pixels, or not as many as its size says.
    InvalidSize,
}

/// The line, or the pixel in the line, that the parameter `t` selects in a
/// grid with `extent` of them: `t` is limited to the interval from zero to
/// `PARAMETER_MAX`, multiplied by the extent and rounded down.
pub open spec fn texel_index(t: int, extent: int) -> int {
    ((clamp_spec(t, 0, PARAMETER_MAX as int) * extent) / (ONE as int)) % extent
}

/// A channel of a normal map as a coordinate between minus one and one.
pub open spec fn scale_rgb_spec(component: int) -> int {
    (component * 2 * ONE) / 255 - ONE
}

/// The direction that a colour of a normal map stands for, before it is
/// brought to length one.
pub open spec fn decoded_normal(c: Rgba) -> Vector {
    Vector {
        x: scale_rgb_spec(c.r as int),
        y: scale_rgb_spec(c.g as int),
        z: scale_rgb_spec(c.b as int),
    }
}

/// The selected index lies inside the grid.
pub proof fn lemma_texel_index_in_range(t: int, extent: int)
    requires
        extent >= 1,
    ensures
        0 <= texel_index(t, extent) < extent,
        texel_index(t, extent) == (clamp_spec(t, 0, PARAMETER_MAX as int) * extent) / (ONE as int),
{
    let c = clamp_spec(t, 0, PARAMETER_MAX as int);
    assert(0 <= c * extent && c * extent <= PARAMETER_MAX * extent) by (nonlinear_arith)
        requires
            0 <= c <= PARAMETER_MAX,
            extent >= 1,
    ;
    let q = (c * extent) / (ONE as int);
    lemma_div_monotone(0, c * extent, ONE as int);
    vstd::arithmetic::div_mod::lemma_fundamental_div_mod(c * extent, ONE as int);
    assert(q < extent) by (nonlinear_arith)
        requires
            c * extent == ONE * q + (c * extent) % (ONE as int),
            0 <= (c * extent) % (ONE as int),
            c * extent <= PARAMETER_MAX * extent,
            extent >= 1,
            PARAMETER_MAX < ONE,
    ;
    vstd::arithmetic::div_mod::lemma_small_mod(q as nat, extent as nat);
}

/// The parameter zero selects the first index. The parameter 0.9999, and
/// every larger one, selects the last index of a grid of at most ten thousand.
pub proof fn lemma_texel_index_at_ends(t: int, extent: int)
    requires
        1 <= extent,
    ensures
        t <= 0 ==> texel_index(t, extent) == 0,
        t >= PARAMETER_MAX && extent <= 10_000 ==> texel_index(t, extent) == extent - 1,
{
    lemma_texel_index_in_range(t, extent);
    if t <= 0 {
        assert(0 * extent == 0);
    }
    if t >= PARAMETER_MAX && extent <= 10_000 {
        let n = PARAMETER_MAX * extent;
        assert(n >= (extent - 1) * ONE);
        lemma_div_monotone((extent - 1) * ONE, n, ONE as int);
        lemma_div_exact(extent - 1, ONE as int);
    }
}

/// A grid of colours: `width` lines of `height` pixels each, line by line.
pub struct Texture {
    width: usize,
    height: usize,
    pixels: Vec<Rgba>,
}

impl Texture {
    /// There is at least one pixel, and there are as many as the size says.
    pub closed spec fn wf(&self) -> bool {
        &&& self.width >= 1
        &&& self.height >= 1
        &&& self.pixels@.len() == self.width * self.height
        &&& self.width * self.height <= usize::MAX
    }

    pub closed spec fn spec_width(&self) -> usize {
        self.width
    }

    pub closed spec fn spec_height(&self) -> usize {
        self.height
    }

    /// Pixel `j` of line `i`.
    pub closed spec fn texel(&self, i: int, j: int) -> Rgba {
        self.pixels@[i * self.height + j]
    }

    /// Whether `pixels` can be a texture of this size.
    pub open spec fn valid_size(width: usize, height: usize, pixels: Seq<Rgba>) -> bool {
        width >= 1 && height >= 1 && pixels.len() == width * height
    }

    /// The texture of `width` lines of `height` pixels, if `pixels` holds
    /// that many and at least one.
    pub fn new(width: usize, height: usize, pixels: Vec<Rgba>) -> (r: Option<Texture>)
        ensures
            r.is_some() == Texture::valid_size(width, height, pixels@),
            r matches Some(t) ==> {
                &&& t.wf()
                &&& t.width() == width
                &&& t.height() == height
                &&& forall|i: int, j: int|
                    0 <= i < width && 0 <= j < height ==> #[trigger] t.texel(i, j) == pixels@[i * height + j]
            },
    {
        if width == 0 || height == 0 {
            return None;
        }
        let len: usize = pixels.len();
        match width.checked_mul(height) {
            Some(n) => {
                if len == n {
                    Some(Texture { width, height, pixels })
                } else {
                    None
                }
            },
            None => None,
        }
    }

    #[verifier::when_used_as_spec(spec_width)]
    pub fn width(&self) -> (r: usize)
        ensures
            r == self.width(),
    {
        self.width
    }

    #[verifier::when_used_as_spec(spec_height)]
    pub fn height(&self) -> (r: usize)
        ensures
            r == self.height(),
    {
        self.height
    }

    /// Pixel `j` of line `i`.
    pub fn get(&self, i: usize, j: usize) -> (r: Rgba)
        requires
            self.wf(),
            i < self.width(),
            j < self.height(),
        ensures
            r == self.texel(i as int, j as int),
    {
        proof {
            crate::mesh::lemma_index_in_range(i as int, j as int, self.width as int, self.height as int);
        }
        self.pixels[i * self.height + j]
    }

    /// The colour that the parameters `u` and `v` select: `u` selects the
    /// line, `v` the pixel in it.
    pub fn sample(&self, u: i64, v: i64) -> (r: Rgba)
        requires
            self.wf(),
        ensures
            r == self.texel(texel_index(u as int, self.width() as int), texel_index(v as int, self.height() as int)),
    {
        let i: usize = Self::index_of(u, self.width);
        let j: usize = Self::index_of(v, self.height);
        self.get(i, j)
    }

    /// The index that the parameter `t` selects out of `extent`.
    pub fn index_of(t: i64, extent: usize) -> (r: usize)
        requires
            extent >= 1,
        ensures
            r == texel_index(t as int, extent as int),
            r < extent,
    {
        proof {
            lemma_texel_index_in_range(t as int, extent as int);
        }
        let c: i64 = clamp(t, 0, PARAMETER_MAX);
        assert(0 <= c * extent <= PARAMETER_MAX * extent) by (nonlinear_arith)
            requires
                0 <= c <= PARAMETER_MAX,
                extent >= 1,
        ;
        let q: i128 = floor_div((c as i128) * (extent as i128), ONE as i128);
        q as usize
    }
}

/// Holds the texture that is in use, if there is one.
pub struct TextureLoader {
    texture: Option<Texture>,
}

impl TextureLoader {
    /// The texture in use.
    pub closed spec fn texture(&self) -> Option<Texture> {
        self.texture
    }

    /// The texture in use, if there is one, is well formed.
    pub open spec fn wf(&self) -> bool {
        self.texture() matches Some(t) ==> t.wf()
    }

    /// The colour that the parameters of a point select.
    pub open spec fn color_at(&self, u: int, v: int) -> Rgba {
        let t = self.texture().unwrap();
        t.texel(texel_index(u, t.width() as int), texel_index(v, t.height() as int))
    }

    /// A loader without a texture.
    pub fn new() -> (r: Self)
        ensures
            r.texture().is_none(),
            r.wf(),
    {
        Self { texture: None }
    }

    /// Takes the pixels decoded from a file as the texture in use. Pixels
    /// that do not fit the size are refused, and the texture in use stays as
    /// it was.
    pub fn load_texture_from_file(&mut self, width: usize, height: usize, pixels: Vec<Rgba>) -> (r: Result<(), TextureError>)
        requires
            old(self).wf(),
        ensures
            final(self).wf(),
            r.is_ok() == Texture::valid_size(width, height, pixels@),
            r.is_err() ==> r == Err::<(), TextureError>(TextureError::InvalidSize) && final(self).texture() == old(self).texture(),
            r.is_ok() ==> {
                &&& final(self).texture().is_some()
                &&& final(self).texture().unwrap().width() == width
                &&& final(self).texture().unwrap().height() == height
                &&& forall|i: int, j: int|
                    0 <= i < width && 0 <= j < height ==> #[trigger] final(self).texture().unwrap().texel(i, j)
                        == pixels@[i * height + j]
            },
    {
        match Texture::new(width, height, pixels) {
            Some(t) => {
                self.texture = Some(t);
                Ok(())
            },
            None => Err(TextureError::InvalidSize),
        }
    }

    pub fn remove_texture(&mut self)
        ensures
            final(self).texture().is_none(),
            final(self).wf(),
    {
        self.texture = None
    }

    pub fn has_texture(&self) -> (r: bool)
        ensures
            r == self.texture().is_some(),
    {
        self.texture.is_some()
    }

    /// The colour of the texture at the parameters of the point.
    pub fn get_color_in_point(&self, point: &Point) -> (r: Result<Rgba, TextureError>)
        requires
            self.wf(),
        ensures
            self.texture().is_none() ==> r == Err::<Rgba, TextureError>(TextureError::MissingTexture),
            self.texture().is_some() ==> r == Ok::<Rgba, TextureError>(self.color_at(point.u as int, point.v as int)),
    {
        match &self.texture {
            Some(texture) => Ok(texture.sample(point.u(), point.v())),
            None => Err(TextureError::MissingTexture),
        }
    }

    /// The direction that the normal map holds at the parameters of the
    /// point, brought to length one.
    pub fn get_n_in_point(&self, point: &Point) -> (r: Result<Vec3, TextureError>)
        requires
            self.wf(),
        ensures
            self.texture().is_none() ==> r == Err::<Vec3, TextureError>(TextureError::MissingTexture),
            self.texture().is_some() ==> r.is_ok() && r.unwrap()@ == decoded_normal(
                self.color_at(point.u as int, point.v as int),
            ).normalized(),
            r.is_ok() ==> r.unwrap()@.bounded(UNIT_MAX as int),
    {
        match self.get_color_in_point(point) {
            Ok(color) => {
                let v = Vec3::new(self.scale_rgb(color.r()), self.scale_rgb(color.g()), self.scale_rgb(color.b()));
                Ok(v.normalize())
            },
            Err(e) => Err(e),
        }
    }

    /// A channel of a normal map as a coordinate between minus one and one.
    pub fn scale_rgb(&self, component: u8) -> (r: i64)
        ensures
            r == scale_rgb_spec(component as int),
            within(r as int, ONE as int),
    {
        proof {
            lemma_div_monotone(0, component * 2 * ONE, 255);
            lemma_div_monotone(component * 2 * ONE, (2 * ONE) * 255, 255);
            lemma_div_exact(2 * ONE, 255);
        }
        let q: i128 = floor_div((component as i128) * 2 * (ONE as i128), 255);
        (q as i64) - ONE
    }
}

} // verus!
