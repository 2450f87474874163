//! Pictures as plain samples, and what is done to them before text is read.

use vstd::prelude::*;
use vstd::arithmetic::div_mod::lemma_fundamental_div_mod;
use image::imageops::{crop_imm, FilterType};
use image::DynamicImage::{
    ImageLuma16, ImageLuma8, ImageLumaA16, ImageLumaA8, ImageRgb16, ImageRgb8, ImageRgba16,
    ImageRgba8,
};
use image::{ImageBuffer, ImageFormat};
use std::io::Cursor;
use crate::picture::PixelFormat::{
    Luma16, Luma8, LumaA16, LumaA8, Rgb16, Rgb8, Rgba16, Rgba8,
};
use crate::png::{begins_as_png, can_decode};
use crate::png::{is_decodable, is_png};

verus! {

/// How the samples of a picture form its pixels.
#[derive(Clone, Copy, Debug, PartialEq, Eq, Structural)]
pub enum PixelFormat {
    /// One sample: the luminance.
    Luma8,
    /// Two samples: the luminance and the opacity.
    LumaA8,
    /// Three samples: red, green and blue.
    Rgb8,
    /// Four samples: red, green, blue and the opacity.
    Rgba8,
    /// As [`PixelFormat::Luma8`], with two bytes for a sample, the higher first.
    Luma16,
    /// As [`PixelFormat::LumaA8`], with two bytes for a sample, the higher first.
    LumaA16,
    /// As [`PixelFormat::Rgb8`], with two bytes for a sample, the higher first.
    Rgb16,
    /// As [`PixelFormat::Rgba8`], with two bytes for a sample, the higher first.
    Rgba16,
}

impl PixelFormat {
    /// How many samples form a pixel.
    pub open spec fn channels(self) -> nat {
        match self {
            PixelFormat::Luma8 | PixelFormat::Luma16 => 1,
            PixelFormat::LumaA8 | PixelFormat::LumaA16 => 2,
            PixelFormat::Rgb8 | PixelFormat::Rgb16 => 3,
            PixelFormat::Rgba8 | PixelFormat::Rgba16 => 4,
        }
    }

    /// A sample has two bytes.
    pub open spec fn deep(self) -> bool {
        self is Luma16 || self is LumaA16 || self is Rgb16 || self is Rgba16
    }

    /// How many bytes form a pixel.
    pub open spec fn bytes(self) -> nat {
        if self.deep() {
            self.channels() * 2
        } else {
            self.channels()
        }
    }

    fn is_deep(self) -> (r: bool)
        ensures
            r == self.deep(),
    {
        match self {
            PixelFormat::Luma16 | PixelFormat::LumaA16 | PixelFormat::Rgb16
            | PixelFormat::Rgba16 => true,
            _ => false,
        }
    }
}

/// A picture: its pixels row by row, each as the bytes of its samples.
#[derive(Debug)]
pub struct Picture {
    pub format: PixelFormat,
    pub width: u32,
    pub height: u32,
    pub samples: Vec<u8>,
}

/// A picture as a mathematical value.
#[verifier::ext_equal]
pub struct Raster {
    pub format: PixelFormat,
    pub width: u32,
    pub height: u32,
    pub samples: Seq<u8>,
}

impl View for Picture {
    type V = Raster;

    open spec fn view(&self) -> Raster {
        Raster {
            format: self.format,
            width: self.width,
            height: self.height,
            samples: self.samples@,
        }
    }
}

impl Raster {
    /// How many pixels there are.
    pub open spec fn pixels(self) -> nat {
        self.width as nat * self.height as nat
    }

    /// There are as many bytes as the pixels need.
    pub open spec fn wf(self) -> bool {
        self.samples.len() == self.pixels() * self.format.bytes()
    }

    /// The picture is well formed, and four samples for each pixel of a row can be counted.
    pub open spec fn countable(self) -> bool {
        &&& self.wf()
        &&& self.width as nat * 4 <= usize::MAX
    }

    /// The pixels can be counted in 32 bits, and four samples for each of them fit in
    /// memory.
    pub open spec fn handy(self) -> bool {
        &&& self.countable()
        &&& self.pixels() <= u32::MAX
        &&& self.pixels() * 4 <= isize::MAX
    }
}

/// Sample `k` of two bytes, the higher first.
pub open spec fn word_at(s: Seq<u8>, k: int) -> u16 {
    (s[2 * k] as int * 256 + s[2 * k + 1]) as u16
}

/// The samples of two bytes each.
pub open spec fn words_from(s: Seq<u8>) -> Seq<u16> {
    Seq::new(s.len() / 2, |k: int| word_at(s, k))
}

/// The bytes of samples, two for each, the higher first.
pub open spec fn bytes_from(t: Seq<u16>) -> Seq<u8> {
    Seq::new(
        t.len() * 2,
        |k: int|
            if k % 2 == 0 {
                (t[k / 2] / 256) as u8
            } else {
                (t[k / 2] % 256) as u8
            },
    )
}

/// A sample of two bytes brought to one: rounded to the nearest.
pub open spec fn narrowed(v: u16) -> u8 {
    ((v + 128) / 257) as u8
}

/// The luminance of a colour.
pub open spec fn luminance(r: u8, g: u8, b: u8) -> u8 {
    ((2126 * r + 7152 * g + 722 * b) / 10000) as u8
}

/// The luminance of a colour in samples of two bytes.
pub open spec fn deep_luminance(r: u16, g: u16, b: u16) -> u16 {
    ((2126 * r + 7152 * g + 722 * b) / 10000) as u16
}

/// The luminance of pixel `i`.
pub open spec fn luma_at(p: Raster, i: int) -> u8 {
    let s = p.samples;
    match p.format {
        PixelFormat::Luma8 => s[i],
        PixelFormat::LumaA8 => s[2 * i],
        PixelFormat::Rgb8 => luminance(s[3 * i], s[3 * i + 1], s[3 * i + 2]),
        PixelFormat::Rgba8 => luminance(s[4 * i], s[4 * i + 1], s[4 * i + 2]),
        PixelFormat::Luma16 => narrowed(word_at(s, i)),
        PixelFormat::LumaA16 => narrowed(word_at(s, 2 * i)),
        PixelFormat::Rgb16 => narrowed(
            deep_luminance(word_at(s, 3 * i), word_at(s, 3 * i + 1), word_at(s, 3 * i + 2)),
        ),
        PixelFormat::Rgba16 => narrowed(
            deep_luminance(word_at(s, 4 * i), word_at(s, 4 * i + 1), word_at(s, 4 * i + 2)),
        ),
    }
}

/// Red, green, blue or the opacity, the sample `c`, of pixel `i`. A picture without
/// opacity is opaque.
pub open spec fn rgba_at(p: Raster, i: int, c: int) -> u8 {
    let s = p.samples;
    match p.format {
        PixelFormat::Luma8 => if c < 3 {
            s[i]
        } else {
            255
        },
        PixelFormat::LumaA8 => if c < 3 {
            s[2 * i]
        } else {
            s[2 * i + 1]
        },
        PixelFormat::Rgb8 => if c < 3 {
            s[3 * i + c]
        } else {
            255
        },
        PixelFormat::Rgba8 => s[4 * i + c],
        PixelFormat::Luma16 => if c < 3 {
            narrowed(word_at(s, i))
        } else {
            255
        },
        PixelFormat::LumaA16 => if c < 3 {
            narrowed(word_at(s, 2 * i))
        } else {
            narrowed(word_at(s, 2 * i + 1))
        },
        PixelFormat::Rgb16 => if c < 3 {
            narrowed(word_at(s, 3 * i + c))
        } else {
            255
        },
        PixelFormat::Rgba16 => narrowed(word_at(s, 4 * i + c)),
    }
}

/// The luminances of all pixels.
pub open spec fn luma_of(p: Raster) -> Seq<u8> {
    Seq::new(p.pixels(), |i: int| luma_at(p, i))
}

/// The samples of the picture with red, green, blue and opacity.
pub open spec fn rgba_of(p: Raster) -> Seq<u8> {
    Seq::new(p.pixels() * 4, |k: int| rgba_at(p, k / 4, k % 4))
}

/// The samples of the picture with red, green and blue.
pub open spec fn rgb_of(p: Raster) -> Seq<u8> {
    Seq::new(p.pixels() * 3, |k: int| rgba_at(p, k / 3, k % 3))
}

/// A part of a picture, with red, green, blue and opacity. What would lie outside the
/// picture is left out.
pub open spec fn cropped(p: Raster, x: u32, y: u32, width: u32, height: u32) -> Raster {
    let left = if x < p.width {
        x
    } else {
        p.width
    };
    let top = if y < p.height {
        y
    } else {
        p.height
    };
    let w = if width < p.width - left {
        width
    } else {
        (p.width - left) as u32
    };
    let h = if height < p.height - top {
        height
    } else {
        (p.height - top) as u32
    };
    Raster {
        format: PixelFormat::Rgba8,
        width: w,
        height: h,
        samples: Seq::new(
            w as nat * h as nat * 4,
            |k: int|
                rgba_at(
                    p,
                    (top + (k / 4) / w as int) * p.width + left + (k / 4) % w as int,
                    k % 4,
                ),
        ),
    }
}

/// The longest side that a picture is scaled from. For each new pixel a place along the old side
/// is computed in numbers of 24 binary places, by five roundings: it is off by five parts in
/// `2^24` of the side. Up to this length that is less than a third of a pixel, so that the pixel
/// nearest to the place, half a pixel away at most, always has a weight above zero, by the sum of
/// which the weights are divided.
pub const LONGEST_SCALED_SIDE: u32 = 0x10_0000;

/// A picture of one size can be scaled to another: the sides that it is scaled from are not too
/// long for the weights to be told apart, and the pictures fit in memory.
pub open spec fn can_scale(width: u32, height: u32, new_width: u32, new_height: u32) -> bool {
    &&& width == 0 || height == 0 || (width <= LONGEST_SCALED_SIDE && height <= LONGEST_SCALED_SIDE
        && width as nat * new_height as nat * 16 <= isize::MAX)
    &&& width as nat * 4 <= usize::MAX
    &&& new_width as nat * 4 <= usize::MAX
    &&& new_width as nat * new_height as nat * 8 <= isize::MAX
}

/// The samples of a picture scaled to a new size, each the mean of those around its
/// place, weighted by their nearness.
pub uninterp spec fn scaled_samples(
    channels: nat,
    width: u32,
    height: u32,
    samples: Seq<u8>,
    new_width: u32,
    new_height: u32,
) -> Seq<u8>;

/// As [`scaled_samples`], for samples of two bytes.
pub uninterp spec fn scaled_words(
    channels: nat,
    width: u32,
    height: u32,
    words: Seq<u16>,
    new_width: u32,
    new_height: u32,
) -> Seq<u16>;

/// A picture scaled to a new size.
pub open spec fn scaled(p: Raster, width: u32, height: u32) -> Raster {
    let n = p.format.channels();
    Raster {
        format: p.format,
        width,
        height,
        samples: if p.format.deep() {
            bytes_from(
                scaled_words(n, p.width, p.height, words_from(p.samples), width, height),
            )
        } else {
            scaled_samples(n, p.width, p.height, p.samples, width, height)
        },
    }
}

/// The bytes of a picture as a PNG file, if it can be one.
pub uninterp spec fn png_file(
    channels: nat,
    deep: bool,
    width: u32,
    height: u32,
    samples: Seq<u8>,
) -> Option<Seq<u8>>;

/// A picture as a PNG file, if it can be one.
pub open spec fn png_of(p: Raster) -> Option<Seq<u8>> {
    png_file(p.format.channels(), p.format.deep(), p.width, p.height, p.samples)
}

/// What `image::load_from_memory` reads from the bytes of a file, if it reads a picture: its sides,
/// its channels, and its samples, which are of one byte or of two.
pub uninterp spec fn picture_in(file: Seq<u8>) -> Option<(u32, u32, nat, Seq<u8>, Seq<u16>)>;

/// The sides, the channels and the samples of a picture.
pub open spec fn content(p: Raster) -> (u32, u32, nat, Seq<u8>, Seq<u16>) {
    if p.format.deep() {
        (p.width, p.height, p.format.channels(), Seq::empty(), words_from(p.samples))
    } else {
        (p.width, p.height, p.format.channels(), p.samples, Seq::empty())
    }
}

/// The samples form a picture that the outside functions can hold; `t` has them as whole numbers
/// where they are of two bytes.
pub open spec fn stored(
    format: PixelFormat,
    w: u32,
    h: u32,
    s: Seq<u8>,
    t: Seq<u16>,
) -> bool {
    &&& (Raster { format, width: w, height: h, samples: s }).countable()
    &&& format.deep() ==> t == words_from(s)
}

/// `DynamicImage::to_luma8`: the luminance of a coloured pixel is the weighted sum of its
/// colours, in ten-thousandths, cut to a whole number; that of another is its first sample. One
/// of two bytes is then brought to one.
#[verifier::external_body]
fn luma_samples(f: PixelFormat, w: u32, h: u32, s: Vec<u8>, t: Vec<u16>) -> (r: Vec<u8>)
    requires
        stored(f, w, h, s@, t@),
    ensures
        r@ == luma_of(Raster { format: f, width: w, height: h, samples: s@ }),
{
    let img = match f {
        Luma8 => ImageBuffer::from_raw(w, h, s).map(ImageLuma8),
        LumaA8 => ImageBuffer::from_raw(w, h, s).map(ImageLumaA8),
        Rgb8 => ImageBuffer::from_raw(w, h, s).map(ImageRgb8),
        Rgba8 => ImageBuffer::from_raw(w, h, s).map(ImageRgba8),
        Luma16 => ImageBuffer::from_raw(w, h, t).map(ImageLuma16),
        LumaA16 => ImageBuffer::from_raw(w, h, t).map(ImageLumaA16),
        Rgb16 => ImageBuffer::from_raw(w, h, t).map(ImageRgb16),
        Rgba16 => ImageBuffer::from_raw(w, h, t).map(ImageRgba16),
    };
    img.unwrap().to_luma8().into_raw()
}

/// `DynamicImage::to_rgba8`: gray is spread over the three colours, a pixel without opacity is
/// opaque, and samples of two bytes are brought to one.
#[verifier::external_body]
fn rgba_samples(f: PixelFormat, w: u32, h: u32, s: Vec<u8>, t: Vec<u16>) -> (r: Vec<u8>)
    requires
        stored(f, w, h, s@, t@),
        w as nat * h as nat * 4 <= isize::MAX,
    ensures
        r@ == rgba_of(Raster { format: f, width: w, height: h, samples: s@ }),
{
    let img = match f {
        Luma8 => ImageBuffer::from_raw(w, h, s).map(ImageLuma8),
        LumaA8 => ImageBuffer::from_raw(w, h, s).map(ImageLumaA8),
        Rgb8 => ImageBuffer::from_raw(w, h, s).map(ImageRgb8),
        Rgba8 => ImageBuffer::from_raw(w, h, s).map(ImageRgba8),
        Luma16 => ImageBuffer::from_raw(w, h, t).map(ImageLuma16),
        LumaA16 => ImageBuffer::from_raw(w, h, t).map(ImageLumaA16),
        Rgb16 => ImageBuffer::from_raw(w, h, t).map(ImageRgb16),
        Rgba16 => ImageBuffer::from_raw(w, h, t).map(ImageRgba16),
    };
    img.unwrap().to_rgba8().into_raw()
}

/// `DynamicImage::to_rgb8`: gray is spread over the three colours, opacity is dropped, and
/// samples of two bytes are brought to one.
#[verifier::external_body]
fn rgb_samples(f: PixelFormat, w: u32, h: u32, s: Vec<u8>, t: Vec<u16>) -> (r: Vec<u8>)
    requires
        stored(f, w, h, s@, t@),
        w as nat * h as nat * 3 <= isize::MAX,
    ensures
        r@ == rgb_of(Raster { format: f, width: w, height: h, samples: s@ }),
{
    let img = match f {
        Luma8 => ImageBuffer::from_raw(w, h, s).map(ImageLuma8),
        LumaA8 => ImageBuffer::from_raw(w, h, s).map(ImageLumaA8),
        Rgb8 => ImageBuffer::from_raw(w, h, s).map(ImageRgb8),
        Rgba8 => ImageBuffer::from_raw(w, h, s).map(ImageRgba8),
        Luma16 => ImageBuffer::from_raw(w, h, t).map(ImageLuma16),
        LumaA16 => ImageBuffer::from_raw(w, h, t).map(ImageLumaA16),
        Rgb16 => ImageBuffer::from_raw(w, h, t).map(ImageRgb16),
        Rgba16 => ImageBuffer::from_raw(w, h, t).map(ImageRgba16),
    };
    img.unwrap().to_rgb8().into_raw()
}

/// `imageops::crop_imm` on a `DynamicImage`, copied by `SubImage::to_image`: the part is
/// first cut to what lies in the picture, and each of its pixels is read with opacity, in
/// samples of one byte. The part is given by its place and its sides.
#[verifier::external_body]
fn crop_samples(
    f: PixelFormat,
    w: u32,
    h: u32,
    s: Vec<u8>,
    t: Vec<u16>,
    part: (u32, u32, u32, u32),
) -> (r: Vec<u8>)
    requires
        stored(f, w, h, s@, t@),
        w as nat * h as nat * 4 <= isize::MAX,
    ensures
        r@ == cropped(
            Raster { format: f, width: w, height: h, samples: s@ },
            part.0,
            part.1,
            part.2,
            part.3,
        ).samples,
{
    let img = match f {
        Luma8 => ImageBuffer::from_raw(w, h, s).map(ImageLuma8),
        LumaA8 => ImageBuffer::from_raw(w, h, s).map(ImageLumaA8),
        Rgb8 => ImageBuffer::from_raw(w, h, s).map(ImageRgb8),
        Rgba8 => ImageBuffer::from_raw(w, h, s).map(ImageRgba8),
        Luma16 => ImageBuffer::from_raw(w, h, t).map(ImageLuma16),
        LumaA16 => ImageBuffer::from_raw(w, h, t).map(ImageLumaA16),
        Rgb16 => ImageBuffer::from_raw(w, h, t).map(ImageRgb16),
        Rgba16 => ImageBuffer::from_raw(w, h, t).map(ImageRgba16),
    };
    crop_imm(&img.unwrap(), part.0, part.1, part.2, part.3).to_image().into_raw()
}

/// `DynamicImage::resize_exact` with the triangle filter, on samples of one byte. Which samples
/// come out is named, not stated. There are as many as the new size needs; a picture without
/// pixels gives zeros, and one that already has the size is copied.
#[verifier::external_body]
fn scale_samples(
    f: PixelFormat,
    w: u32,
    h: u32,
    s: Vec<u8>,
    size: (u32, u32),
) -> (r: Vec<u8>)
    requires
        !f.deep(),
        (Raster { format: f, width: w, height: h, samples: s@ }).wf(),
        can_scale(w, h, size.0, size.1),
    ensures
        r@ == scaled_samples(f.channels(), w, h, s@, size.0, size.1),
        r@.len() == size.0 as nat * size.1 as nat * f.channels(),
        w == size.0 && h == size.1 ==> r@ == s@,
        w == 0 || h == 0 ==> forall|i: int| 0 <= i < r@.len() ==> #[trigger] r@[i] == 0,
{
    let img = match f {
        Luma8 => ImageBuffer::from_raw(w, h, s).map(ImageLuma8),
        LumaA8 => ImageBuffer::from_raw(w, h, s).map(ImageLumaA8),
        Rgb8 => ImageBuffer::from_raw(w, h, s).map(ImageRgb8),
        _ => ImageBuffer::from_raw(w, h, s).map(ImageRgba8),
    };
    img.unwrap().resize_exact(size.0, size.1, FilterType::Triangle).into_bytes()
}

/// `DynamicImage::resize_exact` with the triangle filter, on samples of two bytes. What is
/// claimed is the same as for samples of one.
#[verifier::external_body]
fn scale_words(
    f: PixelFormat,
    w: u32,
    h: u32,
    t: Vec<u16>,
    size: (u32, u32),
) -> (r: Vec<u16>)
    requires
        f.deep(),
        t@.len() == w as nat * h as nat * f.channels(),
        can_scale(w, h, size.0, size.1),
    ensures
        r@ == scaled_words(f.channels(), w, h, t@, size.0, size.1),
        r@.len() == size.0 as nat * size.1 as nat * f.channels(),
        w == size.0 && h == size.1 ==> r@ == t@,
        w == 0 || h == 0 ==> forall|i: int| 0 <= i < r@.len() ==> #[trigger] r@[i] == 0,
{
    let img = match f {
        Luma16 => ImageBuffer::from_raw(w, h, t).map(ImageLuma16),
        LumaA16 => ImageBuffer::from_raw(w, h, t).map(ImageLumaA16),
        Rgb16 => ImageBuffer::from_raw(w, h, t).map(ImageRgb16),
        _ => ImageBuffer::from_raw(w, h, t).map(ImageRgba16),
    };
    match img.unwrap().resize_exact(size.0, size.1, FilterType::Triangle) {
        ImageLuma16(p) => p.into_raw(),
        ImageLumaA16(p) => p.into_raw(),
        ImageRgb16(p) => p.into_raw(),
        p => p.into_rgba16().into_raw(),
    }
}

/// `DynamicImage::write_to` in the PNG format, into memory. Which bytes come out is named, not
/// stated. A picture without pixels cannot be written.
#[verifier::external_body]
fn png_bytes(f: PixelFormat, w: u32, h: u32, s: Vec<u8>, t: Vec<u16>) -> (r: Option<Vec<u8>>)
    requires
        stored(f, w, h, s@, t@),
    ensures
        match r {
            Some(v) => png_file(f.channels(), f.deep(), w, h, s@) == Some(v@),
            None => png_file(f.channels(), f.deep(), w, h, s@) is None,
        },
        w == 0 || h == 0 ==> r is None,
{
    let img = match f {
        Luma8 => ImageBuffer::from_raw(w, h, s).map(ImageLuma8),
        LumaA8 => ImageBuffer::from_raw(w, h, s).map(ImageLumaA8),
        Rgb8 => ImageBuffer::from_raw(w, h, s).map(ImageRgb8),
        Rgba8 => ImageBuffer::from_raw(w, h, s).map(ImageRgba8),
        Luma16 => ImageBuffer::from_raw(w, h, t).map(ImageLuma16),
        LumaA16 => ImageBuffer::from_raw(w, h, t).map(ImageLumaA16),
        Rgb16 => ImageBuffer::from_raw(w, h, t).map(ImageRgb16),
        Rgba16 => ImageBuffer::from_raw(w, h, t).map(ImageRgba16),
    };
    let mut out: Vec<u8> = Vec::new();
    img?.write_to(&mut Cursor::new(&mut out), ImageFormat::Png).ok()?;
    Some(out)
}

/// `image::ImageError`, which says why bytes hold no picture.
#[verifier::external_type_specification]
#[verifier::external_body]
pub struct ExImageError(image::ImageError);

/// The bytes are not those of a PNG file that the decoder cannot take.
pub open spec fn can_load(file: Seq<u8>) -> bool {
    begins_as_png(file) ==> can_decode(file)
}

/// Samples as they are read from a file.
enum Samples {
    Luma8(Vec<u8>),
    LumaA8(Vec<u8>),
    Rgb8(Vec<u8>),
    Rgba8(Vec<u8>),
    Luma16(Vec<u16>),
    LumaA16(Vec<u16>),
    Rgb16(Vec<u16>),
    Rgba16(Vec<u16>),
}

impl Samples {
    /// The channels, and the samples of one byte or of two.
    spec fn parts(self) -> (nat, Seq<u8>, Seq<u16>) {
        match self {
            Samples::Luma8(s) => (1, s@, Seq::empty()),
            Samples::LumaA8(s) => (2, s@, Seq::empty()),
            Samples::Rgb8(s) => (3, s@, Seq::empty()),
            Samples::Rgba8(s) => (4, s@, Seq::empty()),
            Samples::Luma16(t) => (1, Seq::empty(), t@),
            Samples::LumaA16(t) => (2, Seq::empty(), t@),
            Samples::Rgb16(t) => (3, Seq::empty(), t@),
            Samples::Rgba16(t) => (4, Seq::empty(), t@),
        }
    }
}

/// `image::load_from_memory`, which is built to read PNG files and no others: other bytes give an
/// error. Which picture a PNG file holds is named, not stated; its samples fill the picture, and
/// are of one byte or of two, so that the last arm below is never taken. The decoder panics on
/// palettes of more than 256 colours or with a part of one, and where counts of bytes or frames
/// overflow: such files are left out.
#[verifier::external_body]
fn load_bytes(file: &[u8]) -> (r: Result<(u32, u32, Samples), image::ImageError>)
    requires
        can_load(file@),
    ensures
        match r {
            Ok(p) => picture_in(file@) == Some(
                (p.0, p.1, p.2.parts().0, p.2.parts().1, p.2.parts().2),
            ),
            Err(_) => picture_in(file@) is None,
        },
        r matches Ok(p) ==> p.2.parts().1.len() + p.2.parts().2.len() == p.0 as nat * p.1 as nat
            * p.2.parts().0,
        !begins_as_png(file@) ==> r is Err,
{
    let img = image::load_from_memory(file)?;
    Ok((img.width(), img.height(), match img {
        ImageLuma8(p) => Samples::Luma8(p.into_raw()),
        ImageLumaA8(p) => Samples::LumaA8(p.into_raw()),
        ImageRgb8(p) => Samples::Rgb8(p.into_raw()),
        ImageRgba8(p) => Samples::Rgba8(p.into_raw()),
        ImageLuma16(p) => Samples::Luma16(p.into_raw()),
        ImageLumaA16(p) => Samples::LumaA16(p.into_raw()),
        ImageRgb16(p) => Samples::Rgb16(p.into_raw()),
        ImageRgba16(p) => Samples::Rgba16(p.into_raw()),
        p => Samples::Rgba8(p.into_rgba8().into_raw()),
    }))
}

/// The samples that pairs of bytes hold, the higher first.
fn join_bytes(s: &Vec<u8>) -> (t: Vec<u16>)
    ensures
        t@ == words_from(s@),
{
    let all: usize = s.len();
    let n: usize = all / 2;
    let mut t: Vec<u16> = Vec::new();
    let mut k: usize = 0;
    while k < n
        invariant
            k <= n == all / 2,
            all == s@.len(),
            t@ == words_from(s@).take(k as int),
        decreases n - k,
    {
        t.push(s[2 * k] as u16 * 256 + s[2 * k + 1] as u16);
        k = k + 1;
        proof {
            assert(t@ =~= words_from(s@).take(k as int));
        }
    }
    proof {
        assert(words_from(s@).take(k as int) =~= words_from(s@));
    }
    t
}

/// The bytes of samples, two for each, the higher first.
fn part_words(t: &Vec<u16>) -> (s: Vec<u8>)
    ensures
        s@ == bytes_from(t@),
{
    let mut s: Vec<u8> = Vec::new();
    let mut k: usize = 0;
    while k < t.len()
        invariant
            k <= t@.len(),
            s@ == bytes_from(t@).take(2 * k),
        decreases t@.len() - k,
    {
        s.push((t[k] / 256) as u8);
        s.push((t[k] % 256) as u8);
        k = k + 1;
        proof {
            assert(s@ =~= bytes_from(t@).take(2 * k));
        }
    }
    proof {
        assert(bytes_from(t@).take(2 * k) =~= bytes_from(t@));
    }
    s
}

/// Samples of two bytes are kept by their bytes.
pub proof fn law_bytes_hold_their_samples(t: Seq<u16>)
    ensures
        words_from(bytes_from(t)) == t,
{
    assert forall|k: int| 0 <= k < t.len() implies words_from(bytes_from(t))[k] == t[k] by {
        assert((2 * k) / 2 == k && (2 * k + 1) / 2 == k && (2 * k + 1) % 2 == 1);
        assert(t[k] == (t[k] / 256) * 256 + t[k] % 256);
    }
    assert(words_from(bytes_from(t)) =~= t);
}

proof fn lemma_samples_hold_their_bytes(s: Seq<u8>)
    requires
        s.len() % 2 == 0,
    ensures
        bytes_from(words_from(s)) == s,
{
    assert forall|k: int| 0 <= k < s.len() implies bytes_from(words_from(s))[k] == s[k] by {
        let j = k / 2;
        let v = word_at(s, j);
        assert(v == s[2 * j] * 256 + s[2 * j + 1]);
        assert(v / 256 == s[2 * j] && v % 256 == s[2 * j + 1]);
    }
    assert(bytes_from(words_from(s)) =~= s);
}

/// Why a picture could not be had.
#[derive(Clone, Copy, Debug, PartialEq, Eq, Structural)]
pub enum PictureError {
    /// The bytes hold no picture.
    Unreadable,
}

/// The picture that the bytes of a file hold: there is one where they are a PNG file that can be
/// read.
pub fn load_picture(file: &[u8]) -> (r: Result<Picture, PictureError>)
    ensures
        match r {
            Ok(p) => can_load(file@) && picture_in(file@) == Some(content(p@)) && p@.wf(),
            Err(_) => !can_load(file@) || picture_in(file@) is None,
        },
        !begins_as_png(file@) ==> r is Err,
{
    if is_png(file) && !is_decodable(file) {
        return Err(PictureError::Unreadable);
    }
    match load_bytes(file) {
        Ok(p) => Ok(make_picture(p.0, p.1, p.2)),
        Err(_) => Err(PictureError::Unreadable),
    }
}

fn make_picture(width: u32, height: u32, read: Samples) -> (r: Picture)
    requires
        read.parts().1.len() + read.parts().2.len() == width as nat * height as nat
            * read.parts().0,
    ensures
        r@.wf(),
        content(r@) == (width, height, read.parts().0, read.parts().1, read.parts().2),
{
    let ghost n = width as nat * height as nat;
    proof {
        law_bytes_hold_their_samples(read.parts().2);
        let c = read.parts().0;
        assert(n * c * 2 == n * (c * 2)) by (nonlinear_arith);
    }
    let (format, samples): (PixelFormat, Vec<u8>) = match read {
        Samples::Luma8(s) => (PixelFormat::Luma8, s),
        Samples::LumaA8(s) => (PixelFormat::LumaA8, s),
        Samples::Rgb8(s) => (PixelFormat::Rgb8, s),
        Samples::Rgba8(s) => (PixelFormat::Rgba8, s),
        Samples::Luma16(t) => (PixelFormat::Luma16, part_words(&t)),
        Samples::LumaA16(t) => (PixelFormat::LumaA16, part_words(&t)),
        Samples::Rgb16(t) => (PixelFormat::Rgb16, part_words(&t)),
        Samples::Rgba16(t) => (PixelFormat::Rgba16, part_words(&t)),
    };
    Picture { format, width, height, samples }
}

/// Whether a picture of one size can be scaled to another.
pub fn is_scalable(width: u32, height: u32, new_width: u32, new_height: u32) -> (r: bool)
    ensures
        r == can_scale(width, height, new_width, new_height),
{
    let most: u128 = isize::MAX as u128;
    let counted: u128 = usize::MAX as u128;
    proof {
        assert(new_width * new_height <= 0xffff_ffff * 0xffff_ffff) by (nonlinear_arith)
            requires
                new_width <= 0xffff_ffff,
                new_height <= 0xffff_ffff,
        ;
        assert(width * new_height <= 0xffff_ffff * 0xffff_ffff) by (nonlinear_arith)
            requires
                width <= 0xffff_ffff,
                new_height <= 0xffff_ffff,
        ;
    }
    (width == 0 || height == 0 || (width <= LONGEST_SCALED_SIDE && height <= LONGEST_SCALED_SIDE
        && width as u128 * new_height as u128 * 16 <= most)) && width as u128 * 4 <= counted
        && new_width as u128 * 4 <= counted && new_width as u128 * new_height as u128 * 8 <= most
}

impl Picture {
    /// Whether there are as many bytes as the pixels need, the pixels can be counted in 32
    /// bits, four samples for each of them fit in memory, and four for each of a row can be
    /// counted.
    pub fn is_handy(&self) -> (r: bool)
        ensures
            r == self@.handy(),
    {
        let bytes: u128 = match self.format {
            PixelFormat::Luma8 => 1,
            PixelFormat::LumaA8 | PixelFormat::Luma16 => 2,
            PixelFormat::Rgb8 => 3,
            PixelFormat::Rgba8 | PixelFormat::LumaA16 => 4,
            PixelFormat::Rgb16 => 6,
            PixelFormat::Rgba16 => 8,
        };
        proof {
            assert(self.width * self.height <= 0xffff_ffff * 0xffff_ffff) by (nonlinear_arith)
                requires
                    self.width <= 0xffff_ffff,
                    self.height <= 0xffff_ffff,
            ;
        }
        let pixels: u128 = self.width as u128 * self.height as u128;
        self.samples.len() as u128 == pixels * bytes && pixels <= u32::MAX as u128 && pixels * 4
            <= isize::MAX as u128 && self.width as u128 * 4 <= usize::MAX as u128
    }

    /// The samples of two bytes, if they are of two.
    fn words(&self) -> (t: Vec<u16>)
        ensures
            self.format.deep() ==> t@ == words_from(self.samples@),
    {
        if self.format.is_deep() {
            join_bytes(&self.samples)
        } else {
            Vec::new()
        }
    }

    /// The luminances of all pixels.
    pub fn to_luma8(&self) -> (r: Vec<u8>)
        requires
            self@.countable(),
        ensures
            r@ == luma_of(self@),
    {
        luma_samples(self.format, self.width, self.height, self.samples.clone(), self.words())
    }

    /// The picture with red, green, blue and opacity, in samples of one byte.
    pub fn to_rgba8(&self) -> (r: Picture)
        requires
            self@.countable(),
            self@.pixels() * 4 <= isize::MAX,
        ensures
            r@ == (Raster { format: PixelFormat::Rgba8, samples: rgba_of(self@), ..self@ }),
            r@.wf(),
    {
        Picture {
            format: PixelFormat::Rgba8,
            width: self.width,
            height: self.height,
            samples: rgba_samples(
                self.format,
                self.width,
                self.height,
                self.samples.clone(),
                self.words(),
            ),
        }
    }

    /// The picture with red, green and blue, in samples of one byte.
    pub fn to_rgb8(&self) -> (r: Picture)
        requires
            self@.countable(),
            self@.pixels() * 3 <= isize::MAX,
        ensures
            r@ == (Raster { format: PixelFormat::Rgb8, samples: rgb_of(self@), ..self@ }),
            r@.wf(),
    {
        Picture {
            format: PixelFormat::Rgb8,
            width: self.width,
            height: self.height,
            samples: rgb_samples(
                self.format,
                self.width,
                self.height,
                self.samples.clone(),
                self.words(),
            ),
        }
    }

    /// The part of the picture at `(x, y)`, at most `width` by `height` pixels large, in samples
    /// of one byte.
    pub fn crop(&self, x: u32, y: u32, width: u32, height: u32) -> (r: Picture)
        requires
            self@.countable(),
            self@.pixels() * 4 <= isize::MAX,
        ensures
            r@ == cropped(self@, x, y, width, height),
            r@.wf(),
    {
        let left: u32 = if x < self.width {
            x
        } else {
            self.width
        };
        let top: u32 = if y < self.height {
            y
        } else {
            self.height
        };
        let w: u32 = if width < self.width - left {
            width
        } else {
            self.width - left
        };
        let h: u32 = if height < self.height - top {
            height
        } else {
            self.height - top
        };
        Picture {
            format: PixelFormat::Rgba8,
            width: w,
            height: h,
            samples: crop_samples(
                self.format,
                self.width,
                self.height,
                self.samples.clone(),
                self.words(),
                (x, y, width, height),
            ),
        }
    }

    /// The picture scaled to a new size. One that has the size is kept, and one without pixels
    /// becomes black.
    pub fn resize_exact(&self, width: u32, height: u32) -> (r: Picture)
        requires
            self@.wf(),
            can_scale(self.width, self.height, width, height),
        ensures
            r@ == scaled(self@, width, height),
            r@.wf(),
            self.width == width && self.height == height ==> r@ == self@,
            self.width == 0 || self.height == 0 ==> forall|i: int|
                0 <= i < r.samples@.len() ==> #[trigger] r.samples@[i] == 0,
    {
        let samples: Vec<u8> = if self.format.is_deep() {
            let t: Vec<u16> = join_bytes(&self.samples);
            proof {
                let n = self@.pixels();
                let c = self.format.channels();
                assert(n * (c * 2) == n * c * 2) by (nonlinear_arith);
                let m = width as nat * height as nat;
                assert(m * (c * 2) == m * c * 2) by (nonlinear_arith);
                lemma_samples_hold_their_bytes(self.samples@);
            }
            part_words(&scale_words(self.format, self.width, self.height, t, (width, height)))
        } else {
            scale_samples(
                self.format,
                self.width,
                self.height,
                self.samples.clone(),
                (width, height),
            )
        };
        Picture { format: self.format, width, height, samples }
    }

    /// The bytes of the picture as a PNG file, if it can be one. A picture without pixels
    /// cannot.
    pub fn to_png(&self) -> (r: Option<Vec<u8>>)
        requires
            self@.countable(),
        ensures
            match r {
                Some(v) => png_of(self@) == Some(v@),
                None => png_of(self@) is None,
            },
            self.width == 0 || self.height == 0 ==> r is None,
    {
        png_bytes(self.format, self.width, self.height, self.samples.clone(), self.words())
    }
}

impl Clone for Picture {
    fn clone(&self) -> (r: Picture)
        ensures
            r@ == self@,
    {
        Picture {
            format: self.format,
            width: self.width,
            height: self.height,
            samples: self.samples.clone(),
        }
    }
}

/// The samples of a picture as blue, green, red and a fourth that is always full, the
/// order in which drawing surfaces keep them.
pub open spec fn bgrx_of(p: Raster) -> Seq<u8> {
    Seq::new(
        p.pixels() * 4,
        |k: int|
            if k % 4 == 3 {
                255
            } else {
                rgba_at(p, k / 4, 2 - k % 4)
            },
    )
}

/// The samples of a picture in the order in which drawing surfaces keep them.
pub fn bgrx_samples(p: &Picture) -> (r: Vec<u8>)
    requires
        p@.countable(),
        p@.pixels() * 4 <= isize::MAX,
    ensures
        r@ == bgrx_of(p@),
{
    let rgba: Vec<u8> = p.to_rgba8().samples;
    let n: usize = rgba.len();
    let mut r: Vec<u8> = Vec::new();
    let mut k: usize = 0;
    while k < n
        invariant
            k <= n == rgba@.len() == p@.pixels() * 4,
            k % 4 == 0,
            rgba@ == rgba_of(p@),
            r@ == bgrx_of(p@).take(k as int),
        decreases n - k,
    {
        r.push(rgba[k + 2]);
        r.push(rgba[k + 1]);
        r.push(rgba[k]);
        r.push(255);
        k = k + 4;
        proof {
            assert(r@ =~= bgrx_of(p@).take(k as int));
        }
    }
    proof {
        assert(bgrx_of(p@).take(k as int) =~= bgrx_of(p@));
    }
    r
}

/// Cropping to the whole picture keeps every pixel.
pub proof fn law_cropping_to_everything_keeps_every_pixel(p: Raster)
    requires
        p.wf(),
    ensures
        cropped(p, 0, 0, p.width, p.height).samples == rgba_of(p),
        cropped(p, 0, 0, p.width, p.height).width == p.width,
        cropped(p, 0, 0, p.width, p.height).height == p.height,
{
    let c = cropped(p, 0, 0, p.width, p.height);
    let w = p.width as int;
    assert(p.pixels() * 4 == p.width as nat * p.height as nat * 4);
    assert forall|k: int| 0 <= k < c.samples.len() implies c.samples[k] == rgba_of(p)[k] by {
        let i = k / 4;
        if w > 0 {
            lemma_fundamental_div_mod(i, w);
            assert((0 + i / w) * w + 0 + i % w == i) by (nonlinear_arith)
                requires
                    i == w * (i / w) + i % w,
            ;
        } else {
            assert(w * p.height == 0) by (nonlinear_arith)
                requires
                    w == 0,
            ;
        }
    }
    assert(c.samples =~= rgba_of(p));
}

/// Cropping takes each pixel from its place: the pixel in a column and a row of the part is the one
/// that stands as far right and down of the part's corner in the picture.
pub proof fn law_cropping_takes_pixels_from_their_places(
    p: Raster,
    x: u32,
    y: u32,
    width: u32,
    height: u32,
    column: int,
    row: int,
    c: int,
)
    requires
        x + width <= p.width,
        y + height <= p.height,
        0 <= column < width,
        0 <= row < height,
        0 <= c < 4,
    ensures
        ({
            let part = cropped(p, x, y, width, height);
            &&& part.width == width && part.height == height
            &&& part.wf()
            &&& rgba_at(part, row * width + column, c) == rgba_at(
                p,
                (y + row) * p.width + (x + column),
                c,
            )
        }),
{
    let part = cropped(p, x, y, width, height);
    let i = row * width + column;
    let w = width as int;
    assert(0 <= i < w * height) by (nonlinear_arith)
        requires
            i == row * w + column,
            0 <= column < w,
            0 <= row < height,
    ;
    vstd::arithmetic::div_mod::lemma_fundamental_div_mod_converse(i, w, row, column);
    let k = 4 * i + c;
    assert(k / 4 == i && k % 4 == c);
    assert(part.samples[k] == rgba_at(p, (y + row) * p.width + x + column, c));
    assert((y + row) * p.width + x + column == (y + row) * p.width + (x + column));
}

/// Drawing surfaces are given the colours of each pixel in reverse order, and full opacity.
pub proof fn law_surfaces_hold_the_colours_in_reverse(p: Raster, i: int)
    requires
        0 <= i < p.pixels(),
    ensures
        bgrx_of(p)[4 * i] == rgba_at(p, i, 2),
        bgrx_of(p)[4 * i + 1] == rgba_at(p, i, 1),
        bgrx_of(p)[4 * i + 2] == rgba_at(p, i, 0),
        bgrx_of(p)[4 * i + 3] == 255,
{
    assert((4 * i) / 4 == i && (4 * i) % 4 == 0);
    assert((4 * i + 1) / 4 == i && (4 * i + 1) % 4 == 1);
    assert((4 * i + 2) / 4 == i && (4 * i + 2) % 4 == 2);
    assert((4 * i + 3) % 4 == 3);
}

} // verus!
