//! The base image: decoding a raw pixel buffer into an 8-bit raster and
//! promoting that raster to RGBA.

use vstd::prelude::*;
use crate::error::PipelineError;

verus! {

/// The samples of a raw pixel buffer, as wide as they were stored.
pub enum Samples {
    /// Samples of eight bits.
    Bytes(Vec<u8>),
    /// Samples of sixteen bits.
    Words(Vec<u16>),
}

/// A raw pixel buffer with what is declared of it.
pub struct PixelBuffer {
    pub bits_allocated: u16,
    pub samples_per_pixel: u16,
    pub rows: u32,
    pub columns: u32,
    pub samples: Samples,
}

/// An 8-bit raster with one channel, row by row.
pub struct RasterImage {
    width: u32,
    height: u32,
    data: Vec<u8>,
}

/// What a raster is: its dimensions and its intensities, row by row.
pub struct RasterView {
    pub width: nat,
    pub height: nat,
    pub data: Seq<u8>,
}

impl View for RasterImage {
    type V = RasterView;

    closed spec fn view(&self) -> RasterView {
        RasterView { width: self.width as nat, height: self.height as nat, data: self.data@ }
    }
}

impl RasterImage {
    #[verifier::type_invariant]
    spec fn holds_its_pixels(self) -> bool {
        self.data@.len() == self.width * self.height
    }

    /// There is one intensity for every pixel. This holds of every raster.
    pub open spec fn wf(&self) -> bool {
        &&& self@.data.len() == self@.width * self@.height
        &&& self@.width <= u32::MAX
        &&& self@.height <= u32::MAX
    }

    /// Makes a raster of the given dimensions from its intensities. Fails
    /// where their number is not `width * height`.
    pub fn from_raw(width: u32, height: u32, data: Vec<u8>) -> (r: Option<RasterImage>)
        ensures
            r is Some <==> data@.len() == width * height,
            r matches Some(image) ==> image.wf() && image@ == (RasterView {
                width: width as nat,
                height: height as nat,
                data: data@,
            }),
    {
        assert(0 <= width * height <= 0xffff_ffff * 0xffff_ffff) by (nonlinear_arith)
            requires
                0 <= width <= 0xffff_ffff,
                0 <= height <= 0xffff_ffff,
        ;
        if (data.len() as u128) == (width as u128) * (height as u128) {
            Some(RasterImage { width, height, data })
        } else {
            None
        }
    }

    /// Makes a raster from intensities whose number is known to fit.
    pub(crate) fn from_parts(width: u32, height: u32, data: Vec<u8>) -> (r: RasterImage)
        requires
            data@.len() == width * height,
        ensures
            r.wf(),
            r@ == (RasterView { width: width as nat, height: height as nat, data: data@ }),
    {
        RasterImage { width, height, data }
    }

    /// The number of columns.
    pub fn width(&self) -> (r: u32)
        ensures
            r == self@.width,
            self.wf(),
    {
        proof {
            use_type_invariant(self);
        }
        self.width
    }

    /// The number of rows.
    pub fn height(&self) -> (r: u32)
        ensures
            r == self@.height,
            self.wf(),
    {
        proof {
            use_type_invariant(self);
        }
        self.height
    }

    /// The intensities, row by row.
    pub fn as_raw(&self) -> (r: &Vec<u8>)
        ensures
            r@ == self@.data,
            self.wf(),
    {
        proof {
            use_type_invariant(self);
        }
        &self.data
    }
}

/// An 8-bit image with the four channels red, green, blue and alpha, row
/// by row and pixel by pixel.
pub struct RgbaImage {
    width: u32,
    height: u32,
    data: Vec<u8>,
}

/// What an RGBA image is: its dimensions and its channel values, four
/// for every pixel.
pub struct RgbaView {
    pub width: nat,
    pub height: nat,
    pub data: Seq<u8>,
}

impl RgbaView {
    /// The four channel values of the pixel in column `x` of row `y`.
    pub open spec fn pixel(self, x: int, y: int) -> (u8, u8, u8, u8) {
        let at = 4 * (y * self.width + x);
        (self.data[at], self.data[at + 1], self.data[at + 2], self.data[at + 3])
    }
}

impl View for RgbaImage {
    type V = RgbaView;

    closed spec fn view(&self) -> RgbaView {
        RgbaView { width: self.width as nat, height: self.height as nat, data: self.data@ }
    }
}

impl RgbaImage {
    #[verifier::type_invariant]
    spec fn holds_its_pixels(self) -> bool {
        self.data@.len() == 4 * (self.width * self.height)
    }

    /// There are four channel values for every pixel. This holds of every
    /// image.
    pub open spec fn wf(&self) -> bool {
        &&& self@.data.len() == 4 * (self@.width * self@.height)
        &&& self@.width <= u32::MAX
        &&& self@.height <= u32::MAX
    }

    /// Makes an image of the given dimensions from its channel values.
    /// Fails where their number is not `4 * width * height`.
    pub fn from_raw(width: u32, height: u32, data: Vec<u8>) -> (r: Option<RgbaImage>)
        ensures
            r is Some <==> data@.len() == 4 * (width * height),
            r matches Some(image) ==> image.wf() && image@ == (RgbaView {
                width: width as nat,
                height: height as nat,
                data: data@,
            }),
    {
        assert(0 <= width * height <= 0xffff_ffff * 0xffff_ffff) by (nonlinear_arith)
            requires
                0 <= width <= 0xffff_ffff,
                0 <= height <= 0xffff_ffff,
        ;
        if (data.len() as u128) == 4 * ((width as u128) * (height as u128)) {
            Some(RgbaImage { width, height, data })
        } else {
            None
        }
    }

    /// Makes an image from channel values whose number is known to fit.
    pub(crate) fn from_parts(width: u32, height: u32, data: Vec<u8>) -> (r: RgbaImage)
        requires
            data@.len() == 4 * (width * height),
        ensures
            r.wf(),
            r@ == (RgbaView { width: width as nat, height: height as nat, data: data@ }),
    {
        RgbaImage { width, height, data }
    }

    /// The number of columns.
    pub fn width(&self) -> (r: u32)
        ensures
            r == self@.width,
            self.wf(),
    {
        proof {
            use_type_invariant(self);
        }
        self.width
    }

    /// The number of rows.
    pub fn height(&self) -> (r: u32)
        ensures
            r == self@.height,
            self.wf(),
    {
        proof {
            use_type_invariant(self);
        }
        self.height
    }

    /// The channel values, four for every pixel.
    pub fn as_raw(&self) -> (r: &Vec<u8>)
        ensures
            r@ == self@.data,
            self.wf(),
    {
        proof {
            use_type_invariant(self);
        }
        &self.data
    }

    /// Gives up the image for its channel values.
    pub fn into_raw(self) -> (r: Vec<u8>)
        ensures
            r@ == self@.data,
            self.wf(),
    {
        proof {
            use_type_invariant(&self);
        }
        self.data
    }

    /// The four channel values of one pixel.
    pub fn get_pixel(&self, x: u32, y: u32) -> (r: (u8, u8, u8, u8))
        requires
            x < self@.width,
            y < self@.height,
        ensures
            r == self@.pixel(x as int, y as int),
    {
        let len: usize = self.data.len();
        proof {
            use_type_invariant(self);
            let w = self.width as int;
            let h = self.height as int;
            assert(0 <= y * w + x < w * h) by (nonlinear_arith)
                requires
                    0 <= x < w,
                    0 <= y < h,
            ;
            assert(0 <= w * h <= 0xffff_ffff * 0xffff_ffff) by (nonlinear_arith)
                requires
                    0 <= w <= 0xffff_ffff,
                    0 <= h <= 0xffff_ffff,
            ;
            assert(0 <= y * w <= 0xffff_ffff * 0xffff_ffff) by (nonlinear_arith)
                requires
                    0 <= w <= 0xffff_ffff,
                    0 <= y <= 0xffff_ffff,
            ;
            assert(len == 4 * (w * h));
            assert(4 * (y * w + x) + 3 < len);
        }
        let at: usize = (4 * ((y as u128) * (self.width as u128) + (x as u128))) as usize;
        (self.data[at], self.data[at + 1], self.data[at + 2], self.data[at + 3])
    }
}

/// The RGBA image of a raster: every pixel gray and opaque.
pub open spec fn opaque_gray(gray: RasterView) -> RgbaView {
    RgbaView {
        width: gray.width,
        height: gray.height,
        data: Seq::new(
            4 * gray.data.len(),
            |k: int|
                if k % 4 == 3 {
                    255u8
                } else {
                    gray.data[k / 4]
                },
        ),
    }
}

/// Promotes a raster to RGBA: the intensity in the three color channels,
/// and full opacity.
pub fn gray_to_rgba(gray: &RasterImage) -> (r: RgbaImage)
    ensures
        r.wf(),
        r@ == opaque_gray(gray@),
{
    proof {
        use_type_invariant(gray);
    }
    let n: usize = gray.data.len();
    let mut data: Vec<u8> = Vec::new();
    let mut i: usize = 0;
    while i < n
        invariant
            i <= n,
            n == gray.data@.len(),
            data@.len() == 4 * i,
            forall|k: int| 0 <= k < 4 * i ==> #[trigger] data@[k] == opaque_gray(gray@).data[k],
        decreases n - i,
    {
        let g: u8 = gray.data[i];
        data.push(g);
        data.push(g);
        data.push(g);
        data.push(255);
        i += 1;
    }
    assert(data@ =~= opaque_gray(gray@).data);
    RgbaImage { width: gray.width, height: gray.height, data }
}

/// The smallest of the samples; zero where there are none.
pub open spec fn lowest(s: Seq<u16>) -> int
    decreases s.len(),
{
    if s.len() == 0 {
        0
    } else if s.len() == 1 {
        s[0] as int
    } else if s.last() < lowest(s.drop_last()) {
        s.last() as int
    } else {
        lowest(s.drop_last())
    }
}

/// The largest of the samples; zero where there are none.
pub open spec fn highest(s: Seq<u16>) -> int
    decreases s.len(),
{
    if s.len() == 0 {
        0
    } else if s.len() == 1 {
        s[0] as int
    } else if s.last() > highest(s.drop_last()) {
        s.last() as int
    } else {
        highest(s.drop_last())
    }
}

/// The width of the range of the samples, or one where they are all
/// equal.
pub open spec fn word_range(s: Seq<u16>) -> int {
    if highest(s) > lowest(s) {
        highest(s) - lowest(s)
    } else {
        1
    }
}

/// The intensity of a 16-bit sample `v`: its place in the range from `lo`
/// on, on a scale of 255, rounded to the nearest whole number.
pub open spec fn byte_of_word(v: int, lo: int, range: int) -> int {
    (510 * (v - lo) + range) / (2 * range)
}

/// The intensities of 16-bit samples: a linear rescale of their full range
/// to eight bits.
pub open spec fn rescaled_words(s: Seq<u16>) -> Seq<u8> {
    Seq::new(s.len(), |i: int| byte_of_word(s[i] as int, lowest(s), word_range(s)) as u8)
}

proof fn lemma_lowest_highest(s: Seq<u16>)
    ensures
        forall|i: int| 0 <= i < s.len() ==> lowest(s) <= #[trigger] s[i] <= highest(s),
        0 <= lowest(s) <= 0xffff,
        0 <= highest(s) <= 0xffff,
        lowest(s) <= highest(s),
    decreases s.len(),
{
    if s.len() > 1 {
        let t = s.drop_last();
        lemma_lowest_highest(t);
        assert forall|i: int| 0 <= i < s.len() implies lowest(s) <= #[trigger] s[i] <= highest(
            s,
        ) by {
            if i < t.len() {
                assert(s[i] == t[i]);
            }
        }
        assert(t[0] == s[0]);
    }
}

/// The intensity of a sample inside the range is a byte.
pub proof fn lemma_byte_of_word(v: int, lo: int, range: int)
    requires
        range > 0,
        lo <= v <= lo + range,
    ensures
        0 <= byte_of_word(v, lo, range) <= 255,
{
    let n = 510 * (v - lo) + range;
    assert(0 <= n / (2 * range) <= 255) by (nonlinear_arith)
        requires
            range > 0,
            0 <= n < 512 * range,
    ;
}

fn word_bounds(words: &Vec<u16>) -> (r: (u16, u16))
    ensures
        r.0 == lowest(words@),
        r.1 == highest(words@),
{
    if words.len() == 0 {
        return (0, 0);
    }
    let mut lo: u16 = words[0];
    let mut hi: u16 = words[0];
    let mut i: usize = 1;
    assert(words@.subrange(0, 1).len() == 1);
    while i < words.len()
        invariant
            1 <= i <= words@.len(),
            lo == lowest(words@.subrange(0, i as int)),
            hi == highest(words@.subrange(0, i as int)),
        decreases words@.len() - i,
    {
        let x: u16 = words[i];
        proof {
            let t = words@.subrange(0, i as int + 1);
            assert(t.drop_last() =~= words@.subrange(0, i as int));
            assert(t.last() == x);
        }
        if x < lo {
            lo = x;
        }
        if x > hi {
            hi = x;
        }
        i += 1;
    }
    assert(words@.subrange(0, i as int) =~= words@);
    (lo, hi)
}

/// Rescales 16-bit samples to intensities.
fn rescale_words(words: &Vec<u16>) -> (r: Vec<u8>)
    ensures
        r@ == rescaled_words(words@),
{
    let (lo, hi) = word_bounds(words);
    proof {
        lemma_lowest_highest(words@);
    }
    let range: u32 = if hi > lo {
        (hi - lo) as u32
    } else {
        1
    };
    let mut out: Vec<u8> = Vec::new();
    let mut i: usize = 0;
    while i < words.len()
        invariant
            i <= words@.len(),
            lo == lowest(words@),
            hi == highest(words@),
            range == word_range(words@),
            0 < range <= 0xffff,
            forall|k: int| 0 <= k < words@.len() ==> lo <= #[trigger] words@[k] <= hi,
            out@.len() == i,
            forall|k: int| 0 <= k < i ==> #[trigger] out@[k] == rescaled_words(words@)[k],
        decreases words@.len() - i,
    {
        let v: u16 = words[i];
        proof {
            assert(lo <= words@[i as int] <= hi);
            lemma_byte_of_word(v as int, lo as int, range as int);
        }
        let q: u32 = (510 * ((v - lo) as u32) + range) / (2 * range);
        out.push(q as u8);
        i += 1;
    }
    assert(out@ =~= rescaled_words(words@));
    out
}

/// The outcome of decoding a single-channel buffer.
pub open spec fn grayscale_outcome(buffer: PixelBuffer, r: Result<RasterImage, PipelineError>) -> bool {
    let data: Option<Seq<u8>> = match (buffer.bits_allocated, buffer.samples) {
        (8, Samples::Bytes(bytes)) => Some(bytes@),
        (16, Samples::Words(words)) => Some(rescaled_words(words@)),
        _ => None,
    };
    match data {
        None => r == Err::<RasterImage, PipelineError>(
            PipelineError::UnsupportedFormat {
                bits_allocated: buffer.bits_allocated,
                samples_per_pixel: buffer.samples_per_pixel,
            },
        ),
        Some(intensities) => if intensities.len() == buffer.rows * buffer.columns {
            r matches Ok(image) && image.wf() && image@ == (RasterView {
                width: buffer.columns as nat,
                height: buffer.rows as nat,
                data: intensities,
            })
        } else {
            r == Err::<RasterImage, PipelineError>(
                PipelineError::DimensionMismatch {
                    rows: buffer.rows,
                    columns: buffer.columns,
                    samples_per_pixel: 1,
                    actual: intensities.len() as usize,
                },
            )
        },
    }
}

/// Decodes a buffer with one sample per pixel into a raster. Samples of
/// eight bits are the intensities. Samples of sixteen bits are rescaled
/// linearly from their full range to eight bits. Any other depth is not
/// supported.
pub fn convert_to_grayscale_image(buffer: &PixelBuffer) -> (r: Result<RasterImage, PipelineError>)
    ensures
        grayscale_outcome(*buffer, r),
{
    let intensities: Vec<u8> = match &buffer.samples {
        Samples::Bytes(bytes) => {
            if buffer.bits_allocated != 8 {
                return Err(
                    PipelineError::UnsupportedFormat {
                        bits_allocated: buffer.bits_allocated,
                        samples_per_pixel: buffer.samples_per_pixel,
                    },
                );
            }
            bytes.clone()
        },
        Samples::Words(words) => {
            if buffer.bits_allocated != 16 {
                return Err(
                    PipelineError::UnsupportedFormat {
                        bits_allocated: buffer.bits_allocated,
                        samples_per_pixel: buffer.samples_per_pixel,
                    },
                );
            }
            rescale_words(words)
        },
    };
    let actual: usize = intensities.len();
    match RasterImage::from_raw(buffer.columns, buffer.rows, intensities) {
        Some(image) => Ok(image),
        None => Err(
            PipelineError::DimensionMismatch {
                rows: buffer.rows,
                columns: buffer.columns,
                samples_per_pixel: 1,
                actual,
            },
        ),
    }
}

/// What the `image` crate computes as the luma of an 8-bit RGB raster of
/// the given dimensions: one intensity for every pixel.
pub uninterp spec fn luma_of_rgb(width: u32, height: u32, rgb: Seq<u8>) -> Seq<u8>;

/// `image::DynamicImage::to_luma8` on an 8-bit RGB image made of the
/// buffer by `image::RgbImage::from_raw`: its luma image, which has one
/// intensity for every pixel. The buffer must hold three values for every
/// pixel.
#[verifier::external_body]
fn rgb_to_luma(width: u32, height: u32, rgb: Vec<u8>) -> (r: Vec<u8>)
    requires
        rgb@.len() == 3 * (width * height),
    ensures
        r@ == luma_of_rgb(width, height, rgb@),
        r@.len() == width * height,
{
    let image = image::RgbImage::from_raw(width, height, rgb).unwrap();
    image::DynamicImage::ImageRgb8(image).to_luma8().into_raw()
}

/// What the `image` crate computes as the luma of a 16-bit RGB raster of
/// the given dimensions: one intensity of eight bits for every pixel.
pub uninterp spec fn luma_of_rgb16(width: u32, height: u32, rgb: Seq<u16>) -> Seq<u8>;

/// `image::DynamicImage::to_luma8` on a 16-bit RGB image made of the
/// buffer by `image::ImageBuffer::from_raw`: its luma image of eight bits,
/// which has one intensity for every pixel. The buffer must hold three
/// values for every pixel.
#[verifier::external_body]
fn rgb16_to_luma(width: u32, height: u32, rgb: Vec<u16>) -> (r: Vec<u8>)
    requires
        rgb@.len() == 3 * (width * height),
    ensures
        r@ == luma_of_rgb16(width, height, rgb@),
        r@.len() == width * height,
{
    let image = image::ImageBuffer::from_raw(width, height, rgb).unwrap();
    image::DynamicImage::ImageRgb16(image).to_luma8().into_raw()
}

/// Whether the decoder handles a buffer: one or three samples per pixel,
/// of eight or of sixteen bits.
pub open spec fn is_supported(buffer: PixelBuffer) -> bool {
    match (buffer.samples_per_pixel, buffer.bits_allocated, buffer.samples) {
        (1, 8, Samples::Bytes(_)) => true,
        (1, 16, Samples::Words(_)) => true,
        (3, 8, Samples::Bytes(_)) => true,
        (3, 16, Samples::Words(_)) => true,
        _ => false,
    }
}

/// The number of samples that the buffer holds.
pub open spec fn sample_count(samples: Samples) -> nat {
    match samples {
        Samples::Bytes(bytes) => bytes@.len(),
        Samples::Words(words) => words@.len(),
    }
}

/// The intensities that a supported buffer of the right length decodes
/// to.
pub open spec fn decoded_intensities(buffer: PixelBuffer) -> Seq<u8> {
    match buffer.samples {
        Samples::Words(words) => if buffer.samples_per_pixel == 3 {
            luma_of_rgb16(buffer.columns, buffer.rows, words@)
        } else {
            rescaled_words(words@)
        },
        Samples::Bytes(bytes) => if buffer.samples_per_pixel == 3 {
            luma_of_rgb(buffer.columns, buffer.rows, bytes@)
        } else {
            bytes@
        },
    }
}

/// The outcome of decoding a pixel buffer to the base image.
pub open spec fn decode_outcome(buffer: PixelBuffer, r: Result<RgbaImage, PipelineError>) -> bool {
    if !is_supported(buffer) {
        r == Err::<RgbaImage, PipelineError>(
            PipelineError::UnsupportedFormat {
                bits_allocated: buffer.bits_allocated,
                samples_per_pixel: buffer.samples_per_pixel,
            },
        )
    } else if sample_count(buffer.samples) != buffer.samples_per_pixel * (buffer.rows
        * buffer.columns) {
        r == Err::<RgbaImage, PipelineError>(
            PipelineError::DimensionMismatch {
                rows: buffer.rows,
                columns: buffer.columns,
                samples_per_pixel: buffer.samples_per_pixel,
                actual: sample_count(buffer.samples) as usize,
            },
        )
    } else {
        r matches Ok(image) && image.wf() && image@ == opaque_gray(
            RasterView {
                width: buffer.columns as nat,
                height: buffer.rows as nat,
                data: decoded_intensities(buffer),
            },
        )
    }
}

/// Decodes a pixel buffer to the base image: gray and opaque. A buffer
/// with one sample per pixel is decoded by `convert_to_grayscale_image`.
/// A buffer with three samples per pixel holds an RGB raster of eight or
/// of sixteen bits, which is reduced to its luma of eight bits. Any other
/// number of samples is not supported.
pub fn decode_dicom_pixel_data(buffer: &PixelBuffer) -> (r: Result<RgbaImage, PipelineError>)
    ensures
        decode_outcome(*buffer, r),
{
    if buffer.samples_per_pixel == 1 {
        match convert_to_grayscale_image(buffer) {
            Ok(gray) => Ok(gray_to_rgba(&gray)),
            Err(e) => Err(e),
        }
    } else if buffer.samples_per_pixel == 3 {
        match &buffer.samples {
            Samples::Bytes(bytes) => {
                if buffer.bits_allocated != 8 {
                    return Err(
                        PipelineError::UnsupportedFormat {
                            bits_allocated: buffer.bits_allocated,
                            samples_per_pixel: buffer.samples_per_pixel,
                        },
                    );
                }
                assert(0 <= buffer.rows * buffer.columns <= 0xffff_ffff * 0xffff_ffff)
                    by (nonlinear_arith)
                    requires
                        0 <= buffer.rows <= 0xffff_ffff,
                        0 <= buffer.columns <= 0xffff_ffff,
                ;
                assert(buffer.rows * buffer.columns == buffer.columns * buffer.rows)
                    by (nonlinear_arith);
                let pixels: u128 = (buffer.rows as u128) * (buffer.columns as u128);
                if (bytes.len() as u128) != 3 * pixels {
                    return Err(
                        PipelineError::DimensionMismatch {
                            rows: buffer.rows,
                            columns: buffer.columns,
                            samples_per_pixel: 3,
                            actual: bytes.len(),
                        },
                    );
                }
                let luma: Vec<u8> = rgb_to_luma(buffer.columns, buffer.rows, bytes.clone());
                match RasterImage::from_raw(buffer.columns, buffer.rows, luma) {
                    Some(gray) => Ok(gray_to_rgba(&gray)),
                    None => Err(
                        PipelineError::DimensionMismatch {
                            rows: buffer.rows,
                            columns: buffer.columns,
                            samples_per_pixel: 3,
                            actual: bytes.len(),
                        },
                    ),
                }
            },
            Samples::Words(words) => {
                if buffer.bits_allocated != 16 {
                    return Err(
                        PipelineError::UnsupportedFormat {
                            bits_allocated: buffer.bits_allocated,
                            samples_per_pixel: buffer.samples_per_pixel,
                        },
                    );
                }
                assert(0 <= buffer.rows * buffer.columns <= 0xffff_ffff * 0xffff_ffff)
                    by (nonlinear_arith)
                    requires
                        0 <= buffer.rows <= 0xffff_ffff,
                        0 <= buffer.columns <= 0xffff_ffff,
                ;
                assert(buffer.rows * buffer.columns == buffer.columns * buffer.rows)
                    by (nonlinear_arith);
                let pixels: u128 = (buffer.rows as u128) * (buffer.columns as u128);
                if (words.len() as u128) != 3 * pixels {
                    return Err(
                        PipelineError::DimensionMismatch {
                            rows: buffer.rows,
                            columns: buffer.columns,
                            samples_per_pixel: 3,
                            actual: words.len(),
                        },
                    );
                }
                let luma: Vec<u8> = rgb16_to_luma(buffer.columns, buffer.rows, words.clone());
                let gray = RasterImage::from_parts(buffer.columns, buffer.rows, luma);
                Ok(gray_to_rgba(&gray))
            },
        }
    } else {
        Err(
            PipelineError::UnsupportedFormat {
                bits_allocated: buffer.bits_allocated,
                samples_per_pixel: buffer.samples_per_pixel,
            },
        )
    }
}

} // verus!
