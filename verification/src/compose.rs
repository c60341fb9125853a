//! The heat layer and its composition with the base image.

use vstd::prelude::*;
use vstd::arithmetic::div_mod::lemma_fundamental_div_mod_converse;
use crate::colormap::{color_of, get_color_from_value, ColorMap};
use crate::fixed::ONE;
use crate::matrix::{allocatable, HeatmapMatrix, MatrixView};
use crate::normalization::{normalize_heatmap, normalized, Normalization};
use crate::raster::{gray_to_rgba, opaque_gray, RasterImage, RasterView, RgbaImage, RgbaView};
use crate::resize::{resize_heatmap, resized};

verus! {

/// The alpha value of an opacity between zero and `ONE`: the opacity on a
/// scale of 255, rounded to the nearest whole number.
pub open spec fn alpha_of(opacity: int) -> int {
    (255 * opacity + 32768) / 65536
}

/// Computes the alpha value of an opacity.
pub fn opacity_alpha(opacity: i32) -> (r: u8)
    requires
        0 <= opacity <= ONE,
    ensures
        r == alpha_of(opacity as int),
{
    let scaled: u32 = (255 * (opacity as u32) + 32768) / 65536;
    scaled as u8
}

/// The heat layer of a normalized matrix: every cell in the color that
/// the ramp gives its sample, with the same alpha everywhere.
pub open spec fn heat_layer(m: MatrixView, kind: ColorMap, opacity: int) -> RgbaView {
    RgbaView {
        width: m.cols,
        height: m.rows,
        data: Seq::new(
            4 * m.data.len(),
            |k: int|
                {
                    let color = color_of(kind, m.data[k / 4] as int);
                    if k % 4 == 0 {
                        color.0 as u8
                    } else if k % 4 == 1 {
                        color.1 as u8
                    } else if k % 4 == 2 {
                        color.2 as u8
                    } else {
                        alpha_of(opacity) as u8
                    }
                },
        ),
    }
}

/// Draws the heat layer of a normalized matrix, whose cells hold samples.
/// Samples outside the unit interval take the color of the nearer end of
/// the ramp.
pub fn apply_colormap(normalized_data: &HeatmapMatrix, colormap: &ColorMap, opacity: i32) -> (r:
    RgbaImage)
    requires
        0 <= opacity <= ONE,
        normalized_data@.rows <= u32::MAX,
        normalized_data@.cols <= u32::MAX,
    ensures
        r.wf(),
        r@ == heat_layer(normalized_data@, *colormap, opacity as int),
{
    let (rows, cols) = normalized_data.dim();
    let samples: Vec<i32> = normalized_data.to_vec();
    let alpha: u8 = opacity_alpha(opacity);
    let ghost want = heat_layer(normalized_data@, *colormap, opacity as int);
    let mut data: Vec<u8> = Vec::new();
    let mut i: usize = 0;
    while i < samples.len()
        invariant
            i <= samples@.len(),
            samples@ == normalized_data@.data,
            alpha == alpha_of(opacity as int),
            want == heat_layer(normalized_data@, *colormap, opacity as int),
            data@.len() == 4 * i,
            forall|k: int| 0 <= k < 4 * i ==> #[trigger] data@[k] == want.data[k],
        decreases samples@.len() - i,
    {
        let color = get_color_from_value(samples[i], colormap);
        data.push(color.0);
        data.push(color.1);
        data.push(color.2);
        data.push(alpha);
        i += 1;
    }
    assert(data@ =~= want.data);
    assert(cols * rows == rows * cols) by (nonlinear_arith);
    RgbaImage::from_parts(cols as u32, rows as u32, data)
}

/// The synthetic heat layer that stands in where there is no heat matrix:
/// red grows from left to right, from 0 towards 255, and alpha grows from
/// top to bottom, from 50 towards 200.
pub open spec fn gradient_layer(width: nat, height: nat) -> RgbaView {
    RgbaView {
        width,
        height,
        data: Seq::new(
            4 * (width * height),
            |k: int|
                {
                    let x = (k / 4) % (width as int);
                    let y = (k / 4) / (width as int);
                    if k % 4 == 0 {
                        ((255 * x) / (width as int)) as u8
                    } else if k % 4 == 3 {
                        (50 + (150 * y) / (height as int)) as u8
                    } else {
                        0u8
                    }
                },
        ),
    }
}

/// Draws the synthetic heat layer.
pub fn generate_default_heatmap(width: u32, height: u32) -> (r: RgbaImage)
    ensures
        r.wf(),
        r@ == gradient_layer(width as nat, height as nat),
{
    let ghost want = gradient_layer(width as nat, height as nat);
    let mut data: Vec<u8> = Vec::new();
    let mut y: u32 = 0;
    while y < height
        invariant
            y <= height,
            want == gradient_layer(width as nat, height as nat),
            data@.len() == 4 * (y * width),
            forall|k: int| 0 <= k < data@.len() ==> #[trigger] data@[k] == want.data[k],
        decreases height - y,
    {
        assert((150 * y) / (height as int) < 150) by (nonlinear_arith)
            requires
                0 <= y < height,
        ;
        let alpha: u8 = (50 + (150 * (y as u64)) / (height as u64)) as u8;
        let mut x: u32 = 0;
        while x < width
            invariant
                x <= width,
                y < height,
                alpha == 50 + (150 * y) / (height as int),
                want == gradient_layer(width as nat, height as nat),
                data@.len() == 4 * (y * width + x),
                forall|k: int| 0 <= k < data@.len() ==> #[trigger] data@[k] == want.data[k],
            decreases width - x,
        {
            assert((255 * x) / (width as int) < 255) by (nonlinear_arith)
                requires
                    0 <= x < width,
            ;
            let red: u8 = ((255 * (x as u64)) / (width as u64)) as u8;
            proof {
                let p = y * width + x;
                lemma_fundamental_div_mod_converse(p, width as int, y as int, x as int);
                assert(0 <= p < width * height) by (nonlinear_arith)
                    requires
                        p == y * width + x,
                        0 <= x < width,
                        0 <= y < height,
                ;
            }
            data.push(red);
            data.push(0);
            data.push(0);
            data.push(alpha);
            x += 1;
        }
        proof {
            assert(y * width + width == (y + 1) * width) by (nonlinear_arith);
        }
        y += 1;
    }
    assert(data@ =~= want.data) by {
        assert(height * width == width * height) by (nonlinear_arith);
    }
    RgbaImage::from_parts(width, height, data)
}

/// The base image that stands in where there is no image to decode: a
/// gray gradient that grows from the top left to the bottom right.
pub open spec fn demo_raster(rows: nat, columns: nat) -> RasterView {
    RasterView {
        width: columns,
        height: rows,
        data: Seq::new(
            rows * columns,
            |k: int|
                {
                    let x = k % (columns as int);
                    let y = k / (columns as int);
                    ((255 * (x + y)) / ((columns + rows) as int)) as u8
                },
        ),
    }
}

/// Draws the stand-in base image.
pub fn demo_base(rows: u32, columns: u32) -> (r: RasterImage)
    ensures
        r.wf(),
        r@ == demo_raster(rows as nat, columns as nat),
{
    let ghost want = demo_raster(rows as nat, columns as nat);
    let mut data: Vec<u8> = Vec::new();
    let mut y: u32 = 0;
    while y < rows
        invariant
            y <= rows,
            want == demo_raster(rows as nat, columns as nat),
            data@.len() == y * columns,
            forall|k: int| 0 <= k < data@.len() ==> #[trigger] data@[k] == want.data[k],
        decreases rows - y,
    {
        let mut x: u32 = 0;
        while x < columns
            invariant
                x <= columns,
                y < rows,
                want == demo_raster(rows as nat, columns as nat),
                data@.len() == y * columns + x,
                forall|k: int| 0 <= k < data@.len() ==> #[trigger] data@[k] == want.data[k],
            decreases columns - x,
        {
            let sum: u64 = x as u64 + y as u64;
            let total: u64 = columns as u64 + rows as u64;
            assert((255 * sum) / (total as int) < 255) by (nonlinear_arith)
                requires
                    0 <= sum < total,
            ;
            let intensity: u8 = ((255 * sum) / total) as u8;
            proof {
                let p = y * columns + x;
                lemma_fundamental_div_mod_converse(p, columns as int, y as int, x as int);
                assert(0 <= p < rows * columns) by (nonlinear_arith)
                    requires
                        p == y * columns + x,
                        0 <= x < columns,
                        0 <= y < rows,
                ;
            }
            data.push(intensity);
            x += 1;
        }
        proof {
            assert(y * columns + columns == (y + 1) * columns) by (nonlinear_arith);
        }
        y += 1;
    }
    assert(data@ =~= want.data);
    proof {
        assert(columns * rows == rows * columns) by (nonlinear_arith);
    }
    RasterImage::from_parts(columns, rows, data)
}

/// What the `image` crate makes of a bottom image with a top image of the
/// same dimensions laid over it: the channel values of the result.
pub uninterp spec fn overlaid(width: u32, height: u32, bottom: Seq<u8>, top: Seq<u8>) -> Seq<u8>;

/// The four channel values of the pixel `p` of a buffer.
pub open spec fn pixel_at(data: Seq<u8>, p: int) -> (u8, u8, u8, u8) {
    (data[4 * p], data[4 * p + 1], data[4 * p + 2], data[4 * p + 3])
}

/// What laying `top` over `bottom` does to the pixel `p` where the top
/// pixel is fully transparent or fully opaque: a transparent pixel leaves
/// the bottom pixel as it is, an opaque one replaces it.
pub open spec fn blends_at(out: Seq<u8>, bottom: Seq<u8>, top: Seq<u8>, p: int) -> bool {
    &&& pixel_at(top, p).3 == 0 ==> pixel_at(out, p) == pixel_at(bottom, p)
    &&& pixel_at(top, p).3 == 255 ==> pixel_at(out, p) == pixel_at(top, p)
}

/// `image::imageops::overlay` of one RGBA image over another at the
/// origin, both made of their buffers by `image::RgbaImage::from_raw`. The
/// result has the dimensions of the bottom image. Where the top pixel has
/// alpha 0 the bottom pixel stays, where it has alpha 255 the top pixel
/// takes its place; in between the two are blended. Both buffers must hold
/// four values for every pixel.
#[verifier::external_body]
fn overlay_rgba(width: u32, height: u32, bottom: Vec<u8>, top: &Vec<u8>) -> (r: Vec<u8>)
    requires
        bottom@.len() == 4 * (width * height),
        top@.len() == 4 * (width * height),
    ensures
        r@ == overlaid(width, height, bottom@, top@),
        r@.len() == bottom@.len(),
        forall|p: int| 0 <= p < width * height ==> #[trigger] blends_at(r@, bottom@, top@, p),
{
    let mut base = image::RgbaImage::from_raw(width, height, bottom).unwrap();
    let layer = image::RgbaImage::from_raw(width, height, top.clone()).unwrap();
    image::imageops::overlay(&mut base, &layer, 0, 0);
    base.into_raw()
}

/// Lays a heat layer over a base image of the same dimensions.
pub fn composite(base: RgbaImage, layer: &RgbaImage) -> (r: RgbaImage)
    requires
        base@.width == layer@.width,
        base@.height == layer@.height,
    ensures
        r.wf(),
        r@.width == base@.width,
        r@.height == base@.height,
        r@.data == overlaid(base@.width as u32, base@.height as u32, base@.data, layer@.data),
        forall|p: int|
            0 <= p < base@.width * base@.height ==> #[trigger] blends_at(
                r@.data,
                base@.data,
                layer@.data,
                p,
            ),
{
    let width: u32 = base.width();
    let height: u32 = base.height();
    let data: Vec<u8> = overlay_rgba(width, height, base.into_raw(), layer.as_raw());
    RgbaImage::from_parts(width, height, data)
}

/// Draws the demonstration image: the stand-in base image under the
/// synthetic heat layer.
pub fn create_demo_heatmap(rows: u32, columns: u32) -> (r: RgbaImage)
    ensures
        r.wf(),
        r@.width == columns,
        r@.height == rows,
        r@.data == overlaid(
            columns,
            rows,
            opaque_gray(demo_raster(rows as nat, columns as nat)).data,
            gradient_layer(columns as nat, rows as nat).data,
        ),
{
    let gray: RasterImage = demo_base(rows, columns);
    let base: RgbaImage = gray_to_rgba(&gray);
    let layer: RgbaImage = generate_default_heatmap(columns, rows);
    composite(base, &layer)
}

/// Whether a heat matrix can be brought to the dimensions of a base image:
/// a grid of these dimensions can be allocated, and a matrix without cells
/// is not asked to fill an image with pixels.
pub open spec fn fits(m: MatrixView, width: nat, height: nat) -> bool {
    &&& allocatable(height as int, width as int)
    &&& width > 0 && height > 0 ==> m.rows > 0 && m.cols > 0
}

/// The heat matrix at the dimensions of the base image: itself where it
/// has them, else resampled.
pub open spec fn fitted(m: MatrixView, width: nat, height: nat) -> MatrixView {
    if m.rows == height && m.cols == width {
        m
    } else {
        resized(m, width, height)
    }
}

/// The heat layer for a base image of the given dimensions: drawn from the
/// heat matrix where there is one that can be brought to these
/// dimensions, else the synthetic layer.
pub open spec fn chosen_layer(
    width: nat,
    height: nat,
    data: Option<MatrixView>,
    kind: ColorMap,
    method: Normalization,
    opacity: int,
) -> RgbaView {
    match data {
        Some(m) => if fits(m, width, height) {
            let scaled = fitted(m, width, height);
            heat_layer(
                MatrixView {
                    rows: scaled.rows,
                    cols: scaled.cols,
                    data: normalized(scaled.data, method),
                },
                kind,
                opacity,
            )
        } else {
            gradient_layer(width, height)
        },
        None => gradient_layer(width, height),
    }
}

/// What an optional heat matrix is.
pub open spec fn view_of(data: Option<HeatmapMatrix>) -> Option<MatrixView> {
    match data {
        Some(m) => Some(m@),
        None => None,
    }
}

fn can_fit(data: &HeatmapMatrix, width: u32, height: u32) -> (r: bool)
    ensures
        r == fits(data@, width as nat, height as nat),
{
    let (rows, cols) = data.dim();
    let h: u128 = if height == 0 {
        1
    } else {
        height as u128
    };
    let w: u128 = if width == 0 {
        1
    } else {
        width as u128
    };
    assert(0 <= h * w <= 0xffff_ffff * 0xffff_ffff) by (nonlinear_arith)
        requires
            0 <= h <= 0xffff_ffff,
            0 <= w <= 0xffff_ffff,
    ;
    assert(0 <= height * width <= 0xffff_ffff * 0xffff_ffff) by (nonlinear_arith)
        requires
            0 <= height <= 0xffff_ffff,
            0 <= width <= 0xffff_ffff,
    ;
    let cells: u128 = (height as u128) * (width as u128);
    let room: bool = h * w <= isize::MAX as u128 && 4 * cells <= isize::MAX as u128;
    room && (width == 0 || height == 0 || (rows > 0 && cols > 0))
}

/// Draws the overlay: the heat layer over the base image. The heat matrix,
/// where there is one, holds the bit patterns of its numbers as they were
/// read. It is resampled to the dimensions of the base image if it has
/// others, normalized, and drawn with the color ramp and the opacity. Where there is none, or none that can be brought to the
/// dimensions of the base image, the synthetic layer takes its place.
pub fn create_heatmap_with_real_data(
    base: RgbaImage,
    heatmap_data: Option<HeatmapMatrix>,
    colormap: &ColorMap,
    normalization: &Normalization,
    opacity: i32,
) -> (r: RgbaImage)
    requires
        0 <= opacity <= ONE,
    ensures
        r.wf(),
        r@.width == base@.width,
        r@.height == base@.height,
        r@.data == overlaid(
            base@.width as u32,
            base@.height as u32,
            base@.data,
            chosen_layer(
                base@.width,
                base@.height,
                view_of(heatmap_data),
                *colormap,
                *normalization,
                opacity as int,
            ).data,
        ),
        forall|p: int|
            0 <= p < base@.width * base@.height ==> #[trigger] blends_at(
                r@.data,
                base@.data,
                chosen_layer(
                    base@.width,
                    base@.height,
                    view_of(heatmap_data),
                    *colormap,
                    *normalization,
                    opacity as int,
                ).data,
                p,
            ),
{
    let width: u32 = base.width();
    let height: u32 = base.height();
    let layer: RgbaImage = match &heatmap_data {
        Some(data) => {
            if can_fit(data, width, height) {
                let (rows, cols) = data.dim();
                let scaled: HeatmapMatrix = if rows != height as usize || cols != width as usize {
                    resize_heatmap(data, width as usize, height as usize)
                } else {
                    data.duplicate()
                };
                let normalized_data: HeatmapMatrix = normalize_heatmap(&scaled, normalization);
                let drawn = apply_colormap(&normalized_data, colormap, opacity);
                assert(normalized_data@ == (MatrixView {
                    rows: scaled@.rows,
                    cols: scaled@.cols,
                    data: normalized(scaled@.data, *normalization),
                }));
                drawn
            } else {
                generate_default_heatmap(width, height)
            }
        },
        None => generate_default_heatmap(width, height),
    };
    composite(base, &layer)
}

} // verus!
