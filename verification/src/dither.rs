//! Error-diffusion dithering onto a fixed palette.
//!
//! Each pixel is replaced, in row-major order, by the nearest palette
//! color; the quantization error is pushed onto the four not-yet-visited
//! neighbors with the classical 7/16, 3/16, 5/16, 1/16 weights, in
//! sixteenths and rounded toward zero.

use crate::raster::Color;
use crate::raster::Raster;
use crate::util::clamped;
use crate::util::lemma_div_below;
use vstd::arithmetic::div_mod::lemma_fundamental_div_mod_converse;
use vstd::prelude::*;

verus! {

/// The quantization error of one pixel, per channel, in the range from
/// `-255` to `255`.
#[derive(Debug, PartialEq, Eq, Structural, Copy, Clone)]
pub struct ColorError {
    pub r: i32,
    pub g: i32,
    pub b: i32,
}

pub open spec fn error_bounded(e: ColorError) -> bool {
    -255 <= e.r <= 255 && -255 <= e.g <= 255 && -255 <= e.b <= 255
}

/// The squared Euclidean distance between two colors.
pub open spec fn color_dist(a: Color, b: Color) -> int {
    (a.r - b.r) * (a.r - b.r) + (a.g - b.g) * (a.g - b.g) + (a.b - b.b) * (a.b - b.b)
}

/// The index of the first palette color among the first `k` that attains
/// the minimal distance to `p`.
pub open spec fn closest_upto(palette: Seq<Color>, p: Color, k: int) -> int
    decreases k,
{
    if k <= 1 {
        0
    } else {
        let prev = closest_upto(palette, p, k - 1);
        if color_dist(p, palette[k - 1]) < color_dist(p, palette[prev]) {
            k - 1
        } else {
            prev
        }
    }
}

/// The index of the first palette color closest to `p`.
pub open spec fn closest_idx(palette: Seq<Color>, p: Color) -> int {
    closest_upto(palette, p, palette.len() as int)
}

/// The first-minimum index is in range and no palette color is closer.
pub proof fn lemma_closest_upto_min(palette: Seq<Color>, p: Color, k: int)
    requires
        1 <= k <= palette.len(),
    ensures
        0 <= closest_upto(palette, p, k) < k,
        forall|j: int|
            0 <= j < k ==> color_dist(p, palette[closest_upto(palette, p, k)]) <= color_dist(
                p,
                #[trigger] palette[j],
            ),
    decreases k,
{
    if k > 1 {
        lemma_closest_upto_min(palette, p, k - 1);
    }
}

/// The squared distance from `pixel` to `other`.
pub fn calculate_color_distance(color1: Color, color2: Color) -> (d: u32)
    ensures
        d == color_dist(color1, color2),
{
    let r_diff = color1.r as i32 - color2.r as i32;
    let g_diff = color1.g as i32 - color2.g as i32;
    let b_diff = color1.b as i32 - color2.b as i32;
    proof {
        lemma_square_bounded(r_diff as int);
        lemma_square_bounded(g_diff as int);
        lemma_square_bounded(b_diff as int);
    }
    (r_diff * r_diff + g_diff * g_diff + b_diff * b_diff) as u32
}

/// The first palette color at minimal squared distance from `pixel`.
pub fn find_closest_color(pixel: Color, palette: &Vec<Color>) -> (c: Color)
    requires
        palette@.len() >= 1,
    ensures
        c == palette@[closest_idx(palette@, pixel)],
        forall|j: int|
            0 <= j < palette@.len() ==> color_dist(pixel, c) <= color_dist(pixel, palette@[j]),
{
    let mut closest_color = palette[0];
    let mut min_distance = calculate_color_distance(pixel, closest_color);
    let mut i: usize = 1;
    while i < palette.len()
        invariant
            1 <= i <= palette@.len(),
            closest_color == palette@[closest_upto(palette@, pixel, i as int)],
            0 <= closest_upto(palette@, pixel, i as int) < i,
            min_distance == color_dist(pixel, closest_color),
        decreases palette@.len() - i,
    {
        let distance = calculate_color_distance(pixel, palette[i]);
        if distance < min_distance {
            closest_color = palette[i];
            min_distance = distance;
        }
        i = i + 1;
    }
    proof {
        lemma_closest_upto_min(palette@, pixel, palette@.len() as int);
    }
    closest_color
}

/// The per-channel difference between a pixel and its chosen palette
/// color.
pub fn calculate_quantization_error(pixel: Color, closest_color: Color) -> (e: ColorError)
    ensures
        e.r == pixel.r - closest_color.r,
        e.g == pixel.g - closest_color.g,
        e.b == pixel.b - closest_color.b,
        error_bounded(e),
{
    ColorError {
        r: pixel.r as i32 - closest_color.r as i32,
        g: pixel.g as i32 - closest_color.g as i32,
        b: pixel.b as i32 - closest_color.b as i32,
    }
}

/// `num` sixteenths of the error `e`, rounded toward zero.
pub open spec fn scaled_err(e: int, num: int) -> int {
    if e >= 0 {
        (e * num) / 16
    } else {
        -(((-e) * num) / 16)
    }
}

fn scaled_error(e: i32, num: u32) -> (v: i32)
    requires
        -255 <= e <= 255,
        num <= 7,
    ensures
        v == scaled_err(e as int, num as int),
        -112 <= v <= 112,
{
    if e >= 0 {
        proof {
            lemma_error_product_bounded(e as int, num as int);
            lemma_div_below((e as int) * (num as int), 112, 16);
        }
        (((e as u32) * num) / 16) as i32
    } else {
        proof {
            lemma_error_product_bounded(-(e as int), num as int);
            lemma_div_below((-(e as int)) * (num as int), 112, 16);
        }
        -(((((-e) as u32) * num) / 16) as i32)
    }
}

/// The raster cells after dithering the first `k` pixels in row-major
/// order: each visited pixel is replaced by its nearest palette color and
/// its quantization error is pushed onto the unvisited neighbors.
pub open spec fn dither_upto(cells: Seq<Color>, w: int, h: int, palette: Seq<Color>, k: int) -> Seq<
    Color,
>
    decreases k,
{
    if k <= 0 {
        cells
    } else {
        let prev = dither_upto(cells, w, h, palette, k - 1);
        let x = (k - 1) % w;
        let y = (k - 1) / w;
        let old_pixel = prev[k - 1];
        let cc = palette[closest_idx(palette, old_pixel)];
        let e = ColorError {
            r: (old_pixel.r - cc.r) as i32,
            g: (old_pixel.g - cc.g) as i32,
            b: (old_pixel.b - cc.b) as i32,
        };
        distributed(prev.update(k - 1, cc), w, h, x, y, e)
    }
}

/// The fully dithered raster cells.
pub open spec fn dither_spec(cells: Seq<Color>, w: int, h: int, palette: Seq<Color>) -> Seq<Color> {
    dither_upto(cells, w, h, palette, cells.len() as int)
}

/// Distributing an error at `(x, y)` touches only cells after the
/// row-major index of `(x, y)`, and keeps the length.
proof fn lemma_distributed_untouched(s: Seq<Color>, w: int, h: int, x: int, y: int, e: ColorError)
    requires
        0 <= x < w,
        0 <= y < h,
        s.len() == w * h,
    ensures
        distributed(s, w, h, x, y, e).len() == s.len(),
        forall|j: int| 0 <= j <= y * w + x ==> #[trigger] distributed(s, w, h, x, y, e)[j] == s[j],
{
    crate::raster::lemma_row_major_in_range(x, y, w, h);
    assert((y + 1) * w == y * w + w) by (nonlinear_arith);
    if x + 1 < w {
        crate::raster::lemma_row_major_in_range(x + 1, y, w, h);
    }
    if x > 0 && y + 1 < h {
        crate::raster::lemma_row_major_in_range(x - 1, y + 1, w, h);
    }
    if y + 1 < h {
        crate::raster::lemma_row_major_in_range(x, y + 1, w, h);
    }
    if x + 1 < w && y + 1 < h {
        crate::raster::lemma_row_major_in_range(x + 1, y + 1, w, h);
    }
    let k = y * w + x;
    assert forall|j: int| 0 <= j <= k implies #[trigger] distributed(s, w, h, x, y, e)[j]
        == s[j] by {
        assert(y * w + (x + 1) == k + 1);
        assert((y + 1) * w + (x - 1) == k + w - 1);
        assert((y + 1) * w + x == k + w);
        assert((y + 1) * w + (x + 1) == k + w + 1);
    }
}

/// The square of a byte-range difference stays within an `i32`.
proof fn lemma_square_bounded(d: int)
    requires
        -255 <= d <= 255,
    ensures
        0 <= d * d <= 65025,
{
    assert(0 <= d * d <= 65025) by (nonlinear_arith)
        requires
            -255 <= d <= 255,
    ;
}

/// A bounded error channel times a weight of at most seven sixteenths
/// stays well within an `i32`.
proof fn lemma_error_product_bounded(e: int, num: int)
    requires
        0 <= e <= 255,
        0 <= num <= 7,
    ensures
        0 <= e * num <= 1785,
{
    assert(0 <= e * num <= 1785) by (nonlinear_arith)
        requires
            0 <= e <= 255,
            0 <= num <= 7,
    ;
}

/// A pixel with `num` sixteenths of the error added per channel, clamped
/// into the byte range.
pub open spec fn diffused(c: Color, e: ColorError, num: int) -> Color {
    Color {
        r: clamped(c.r + scaled_err(e.r as int, num), 0, 255) as u8,
        g: clamped(c.g + scaled_err(e.g as int, num), 0, 255) as u8,
        b: clamped(c.b + scaled_err(e.b as int, num), 0, 255) as u8,
    }
}

fn clamp_channel(v: i32) -> (r: u8)
    requires
        -512 <= v <= 512,
    ensures
        r == clamped(v as int, 0, 255) as u8,
{
    if v < 0 {
        0
    } else if v > 255 {
        255
    } else {
        v as u8
    }
}

/// A copy of a raster's cells.
fn copy_colors(v: &Vec<Color>) -> (r: Vec<Color>)
    ensures
        r@ == v@,
{
    let mut r: Vec<Color> = Vec::new();
    let mut k: usize = 0;
    while k < v.len()
        invariant
            0 <= k <= v@.len(),
            r@ =~= v@.subrange(0, k as int),
        decreases v@.len() - k,
    {
        let c = v[k];
        r.push(c);
        k = k + 1;
    }
    proof {
        assert(r@ =~= v@);
    }
    r
}

/// The raster dithered onto the palette: every pixel replaced, in
/// row-major order, by its nearest palette color, with the quantization
/// error diffused onto the unvisited neighbors.  Every pixel of the
/// result is a palette color.
pub fn dither_image(image: &Raster, palette: &Vec<Color>) -> (r: Raster)
    requires
        image.wf(),
        palette@.len() >= 1,
    ensures
        r.wf(),
        r.width == image.width,
        r.height == image.height,
        r.pixels@ == dither_spec(
            image.pixels@,
            image.width as int,
            image.height as int,
            palette@,
        ),
        forall|j: int| 0 <= j < r.pixels@.len() ==> palette@.contains(#[trigger] r.pixels@[j]),
{
    let width = image.width;
    let height = image.height;
    let ghost orig = image.pixels@;
    let ghost w = width as int;
    let ghost h = height as int;
    let mut cloned = Raster { width, height, pixels: copy_colors(&image.pixels) };
    let mut y: u32 = 0;
    while y < height
        invariant
            0 <= y <= height,
            palette@.len() >= 1,
            orig.len() == w * h,
            w == width as int,
            h == height as int,
            cloned.wf(),
            cloned.width == width,
            cloned.height == height,
            cloned.pixels@ == dither_upto(orig, w, h, palette@, (y as int) * w),
            0 <= (y as int) * w <= cloned.pixels@.len(),
            forall|j: int|
                0 <= j < (y as int) * w ==> palette@.contains(#[trigger] cloned.pixels@[j]),
        decreases height - y,
    {
        let mut x: u32 = 0;
        proof {
            if w > 0 {
                assert(0 <= (y as int) * w && ((y as int) + 1) * w <= w * h) by (nonlinear_arith)
                    requires
                        0 <= (y as int) < h,
                        0 < w,
                ;
            } else {
                assert((y as int) * w == 0 && w * h == 0) by (nonlinear_arith)
                    requires
                        w == 0,
                ;
            }
            assert(((y as int) + 1) * w == (y as int) * w + w) by (nonlinear_arith);
        }
        while x < width
            invariant
                0 <= x <= width,
                0 <= y < height,
                palette@.len() >= 1,
                orig.len() == w * h,
                w == width as int,
                h == height as int,
                cloned.wf(),
                cloned.width == width,
                cloned.height == height,
                (y as int) * w + (width as int) <= w * h,
                cloned.pixels@ == dither_upto(orig, w, h, palette@, (y as int) * w + (x as int)),
                forall|j: int|
                    0 <= j < (y as int) * w + (x as int) ==> palette@.contains(
                        #[trigger] cloned.pixels@[j],
                    ),
            decreases width - x,
        {
            let ghost k = (y as int) * w + (x as int);
            let ghost prev = cloned.pixels@;
            let pixel = cloned.get(x, y);
            let cc = find_closest_color(pixel, palette);
            let quant_error = calculate_quantization_error(pixel, cc);
            cloned.set(x, y, cc);
            let ghost mid = cloned.pixels@;
            distribute_error(&mut cloned, x, y, quant_error);
            proof {
                lemma_fundamental_div_mod_converse(k, w, y as int, x as int);
                assert(mid == prev.update(k, cc));
                assert(cloned.pixels@ == distributed(mid, w, h, x as int, y as int, quant_error));
                assert(cloned.pixels@ == dither_upto(orig, w, h, palette@, k + 1));
                lemma_distributed_untouched(mid, w, h, x as int, y as int, quant_error);
                lemma_closest_upto_min(palette@, pixel, palette@.len() as int);
                assert(palette@.contains(cc)) by {
                    assert(cc == palette@[closest_idx(palette@, pixel)]);
                }
                assert(cloned.pixels@[k] == cc);
                assert forall|j: int| 0 <= j < k + 1 implies palette@.contains(
                    #[trigger] cloned.pixels@[j],
                ) by {
                    if j < k {
                        assert(cloned.pixels@[j] == mid[j]);
                        assert(mid[j] == prev[j]);
                    }
                }
            }
            x = x + 1;
        }
        proof {
            assert(((y as int) + 1) * w == (y as int) * w + w) by (nonlinear_arith);
        }
        y = y + 1;
    }
    proof {
        assert((h * w) == (w * h)) by (nonlinear_arith);
        assert(cloned.pixels@ == dither_spec(orig, w, h, palette@));
    }
    cloned
}

/// Adds `num` sixteenths of the error to the pixel at `(x, y)`.
pub fn distribute_error_to_pixel(image: &mut Raster, x: u32, y: u32, quant_error: ColorError, num: u32)
    requires
        old(image).wf(),
        x < old(image).width,
        y < old(image).height,
        error_bounded(quant_error),
        num <= 7,
    ensures
        final(image).wf(),
        final(image).width == old(image).width,
        final(image).height == old(image).height,
        final(image).pixels@ == old(image).pixels@.update(
            old(image).spec_idx(x as int, y as int),
            diffused(old(image).pixels@[old(image).spec_idx(x as int, y as int)], quant_error, num as int),
        ),
{
    let pixel = image.get(x, y);
    let r = clamp_channel(pixel.r as i32 + scaled_error(quant_error.r, num));
    let g = clamp_channel(pixel.g as i32 + scaled_error(quant_error.g, num));
    let b = clamp_channel(pixel.b as i32 + scaled_error(quant_error.b, num));
    image.set(x, y, Color { r, g, b });
}

/// The raster after pushing the error at `(x, y)` onto the four
/// not-yet-visited neighbors, in the classical order and weights.
pub open spec fn distributed(s: Seq<Color>, w: int, h: int, x: int, y: int, e: ColorError) -> Seq<
    Color,
> {
    let s1 = if x + 1 < w {
        s.update(y * w + (x + 1), diffused(s[y * w + (x + 1)], e, 7))
    } else {
        s
    };
    let s2 = if x > 0 && y + 1 < h {
        s1.update((y + 1) * w + (x - 1), diffused(s1[(y + 1) * w + (x - 1)], e, 3))
    } else {
        s1
    };
    let s3 = if y + 1 < h {
        s2.update((y + 1) * w + x, diffused(s2[(y + 1) * w + x], e, 5))
    } else {
        s2
    };
    if x + 1 < w && y + 1 < h {
        s3.update((y + 1) * w + (x + 1), diffused(s3[(y + 1) * w + (x + 1)], e, 1))
    } else {
        s3
    }
}

/// Pushes the quantization error of the pixel at `(x, y)` onto its four
/// not-yet-visited neighbors.
pub fn distribute_error(image: &mut Raster, x: u32, y: u32, quant_error: ColorError)
    requires
        old(image).wf(),
        x < old(image).width,
        y < old(image).height,
        error_bounded(quant_error),
    ensures
        final(image).wf(),
        final(image).width == old(image).width,
        final(image).height == old(image).height,
        final(image).pixels@ == distributed(
            old(image).pixels@,
            old(image).width as int,
            old(image).height as int,
            x as int,
            y as int,
            quant_error,
        ),
{
    let width = image.width;
    let height = image.height;
    if x + 1 < width {
        distribute_error_to_pixel(image, x + 1, y, quant_error, 7);
    }
    if x > 0 && y + 1 < height {
        distribute_error_to_pixel(image, x - 1, y + 1, quant_error, 3);
    }
    if y + 1 < height {
        distribute_error_to_pixel(image, x, y + 1, quant_error, 5);
    }
    if x + 1 < width && y + 1 < height {
        distribute_error_to_pixel(image, x + 1, y + 1, quant_error, 1);
    }
}

} // verus!
