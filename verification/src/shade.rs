//! The hillshade kernel and the multiplicative compositor.
//!
//! Horn's method reads a 3x3 neighborhood around each pixel, clamped at the
//! raster boundary (out-of-range coordinates reuse the nearest valid row or
//! column). This module computes the two integer kernel sums that the slope
//! and aspect of a pixel are functions of; turning a pair of sums into an
//! illumination value takes trigonometry on reals, which the caller supplies.
//! The compositor multiplies a color raster by a shade raster, channel by
//! channel, truncating `color * shade / 255` toward zero.

use vstd::prelude::*;

use crate::error::GridError;
use crate::raster::{lemma_flat_coords, lemma_row_major_index, GrayImg, Rgb, RgbImg};

verus! {

/// Clamps a coordinate into `0 .. n`.
pub open spec fn clip(i: int, n: int) -> int {
    if i < 0 {
        0
    } else if i >= n {
        n - 1
    } else {
        i
    }
}

/// The intensity at `(x, y)` with boundary clamping.
pub open spec fn sample(img: GrayImg, x: int, y: int) -> int {
    img.pix(clip(x, img.width as int), clip(y, img.height as int)) as int
}

/// The west-east kernel sum at `(x, y)`:
/// `(z3 + 2*z5 + z8) - (z1 + 2*z4 + z6)` over the clamped 3x3 neighborhood,
/// with z1..z8 numbered clockwise from the top-left neighbor.
pub open spec fn kernel_dx(img: GrayImg, x: int, y: int) -> int {
    (sample(img, x + 1, y - 1) + 2 * sample(img, x + 1, y) + sample(img, x + 1, y + 1)) - (sample(
        img,
        x - 1,
        y - 1,
    ) + 2 * sample(img, x - 1, y) + sample(img, x - 1, y + 1))
}

/// The north-south kernel sum at `(x, y)`:
/// `(z6 + 2*z7 + z8) - (z1 + 2*z2 + z3)` over the clamped 3x3 neighborhood.
pub open spec fn kernel_dy(img: GrayImg, x: int, y: int) -> int {
    (sample(img, x - 1, y + 1) + 2 * sample(img, x, y + 1) + sample(img, x + 1, y + 1)) - (sample(
        img,
        x - 1,
        y - 1,
    ) + 2 * sample(img, x, y - 1) + sample(img, x + 1, y - 1))
}

/// On a raster whose pixels all hold one value, both kernel sums vanish
/// everywhere: flat terrain has zero slope at every pixel, boundary included.
pub proof fn lemma_flat_kernel_zero(img: GrayImg, x: int, y: int, v: u8)
    requires
        img.wf(),
        img.uniform(v),
        0 <= x < img.width,
        0 <= y < img.height,
    ensures
        kernel_dx(img, x, y) == 0,
        kernel_dy(img, x, y) == 0,
{
    assert forall|a: int, b: int| x - 1 <= a <= x + 1 && y - 1 <= b <= y + 1 implies sample(
        img,
        a,
        b,
    ) == v as int by {
        let ca = clip(a, img.width as int);
        let cb = clip(b, img.height as int);
        assert(0 <= ca < img.width);
        assert(0 <= cb < img.height);
        assert(img.pix(ca, cb) == v);
    }
}

/// Computes both kernel sums at one pixel.
#[verifier::rlimit(50)]
pub fn kernel_at(gray: &GrayImg, x: usize, y: usize) -> (p: (i32, i32))
    requires
        gray.wf(),
        x < gray.width,
        y < gray.height,
    ensures
        p.0 == kernel_dx(*gray, x as int, y as int),
        p.1 == kernel_dy(*gray, x as int, y as int),
{
    let width: usize = gray.width;
    let height: usize = gray.height;
    let xm: usize = if x == 0 {
        0
    } else {
        x - 1
    };
    let xp: usize = if x + 1 < width {
        x + 1
    } else {
        width - 1
    };
    let ym: usize = if y == 0 {
        0
    } else {
        y - 1
    };
    let yp: usize = if y + 1 < height {
        y + 1
    } else {
        height - 1
    };
    assert(xm as int == clip(x - 1, width as int));
    assert(xp as int == clip(x + 1, width as int));
    assert(x as int == clip(x as int, width as int));
    assert(ym as int == clip(y - 1, height as int));
    assert(yp as int == clip(y + 1, height as int));
    assert(y as int == clip(y as int, height as int));
    let z1: i32 = gray.get(xm, ym) as i32;
    let z2: i32 = gray.get(x, ym) as i32;
    let z3: i32 = gray.get(xp, ym) as i32;
    let z4: i32 = gray.get(xm, y) as i32;
    let z5: i32 = gray.get(xp, y) as i32;
    let z6: i32 = gray.get(xm, yp) as i32;
    let z7: i32 = gray.get(x, yp) as i32;
    let z8: i32 = gray.get(xp, yp) as i32;
    let dx: i32 = (z3 + 2 * z5 + z8) - (z1 + 2 * z4 + z6);
    let dy: i32 = (z6 + 2 * z7 + z8) - (z1 + 2 * z2 + z3);
    (dx, dy)
}

/// Computes both kernel sums for every pixel, row-major.
///
/// Entry `y * width + x` of the result holds
/// `(kernel_dx(img, x, y), kernel_dy(img, x, y))`.
pub fn hillshade_sums(gray: &GrayImg) -> (r: Vec<(i32, i32)>)
    requires
        gray.wf(),
    ensures
        r@.len() == gray.height * gray.width,
        forall|x: int, y: int|
            0 <= x < gray.width && 0 <= y < gray.height ==> r@[y * gray.width + x].0 == kernel_dx(
                *gray,
                x,
                y,
            ) && r@[y * gray.width + x].1 == kernel_dy(*gray, x, y),
{
    let width: usize = gray.width;
    let height: usize = gray.height;
    let mut out: Vec<(i32, i32)> = Vec::new();
    let mut y: usize = 0;
    while y < height
        invariant
            y <= height,
            gray.wf(),
            width == gray.width,
            height == gray.height,
            out@.len() == y * width,
            forall|k: int|
                0 <= k < out@.len() ==> out@[k].0 == kernel_dx(
                    *gray,
                    k % (width as int),
                    k / (width as int),
                ) && out@[k].1 == kernel_dy(*gray, k % (width as int), k / (width as int)),
        decreases height - y,
    {
        let mut x: usize = 0;
        while x < width
            invariant
                x <= width,
                y < height,
                gray.wf(),
                width == gray.width,
                height == gray.height,
                out@.len() == y * width + x,
                forall|k: int|
                    0 <= k < out@.len() ==> out@[k].0 == kernel_dx(
                        *gray,
                        k % (width as int),
                        k / (width as int),
                    ) && out@[k].1 == kernel_dy(*gray, k % (width as int), k / (width as int)),
            decreases width - x,
        {
            let p: (i32, i32) = kernel_at(gray, x, y);
            proof {
                lemma_flat_coords(width as int, x as int, y as int);
            }
            out.push(p);
            x = x + 1;
        }
        y = y + 1;
        assert(out@.len() == y * width) by (nonlinear_arith)
            requires
                out@.len() == (y - 1) * width + width,
        ;
    }
    proof {
        assert forall|x: int, y: int| 0 <= x < gray.width && 0 <= y < gray.height implies out@[y
            * gray.width + x].0 == kernel_dx(*gray, x, y) && out@[y * gray.width + x].1
            == kernel_dy(*gray, x, y) by {
            lemma_row_major_index(width as int, height as int, x, y);
            lemma_flat_coords(width as int, x, y);
        }
    }
    out
}

/// Wraps per-pixel shade values into a 3-channel raster with all channels
/// equal, so the shading layer composes uniformly with the colormap.
pub fn shade_image(shades: &Vec<u8>, width: usize, height: usize) -> (r: Result<RgbImg, GridError>)
    ensures
        shades@.len() == width * height ==> (r matches Ok(img) && img.wf() && img.width == width
            && img.height == height && forall|x: int, y: int|
            0 <= x < width && 0 <= y < height ==> img.pix(x, y) == (Rgb {
                r: shades@[y * width + x],
                g: shades@[y * width + x],
                b: shades@[y * width + x],
            })),
        shades@.len() != width * height ==> r == Err::<RgbImg, GridError>(
            GridError::DimensionMismatch,
        ),
{
    proof {
        vstd::std_specs::vec::axiom_spec_len(shades);
    }
    let matches_dims: bool = match width.checked_mul(height) {
        Some(n) => n == shades.len(),
        None => false,
    };
    if !matches_dims {
        return Err(GridError::DimensionMismatch);
    }
    let mut data: Vec<Rgb> = Vec::new();
    let n: usize = shades.len();
    let mut i: usize = 0;
    while i < n
        invariant
            i <= n,
            n == shades@.len(),
            data@.len() == i,
            forall|j: int| 0 <= j < i ==> data@[j] == (Rgb {
                r: shades@[j],
                g: shades@[j],
                b: shades@[j],
            }),
        decreases n - i,
    {
        let s: u8 = shades[i];
        data.push(Rgb { r: s, g: s, b: s });
        i = i + 1;
    }
    let img = RgbImg { width, height, data };
    proof {
        assert(img.data@.len() == (height as int) * (width as int)) by (nonlinear_arith)
            requires
                img.data@.len() == (width as int) * (height as int),
        ;
        assert forall|x: int, y: int| 0 <= x < width && 0 <= y < height implies img.pix(x, y)
            == (Rgb {
            r: shades@[y * width + x],
            g: shades@[y * width + x],
            b: shades@[y * width + x],
        }) by {
            lemma_row_major_index(width as int, height as int, x, y);
        }
    }
    Ok(img)
}

/// One blended channel: `c * s / 255`, truncated toward zero.
pub open spec fn blend_channel(c: int, s: int) -> int {
    (c * s) / 255
}

/// One blended pixel: every channel of the color modulated by the shade
/// intensity (the shade raster carries its value in all three channels;
/// the red one is read).
pub open spec fn blend_px(c: Rgb, s: Rgb) -> Rgb {
    Rgb {
        r: blend_channel(c.r as int, s.r as int) as u8,
        g: blend_channel(c.g as int, s.r as int) as u8,
        b: blend_channel(c.b as int, s.r as int) as u8,
    }
}

/// A blended channel never leaves one byte.
pub proof fn lemma_blend_channel_bounds(c: int, s: int)
    requires
        0 <= c <= 255,
        0 <= s <= 255,
    ensures
        0 <= blend_channel(c, s) <= 255,
{
    assert(c * s <= 255 * 255) by (nonlinear_arith)
        requires
            0 <= c <= 255,
            0 <= s <= 255,
    ;
    assert(c * s >= 0) by (nonlinear_arith)
        requires
            0 <= c,
            0 <= s,
    ;
}

/// Multiplies a color raster by a shade raster, channel by channel.
///
/// Fails with `DimensionMismatch` exactly when the two rasters differ in
/// width or height.
pub fn blend_colormap_with_hillshade(color: &RgbImg, shade: &RgbImg) -> (r: Result<
    RgbImg,
    GridError,
>)
    requires
        color.wf(),
        shade.wf(),
    ensures
        (color.width == shade.width && color.height == shade.height) ==> (r matches Ok(img)
            && img.wf() && img.width == color.width && img.height == color.height && forall|
            x: int,
            y: int,
        |
            0 <= x < color.width && 0 <= y < color.height ==> img.pix(x, y) == blend_px(
                color.pix(x, y),
                shade.pix(x, y),
            )),
        !(color.width == shade.width && color.height == shade.height) ==> r == Err::<
            RgbImg,
            GridError,
        >(GridError::DimensionMismatch),
{
    if color.width != shade.width || color.height != shade.height {
        return Err(GridError::DimensionMismatch);
    }
    let width: usize = color.width;
    let height: usize = color.height;
    let mut data: Vec<Rgb> = Vec::new();
    let mut y: usize = 0;
    while y < height
        invariant
            y <= height,
            color.wf(),
            shade.wf(),
            width == color.width && width == shade.width,
            height == color.height && height == shade.height,
            data@.len() == y * width,
            forall|k: int|
                0 <= k < data@.len() ==> data@[k] == blend_px(
                    color.pix(k % (width as int), k / (width as int)),
                    shade.pix(k % (width as int), k / (width as int)),
                ),
        decreases height - y,
    {
        let mut x: usize = 0;
        while x < width
            invariant
                x <= width,
                y < height,
                color.wf(),
                shade.wf(),
                width == color.width && width == shade.width,
                height == color.height && height == shade.height,
                data@.len() == y * width + x,
                forall|k: int|
                    0 <= k < data@.len() ==> data@[k] == blend_px(
                        color.pix(k % (width as int), k / (width as int)),
                        shade.pix(k % (width as int), k / (width as int)),
                    ),
            decreases width - x,
        {
            let c: Rgb = color.get(x, y);
            let s: Rgb = shade.get(x, y);
            let sv: u32 = s.r as u32;
            proof {
                lemma_blend_channel_bounds(c.r as int, s.r as int);
                lemma_blend_channel_bounds(c.g as int, s.r as int);
                lemma_blend_channel_bounds(c.b as int, s.r as int);
            }
            let pr: u32 = (c.r as u32 * sv) / 255;
            let pg: u32 = (c.g as u32 * sv) / 255;
            let pb: u32 = (c.b as u32 * sv) / 255;
            let p = Rgb { r: pr as u8, g: pg as u8, b: pb as u8 };
            assert(p == blend_px(color.pix(x as int, y as int), shade.pix(x as int, y as int)));
            proof {
                lemma_flat_coords(width as int, x as int, y as int);
            }
            data.push(p);
            x = x + 1;
        }
        y = y + 1;
        assert(data@.len() == y * width) by (nonlinear_arith)
            requires
                data@.len() == (y - 1) * width + width,
        ;
    }
    let img = RgbImg { width, height, data };
    proof {
        assert forall|x: int, y: int| 0 <= x < color.width && 0 <= y < color.height implies img.pix(
            x,
            y,
        ) == blend_px(color.pix(x, y), shade.pix(x, y)) by {
            lemma_row_major_index(width as int, height as int, x, y);
            lemma_flat_coords(width as int, x, y);
        }
    }
    Ok(img)
}

} // verus!
