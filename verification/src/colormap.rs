//! The fixed pseudo-color ramp from 8-bit intensity to RGB.
//!
//! With `v = i / 255`, the ramp is `r = v * 255`, `g = (1 - |v - 0.5|) * 255`
//! (peaking at mid-intensity) and `b = (1 - v) * 128`, each channel truncated
//! to an integer, not rounded. Written over integers the truncated values
//! are exact: `|2i - 255|` is always odd, so the green channel sits half way
//! between integers and truncates to `255 - (|2i - 255| + 1) / 2`, and the
//! blue channel is `(255 - i) * 128 / 255` rounded toward zero.

use vstd::prelude::*;

use crate::raster::{GrayImg, Rgb, RgbImg};

verus! {

/// Distance of doubled intensity from mid-range: `|2i - 255|`.
pub open spec fn mid_dist(i: int) -> int {
    if 2 * i >= 255 {
        2 * i - 255
    } else {
        255 - 2 * i
    }
}

/// The red channel of the ramp: the intensity itself.
pub open spec fn ramp_r(i: int) -> int {
    i
}

/// The green channel of the ramp: `(1 - |i/255 - 0.5|) * 255` truncated.
pub open spec fn ramp_g(i: int) -> int {
    255 - (mid_dist(i) + 1) / 2
}

/// The blue channel of the ramp: `(1 - i/255) * 128` truncated.
pub open spec fn ramp_b(i: int) -> int {
    ((255 - i) * 128) / 255
}

/// The full ramp as one pixel.
pub open spec fn rgb_of(i: u8) -> Rgb {
    Rgb { r: ramp_r(i as int) as u8, g: ramp_g(i as int) as u8, b: ramp_b(i as int) as u8 }
}

/// The ramp is a pure function of intensity: equal intensities always give
/// the very same color.
pub proof fn lemma_colormap_deterministic(a: u8, b: u8)
    requires
        a == b,
    ensures
        rgb_of(a) == rgb_of(b),
{
}

/// Maps one intensity through the ramp.
pub fn colormap(i: u8) -> (c: Rgb)
    ensures
        c == rgb_of(i),
        c.r == ramp_r(i as int),
        c.g == ramp_g(i as int),
        c.b == ramp_b(i as int),
{
    let iw: u32 = i as u32;
    let k: u32 = if 2 * iw >= 255 {
        2 * iw - 255
    } else {
        255 - 2 * iw
    };
    let g: u32 = 255 - (k + 1) / 2;
    let b: u32 = ((255 - iw) * 128) / 255;
    assert(g == ramp_g(i as int));
    assert(b == ramp_b(i as int));
    assert(0 <= ramp_g(i as int) <= 255);
    assert(0 <= ramp_b(i as int) <= 255);
    Rgb { r: i, g: g as u8, b: b as u8 }
}

/// Maps a grayscale raster through the ramp, pixel by pixel.
pub fn grayscale_to_colormap(gray: &GrayImg) -> (img: RgbImg)
    requires
        gray.wf(),
    ensures
        img.wf(),
        img.width == gray.width,
        img.height == gray.height,
        forall|x: int, y: int|
            0 <= x < gray.width && 0 <= y < gray.height ==> img.pix(x, y) == rgb_of(
                gray.pix(x, y),
            ),
{
    let width: usize = gray.width;
    let height: usize = gray.height;
    let mut data: Vec<Rgb> = Vec::new();
    let mut y: usize = 0;
    while y < height
        invariant
            y <= height,
            gray.wf(),
            width == gray.width,
            height == gray.height,
            data@.len() == y * width,
            forall|k: int|
                0 <= k < data@.len() ==> data@[k] == rgb_of(
                    gray.pix(k % (width as int), k / (width as int)),
                ),
        decreases height - y,
    {
        let mut x: usize = 0;
        while x < width
            invariant
                x <= width,
                y < height,
                gray.wf(),
                width == gray.width,
                height == gray.height,
                data@.len() == y * width + x,
                forall|k: int|
                    0 <= k < data@.len() ==> data@[k] == rgb_of(
                        gray.pix(k % (width as int), k / (width as int)),
                    ),
            decreases width - x,
        {
            let v: u8 = gray.get(x, y);
            let c: Rgb = colormap(v);
            proof {
                crate::raster::lemma_flat_coords(width as int, x as int, y as int);
            }
            data.push(c);
            x = x + 1;
        }
        y = y + 1;
        assert(data@.len() == y * width) by (nonlinear_arith)
            requires
                data@.len() == (y - 1) * width + width,
        ;
    }
    let img = RgbImg { width, height, data };
    proof {
        assert forall|x: int, y: int| 0 <= x < width && 0 <= y < height implies img.pix(x, y)
            == rgb_of(gray.pix(x, y)) by {
            crate::raster::lemma_row_major_index(width as int, height as int, x, y);
            crate::raster::lemma_flat_coords(width as int, x, y);
        }
    }
    img
}

} // verus!
