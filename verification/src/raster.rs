//! In-memory rasters: a single-channel 8-bit image and a 3-channel one.
//!
//! Pixels are stored row-major; `pix(x, y)` reads column `x` of row `y`.

use vstd::prelude::*;

verus! {

/// A single 8-bit pixel channel triple.
#[derive(Clone, Copy, Debug, PartialEq, Eq, Structural)]
pub struct Rgb {
    pub r: u8,
    pub g: u8,
    pub b: u8,
}

/// A single-channel 8-bit raster, row-major.
pub struct GrayImg {
    pub width: usize,
    pub height: usize,
    pub data: Vec<u8>,
}

impl GrayImg {
    /// The pixel buffer holds exactly one byte per pixel.
    pub open spec fn wf(self) -> bool {
        self.data@.len() == self.height * self.width
    }

    /// The intensity at column `x` of row `y`.
    pub open spec fn pix(self, x: int, y: int) -> u8 {
        self.data@[y * self.width + x]
    }

    /// Every pixel of the raster holds `v`.
    pub open spec fn uniform(self, v: u8) -> bool {
        forall|x: int, y: int|
            0 <= x < self.width && 0 <= y < self.height ==> self.pix(x, y) == v
    }

    /// Reads one pixel.
    pub fn get(&self, x: usize, y: usize) -> (v: u8)
        requires
            self.wf(),
            x < self.width,
            y < self.height,
        ensures
            v == self.pix(x as int, y as int),
    {
        proof {
            vstd::std_specs::vec::axiom_spec_len(&self.data);
            lemma_row_major_index(self.width as int, self.height as int, x as int, y as int);
        }
        self.data[y * self.width + x]
    }
}

/// A 3-channel 8-bit raster, row-major.
pub struct RgbImg {
    pub width: usize,
    pub height: usize,
    pub data: Vec<Rgb>,
}

impl RgbImg {
    /// The pixel buffer holds exactly one triple per pixel.
    pub open spec fn wf(self) -> bool {
        self.data@.len() == self.height * self.width
    }

    /// The color at column `x` of row `y`.
    pub open spec fn pix(self, x: int, y: int) -> Rgb {
        self.data@[y * self.width + x]
    }

    /// Reads one pixel.
    pub fn get(&self, x: usize, y: usize) -> (c: Rgb)
        requires
            self.wf(),
            x < self.width,
            y < self.height,
        ensures
            c == self.pix(x as int, y as int),
    {
        proof {
            vstd::std_specs::vec::axiom_spec_len(&self.data);
            lemma_row_major_index(self.width as int, self.height as int, x as int, y as int);
        }
        self.data[y * self.width + x]
    }
}

/// A row-major index stays inside a `height * width` buffer.
pub proof fn lemma_row_major_index(width: int, height: int, x: int, y: int)
    requires
        0 <= x < width,
        0 <= y < height,
    ensures
        0 <= y * width + x < height * width,
{
    assert(y * width + x < height * width) by (nonlinear_arith)
        requires
            0 <= x < width,
            0 <= y < height,
    ;
    assert(y * width >= 0) by (nonlinear_arith)
        requires
            0 <= y,
            0 < width,
    ;
}

/// A row-major offset decomposes back into its coordinates.
pub proof fn lemma_flat_coords(width: int, x: int, y: int)
    requires
        0 <= x < width,
        0 <= y,
    ensures
        (y * width + x) % width == x,
        (y * width + x) / width == y,
{
    vstd::arithmetic::div_mod::lemma_fundamental_div_mod_converse_mod(y * width + x, width, y, x);
    vstd::arithmetic::div_mod::lemma_fundamental_div_mod_converse_div(y * width + x, width, y, x);
}

} // verus!
