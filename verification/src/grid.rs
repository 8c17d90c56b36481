//! The elevation matrix and its normalization into 8-bit intensity.

use vstd::prelude::*;

use crate::error::GridError;
use crate::raster::GrayImg;

verus! {

/// A dense elevation matrix with its header metadata.
///
/// Elevations and the cell size are exact decimals held in millionths
/// (micro-units): an elevation of `1.5` is stored as `1_500_000`. Row 0 is
/// the northernmost row, as the source file declares it.
pub struct Grid {
    /// Number of matrix rows.
    pub rows: usize,
    /// Number of matrix columns.
    pub cols: usize,
    /// Ground distance spanned by one cell edge, in micro-units.
    pub cellsize: i64,
    /// The no-data sentinel in micro-units, when the header declares one.
    /// A cell is missing exactly when it equals this value.
    pub nodata: Option<i64>,
    /// Elevations in micro-units, row-major, `rows * cols` entries.
    pub data: Vec<i64>,
}

impl Grid {
    /// The matrix holds exactly one value per declared cell.
    pub open spec fn wf(self) -> bool {
        self.data@.len() == self.rows * self.cols
    }

    /// The elevation at row `r`, column `c`, in micro-units.
    pub open spec fn cell(self, r: int, c: int) -> int {
        self.data@[r * self.cols + c] as int
    }

    /// Whether `v` is the no-data sentinel of this grid.
    pub open spec fn is_nodata(self, v: int) -> bool {
        match self.nodata {
            Some(nd) => v == nd as int,
            None => false,
        }
    }

    /// Builds a grid after checking that the value count matches the
    /// declared dimensions.
    pub fn new(
        rows: usize,
        cols: usize,
        cellsize: i64,
        nodata: Option<i64>,
        data: Vec<i64>,
    ) -> (r: Result<Grid, GridError>)
        ensures
            data@.len() == rows * cols ==> (r matches Ok(g) && g == (Grid {
                rows,
                cols,
                cellsize,
                nodata,
                data,
            }) && g.wf()),
            data@.len() != rows * cols ==> r == Err::<Grid, GridError>(
                GridError::DimensionMismatch,
            ),
    {
        proof {
            vstd::std_specs::vec::axiom_spec_len(&data);
        }
        match rows.checked_mul(cols) {
            Some(n) => if n == data.len() {
                Ok(Grid { rows, cols, cellsize, nodata, data })
            } else {
                Err(GridError::DimensionMismatch)
            },
            None => Err(GridError::DimensionMismatch),
        }
    }
}

/// The least elevation among the entries of `data` that are not the no-data
/// sentinel, or `None` when every entry is missing.
pub open spec fn min_elev(data: Seq<i64>, nodata: Option<i64>) -> Option<int>
    decreases data.len(),
{
    if data.len() == 0 {
        None
    } else {
        let prev = min_elev(data.drop_last(), nodata);
        let v = data.last() as int;
        if nodata matches Some(nd) && v == nd as int {
            prev
        } else {
            match prev {
                None => Some(v),
                Some(m) => Some(if v < m { v } else { m }),
            }
        }
    }
}

/// The greatest elevation among the entries of `data` that are not the
/// no-data sentinel, or `None` when every entry is missing.
pub open spec fn max_elev(data: Seq<i64>, nodata: Option<i64>) -> Option<int>
    decreases data.len(),
{
    if data.len() == 0 {
        None
    } else {
        let prev = max_elev(data.drop_last(), nodata);
        let v = data.last() as int;
        if nodata matches Some(nd) && v == nd as int {
            prev
        } else {
            match prev {
                None => Some(v),
                Some(m) => Some(if v > m { v } else { m }),
            }
        }
    }
}

/// Min-max scaling of an elevation into 0..=255:
/// `round(255 * (v - mn) / (mx - mn))` with ties rounded toward zero
/// (halfway values take the lower step), written over integers.
/// Meaningful when `mn <= v <= mx` and `mn < mx`.
pub open spec fn norm_intensity(v: int, mn: int, mx: int) -> int {
    (510 * (v - mn) + (mx - mn) - 1) / (2 * (mx - mn))
}

/// The intensity a cell of `g` normalizes to. No-data cells map to 0; when
/// the grid has no spread (no live cell, or all live cells equal), every
/// cell maps to 0.
pub open spec fn cell_intensity(g: Grid, r: int, c: int) -> int {
    let v = g.cell(r, c);
    if g.is_nodata(v) {
        0
    } else {
        match (min_elev(g.data@, g.nodata), max_elev(g.data@, g.nodata)) {
            (Some(mn), Some(mx)) => if mn < mx {
                norm_intensity(v, mn, mx)
            } else {
                0
            },
            _ => 0,
        }
    }
}

/// The scaled intensity stays within one byte and hits both ends of the
/// range: the least elevation maps to 0 and the greatest to 255.
pub proof fn lemma_norm_intensity_bounds(v: int, mn: int, mx: int)
    requires
        mn <= v <= mx,
        mn < mx,
    ensures
        0 <= norm_intensity(v, mn, mx) <= 255,
        v == mn ==> norm_intensity(v, mn, mx) == 0,
        v == mx ==> norm_intensity(v, mn, mx) == 255,
{
    let d = v - mn;
    let s = mx - mn;
    let num = 510 * d + s - 1;
    assert(num < 512 * s) by (nonlinear_arith)
        requires
            0 <= d <= s,
            s >= 1,
            num == 510 * d + s - 1,
    ;
    assert(num >= 0) by (nonlinear_arith)
        requires
            0 <= d,
            s >= 1,
            num == 510 * d + s - 1,
    ;
    lemma_div_below(num, 2 * s, 256);
    assert(num / (2 * s) >= 0) by {
        vstd::arithmetic::div_mod::lemma_div_pos_is_pos(num, 2 * s);
    }
    if v == mn {
        assert(num == s - 1);
        lemma_div_below(s - 1, 2 * s, 1);
        assert(norm_intensity(v, mn, mx) == 0);
    }
    if v == mx {
        assert(num == 511 * s - 1);
        assert(num == (2 * s) * 255 + (s - 1)) by (nonlinear_arith)
            requires
                num == 511 * s - 1,
        ;
        vstd::arithmetic::div_mod::lemma_fundamental_div_mod_converse(num, 2 * s, 255, s - 1);
        assert(norm_intensity(v, mn, mx) == 255);
    }
}

/// A nonnegative number below `bound` multiples of a positive divisor
/// divides to a quotient below `bound`.
pub proof fn lemma_div_below(num: int, den: int, bound: int)
    requires
        0 <= num,
        0 < den,
        num < bound * den,
    ensures
        num / den < bound,
{
    vstd::arithmetic::div_mod::lemma_fundamental_div_mod(num, den);
    if num / den >= bound {
        assert(den * (num / den) >= den * bound) by (nonlinear_arith)
            requires
                0 < den,
                num / den >= bound,
        ;
        assert(bound * den == den * bound) by (nonlinear_arith);
        assert(num % den >= 0) by {
            vstd::arithmetic::div_mod::lemma_mod_bound(num, den);
        }
    }
}

/// One forward step of the running minimum/maximum: extending the prefix by
/// one entry updates the fold as the recursion says.
proof fn lemma_elev_take_step(data: Seq<i64>, nodata: Option<i64>, i: int)
    requires
        0 <= i < data.len(),
    ensures
        min_elev(data.take(i + 1), nodata) == {
            let prev = min_elev(data.take(i), nodata);
            let v = data[i] as int;
            if nodata matches Some(nd) && v == nd as int {
                prev
            } else {
                match prev {
                    None => Some(v),
                    Some(m) => Some(if v < m { v } else { m }),
                }
            }
        },
        max_elev(data.take(i + 1), nodata) == {
            let prev = max_elev(data.take(i), nodata);
            let v = data[i] as int;
            if nodata matches Some(nd) && v == nd as int {
                prev
            } else {
                match prev {
                    None => Some(v),
                    Some(m) => Some(if v > m { v } else { m }),
                }
            }
        },
{
    assert(data.take(i + 1).drop_last() =~= data.take(i));
    assert(data.take(i + 1).last() == data[i]);
}

/// Computes the least and greatest live elevation of the matrix in one pass.
pub fn elevation_range(g: &Grid) -> (r: (Option<i64>, Option<i64>))
    requires
        g.wf(),
    ensures
        match r.0 {
            Some(mn) => min_elev(g.data@, g.nodata) == Some(mn as int),
            None => min_elev(g.data@, g.nodata) is None,
        },
        match r.1 {
            Some(mx) => max_elev(g.data@, g.nodata) == Some(mx as int),
            None => max_elev(g.data@, g.nodata) is None,
        },
{
    let mut mn: Option<i64> = None;
    let mut mx: Option<i64> = None;
    let n: usize = g.data.len();
    let mut i: usize = 0;
    while i < n
        invariant
            i <= n,
            n == g.data@.len(),
            match mn {
                Some(m) => min_elev(g.data@.take(i as int), g.nodata) == Some(m as int),
                None => min_elev(g.data@.take(i as int), g.nodata) is None,
            },
            match mx {
                Some(m) => max_elev(g.data@.take(i as int), g.nodata) == Some(m as int),
                None => max_elev(g.data@.take(i as int), g.nodata) is None,
            },
        decreases n - i,
    {
        let v: i64 = g.data[i];
        proof {
            lemma_elev_take_step(g.data@, g.nodata, i as int);
        }
        let live = match g.nodata {
            Some(nd) => v != nd,
            None => true,
        };
        if live {
            mn = match mn {
                None => Some(v),
                Some(m) => Some(if v < m { v } else { m }),
            };
            mx = match mx {
                None => Some(v),
                Some(m) => Some(if v > m { v } else { m }),
            };
        }
        i = i + 1;
    }
    proof {
        assert(g.data@.take(n as int) =~= g.data@);
    }
    (mn, mx)
}

/// Normalizes the elevation matrix into an 8-bit grayscale raster.
///
/// The raster is vertically flipped: matrix row `r` lands on image row
/// `rows - 1 - r`, so the northernmost row is at the top of the image.
/// No-data cells render as intensity 0; a grid without spread renders as
/// all zeros instead of faulting.
pub fn normalize_to_gray(g: &Grid) -> (img: GrayImg)
    requires
        g.wf(),
    ensures
        img.wf(),
        img.width == g.cols,
        img.height == g.rows,
        forall|x: int, y: int|
            0 <= x < g.cols && 0 <= y < g.rows ==> img.pix(x, y) == cell_intensity(
                *g,
                g.rows - 1 - y,
                x,
            ),
{
    let range: (Option<i64>, Option<i64>) = elevation_range(g);
    let spread: bool = match (range.0, range.1) {
        (Some(a), Some(b)) => a < b,
        _ => false,
    };
    let mnv: i64 = match range.0 {
        Some(a) => a,
        None => 0,
    };
    let mxv: i64 = match range.1 {
        Some(b) => b,
        None => 0,
    };
    let mut data: Vec<u8> = Vec::new();
    let rows: usize = g.rows;
    let cols: usize = g.cols;
    let mut y: usize = 0;
    while y < rows
        invariant
            y <= rows,
            g.wf(),
            rows == g.rows,
            cols == g.cols,
            match (min_elev(g.data@, g.nodata), max_elev(g.data@, g.nodata)) {
                (Some(a), Some(b)) => spread <==> a < b,
                _ => !spread,
            },
            spread ==> min_elev(g.data@, g.nodata) == Some(mnv as int) && max_elev(
                g.data@,
                g.nodata,
            ) == Some(mxv as int),
            data@.len() == y * cols,
            forall|k: int|
                0 <= k < data@.len() ==> data@[k] == cell_intensity(
                    *g,
                    rows - 1 - (k / (cols as int)),
                    k % (cols as int),
                ),
        decreases rows - y,
    {
        let row: usize = rows - 1 - y;
        let mut x: usize = 0;
        while x < cols
            invariant
                x <= cols,
                y < rows,
                row == rows - 1 - y,
                g.wf(),
                rows == g.rows,
                cols == g.cols,
                match (min_elev(g.data@, g.nodata), max_elev(g.data@, g.nodata)) {
                    (Some(a), Some(b)) => spread <==> a < b,
                    _ => !spread,
                },
                spread ==> min_elev(g.data@, g.nodata) == Some(mnv as int) && max_elev(
                    g.data@,
                    g.nodata,
                ) == Some(mxv as int),
                data@.len() == y * cols + x,
                forall|k: int|
                    0 <= k < data@.len() ==> data@[k] == cell_intensity(
                        *g,
                        rows - 1 - (k / (cols as int)),
                        k % (cols as int),
                    ),
            decreases cols - x,
        {
            proof {
                vstd::std_specs::vec::axiom_spec_len(&g.data);
                crate::raster::lemma_row_major_index(cols as int, rows as int, x as int, row as int);
            }
            let v: i64 = g.data[row * cols + x];
            let live = match g.nodata {
                Some(nd) => v != nd,
                None => true,
            };
            let px: u8 = if !live && spread {
                0
            } else if live && spread {
                proof {
                    lemma_range_covers(g.data@, g.nodata, (row * cols + x) as int);
                    lemma_norm_intensity_bounds(v as int, mnv as int, mxv as int);
                }
                let d: u128 = (v as i128 - mnv as i128) as u128;
                let s: u128 = (mxv as i128 - mnv as i128) as u128;
                let q: u128 = (510 * d + s - 1) / (2 * s);
                assert(q == norm_intensity(v as int, mnv as int, mxv as int));
                q as u8
            } else {
                0
            };
            assert(px == cell_intensity(*g, row as int, x as int));
            proof {
                crate::raster::lemma_flat_coords(cols as int, x as int, y as int);
            }
            data.push(px);
            x = x + 1;
        }
        y = y + 1;
        assert(data@.len() == y * cols) by (nonlinear_arith)
            requires
                data@.len() == (y - 1) * cols + cols,
        ;
    }
    let img = GrayImg { width: cols, height: rows, data };
    proof {
        assert forall|x: int, y: int| 0 <= x < g.cols && 0 <= y < g.rows implies img.pix(x, y)
            == cell_intensity(*g, g.rows - 1 - y, x) by {
            crate::raster::lemma_row_major_index(cols as int, rows as int, x, y);
            crate::raster::lemma_flat_coords(cols as int, x, y);
        }
    }
    img
}

/// A raster normalized from `g` is vertically flipped: matrix row 0, the
/// northernmost, appears as the last row of the image.
pub proof fn lemma_vertical_flip(g: Grid, img: GrayImg)
    requires
        g.wf(),
        img.wf(),
        img.width == g.cols,
        img.height == g.rows,
        g.rows >= 1,
        forall|x: int, y: int|
            0 <= x < g.cols && 0 <= y < g.rows ==> img.pix(x, y) == cell_intensity(
                g,
                g.rows - 1 - y,
                x,
            ),
    ensures
        forall|x: int|
            0 <= x < g.cols ==> img.pix(x, g.rows - 1) == cell_intensity(g, 0, x),
{
}

/// An entry holding the no-data sentinel never influences the elevation
/// range: removing it leaves both the minimum and the maximum unchanged.
pub proof fn lemma_nodata_ignored(data: Seq<i64>, nd: i64, i: int)
    requires
        0 <= i < data.len(),
        data[i] == nd,
    ensures
        min_elev(data.remove(i), Some(nd)) == min_elev(data, Some(nd)),
        max_elev(data.remove(i), Some(nd)) == max_elev(data, Some(nd)),
    decreases data.len(),
{
    if i == data.len() - 1 {
        assert(data.remove(i) =~= data.drop_last());
    } else {
        lemma_nodata_ignored(data.drop_last(), nd, i);
        assert(data.drop_last()[i] == data[i]);
        assert(data.remove(i).drop_last() =~= data.drop_last().remove(i));
        assert(data.remove(i).last() == data.last());
    }
}

/// Every live entry of the matrix lies between the fold's minimum and
/// maximum, and a live entry forces both to exist.
pub proof fn lemma_range_covers(data: Seq<i64>, nodata: Option<i64>, i: int)
    requires
        0 <= i < data.len(),
        !(nodata matches Some(nd) && data[i] as int == nd as int),
    ensures
        min_elev(data, nodata) matches Some(mn) && mn <= data[i] as int,
        max_elev(data, nodata) matches Some(mx) && mx >= data[i] as int,
    decreases data.len(),
{
    if i == data.len() - 1 {
        assert(data.last() == data[i]);
    } else {
        lemma_range_covers(data.drop_last(), nodata, i);
        assert(data.drop_last()[i] == data[i]);
    }
}

} // verus!
