//! Division of an image into horizontal bands.
//!
//! An image of `height` rows that is to be rendered by `workers` workers is
//! cut into bands of `height / workers + 1` rows each; the last band takes
//! whatever rows remain. The bands follow each other without gap or overlap,
//! and there are never more of them than workers.

use vstd::prelude::*;
use vstd::arithmetic::div_mod::{lemma_fundamental_div_mod, lemma_mod_bound};

verus! {

/// Nominal number of rows in a band.
pub open spec fn spec_rows_per_band(height: int, workers: int) -> int {
    height / workers + 1
}

/// Number of bands: the image height divided by the nominal band height,
/// rounded up.
pub open spec fn spec_band_count(height: int, workers: int) -> int {
    let rows = spec_rows_per_band(height, workers);
    (height + rows - 1) / rows
}

/// First row of the band with the given index.
pub open spec fn spec_band_top(height: int, workers: int, index: int) -> int {
    spec_rows_per_band(height, workers) * index
}

/// Number of rows of the band with the given index: the nominal band height,
/// or the rows that are left below its top if those are fewer.
pub open spec fn spec_band_height(height: int, workers: int, index: int) -> int {
    let rows = spec_rows_per_band(height, workers);
    let left = height - rows * index;
    if rows <= left {
        rows
    } else {
        left
    }
}

/// Index of the band that holds the given row.
pub open spec fn spec_band_of_row(height: int, workers: int, row: int) -> int {
    row / spec_rows_per_band(height, workers)
}

/// Whether the band with the given index holds the given row.
pub open spec fn spec_band_holds_row(height: int, workers: int, index: int, row: int) -> bool {
    let top = spec_band_top(height, workers, index);
    top <= row < top + spec_band_height(height, workers, index)
}

/// A horizontal band of an image: the rows `top .. top + height`, each
/// `width` pixels wide.
#[derive(Clone, Copy, Debug, PartialEq, Eq, Structural)]
pub struct Band {
    /// Width of the image, and so of the band, in pixels.
    pub width: usize,
    /// First row of the band, counted from the top of the image.
    pub top: usize,
    /// Number of rows in the band.
    pub height: usize,
}

impl Band {
    /// The band lies in a pixel buffer that memory can hold: the index just
    /// past its last pixel is a machine integer.
    pub open spec fn fits(&self) -> bool {
        &&& self.top + self.height <= usize::MAX
        &&& (self.top + self.height) * self.width <= usize::MAX
    }

    /// The band is band number `index` of an image with the given bounds that
    /// is divided among `workers` workers.
    pub open spec fn is_band(&self, bounds: (usize, usize), workers: usize, index: int) -> bool {
        &&& self.width == bounds.0
        &&& self.top == spec_band_top(bounds.1 as int, workers as int, index)
        &&& self.height == spec_band_height(bounds.1 as int, workers as int, index)
        &&& self.height > 0
        &&& self.top + self.height <= bounds.1
    }

    /// Bounds (width, height) of the band taken as an image of its own.
    pub fn bounds(&self) -> (bounds: (usize, usize))
        ensures
            bounds == (self.width, self.height),
    {
        (self.width, self.height)
    }

    /// The pixel (column, row) of the image at the upper left corner of the
    /// band.
    pub fn upper_left_pixel(&self) -> (pixel: (usize, usize))
        ensures
            pixel == (0usize, self.top),
    {
        (0, self.top)
    }

    /// The pixel (column, row) of the image just past the lower right corner
    /// of the band: one column right of its last column, one row below its
    /// last row.
    pub fn lower_right_pixel(&self) -> (pixel: (usize, usize))
        requires
            self.fits(),
        ensures
            pixel == (self.width, (self.top + self.height) as usize),
    {
        (self.width, self.top + self.height)
    }

    /// Index in the pixel buffer of the image of the first pixel of the band.
    pub fn offset(&self) -> (offset: usize)
        requires
            self.fits(),
        ensures
            offset == self.top * self.width,
    {
        proof {
            lemma_band_in_memory(*self);
        }
        self.top * self.width
    }

    /// Number of pixels in the band.
    pub fn len(&self) -> (len: usize)
        requires
            self.fits(),
        ensures
            len == self.height * self.width,
    {
        proof {
            lemma_band_in_memory(*self);
        }
        self.height * self.width
    }
}

/// A band that fits in memory starts and ends at machine integers, and its
/// pixels follow its offset.
proof fn lemma_band_in_memory(band: Band)
    requires
        band.fits(),
    ensures
        0 <= band.top * band.width <= usize::MAX,
        0 <= band.height * band.width <= usize::MAX,
        band.top * band.width + band.height * band.width == (band.top + band.height)
            * band.width,
{
    assert(band.top * band.width + band.height * band.width == (band.top + band.height)
        * band.width) by (nonlinear_arith);
    assert(0 <= band.top * band.width) by (nonlinear_arith);
    assert(0 <= band.height * band.width) by (nonlinear_arith);
}

/// Facts about rounding-up division by a positive number: the quotient `k` of
/// `h` by `r`, rounded up, is the one number with `r * (k - 1) < h <= r * k`.
proof fn lemma_round_up(h: int, r: int)
    requires
        h >= 0,
        r > 0,
    ensures
        (h + r - 1) / r >= 0,
        h <= r * ((h + r - 1) / r),
        h > 0 ==> r * ((h + r - 1) / r - 1) < h,
        h == 0 ==> (h + r - 1) / r == 0,
{
    let x = h + r - 1;
    let q = x / r;
    let m = x % r;
    lemma_fundamental_div_mod(x, r);
    lemma_mod_bound(x, r);
    assert(x == r * q + m);
    assert(r * (q - 1) == r * q - r) by (nonlinear_arith);
    assert(q >= 0) by (nonlinear_arith)
        requires
            r > 0,
            r * q + m >= 0,
            m < r,
    ;
    if h == 0 {
        assert(q == 0) by (nonlinear_arith)
            requires
                r > 0,
                r * q + m == r - 1,
                0 <= m,
                q >= 0,
        ;
    }
}

/// The converse: a number `k` with `r * (k - 1) < h <= r * k` is the quotient
/// of `h` by `r`, rounded up.
proof fn lemma_round_up_unique(h: int, r: int, k: int)
    requires
        h >= 0,
        r > 0,
        k >= 0,
        h <= r * k,
        k > 0 ==> r * (k - 1) < h,
    ensures
        k == (h + r - 1) / r,
{
    let q = (h + r - 1) / r;
    lemma_round_up(h, r);
    if h == 0 {
        if k > 0 {
            assert(r * (k - 1) >= 0) by (nonlinear_arith)
                requires
                    r > 0,
                    k >= 1,
            ;
        }
    } else {
        assert(k > 0) by (nonlinear_arith)
            requires
                h > 0,
                h <= r * k,
                r > 0,
                k >= 0,
        ;
        assert(k - 1 < q) by (nonlinear_arith)
            requires
                r > 0,
                r * (k - 1) < h,
                h <= r * q,
        ;
        assert(q - 1 < k) by (nonlinear_arith)
            requires
                r > 0,
                r * (q - 1) < h,
                h <= r * k,
        ;
    }
}

/// Nominal number of rows in a band of an image with `height` rows that is
/// divided among `workers` workers.
pub fn rows_per_band(height: usize, workers: usize) -> (rows: usize)
    requires
        workers > 0,
        height / workers + 1 <= usize::MAX,
    ensures
        rows == spec_rows_per_band(height as int, workers as int),
        rows > 0,
{
    height / workers + 1
}

/// Divides an image with the given bounds (width, height) into the bands for
/// `workers` workers, from the top of the image down.
pub fn partition(bounds: (usize, usize), workers: usize) -> (plan: Vec<Band>)
    requires
        workers > 0,
        bounds.0 * bounds.1 <= usize::MAX,
        bounds.1 / workers + 1 <= usize::MAX,
    ensures
        plan@.len() == spec_band_count(bounds.1 as int, workers as int),
        plan@.len() <= workers,
        forall|i: int|
            0 <= i < plan@.len() ==> (#[trigger] plan@[i]).is_band(bounds, workers, i)
                && plan@[i].fits(),
{
    let rows = rows_per_band(bounds.1, workers);
    let mut plan: Vec<Band> = Vec::new();
    let mut top: usize = 0;
    assert(rows * 0 == 0) by (nonlinear_arith);
    while top < bounds.1
        invariant
            rows == spec_rows_per_band(bounds.1 as int, workers as int),
            rows > 0,
            bounds.0 * bounds.1 <= usize::MAX,
            top <= bounds.1,
            top == bounds.1 || top == rows * plan@.len(),
            bounds.1 <= rows * plan@.len() || top == rows * plan@.len(),
            plan@.len() > 0 ==> rows * (plan@.len() - 1) < bounds.1,
            forall|i: int|
                0 <= i < plan@.len() ==> (#[trigger] plan@[i]).is_band(bounds, workers, i)
                    && plan@[i].fits(),
        decreases bounds.1 - top,
    {
        let left = bounds.1 - top;
        let height = if rows <= left {
            rows
        } else {
            left
        };
        let band = Band { width: bounds.0, top, height };
        proof {
            let n = plan@.len() as int;
            assert(top == rows * n);
            assert(rows * (n + 1) == rows * n + rows) by (nonlinear_arith);
            assert((top + height) * bounds.0 <= bounds.0 * bounds.1) by (nonlinear_arith)
                requires
                    top + height <= bounds.1,
            ;
            assert(band.is_band(bounds, workers, n));
            assert(band.fits());
        }
        plan.push(band);
        top = top + height;
    }
    proof {
        lemma_round_up_unique(bounds.1 as int, rows as int, plan@.len() as int);
        lemma_band_count_within_workers(bounds.1 as int, workers as int);
    }
    plan
}

/// The bands tile the rows of the image: the first band starts at row 0, each
/// band starts where the one before it ends, the last band ends at the last
/// row, and no band is empty.
pub proof fn lemma_bands_tile_rows(height: int, workers: int)
    requires
        height >= 0,
        workers > 0,
    ensures
        spec_band_count(height, workers) >= 0,
        height > 0 ==> spec_band_count(height, workers) > 0,
        spec_band_top(height, workers, 0) == 0,
        forall|i: int|
            0 <= i < spec_band_count(height, workers) ==> #[trigger] spec_band_height(
                height,
                workers,
                i,
            ) > 0,
        forall|i: int|
            0 <= i < spec_band_count(height, workers) - 1 ==> #[trigger] spec_band_top(
                height,
                workers,
                i,
            ) + spec_band_height(height, workers, i) == spec_band_top(height, workers, i + 1),
        spec_band_count(height, workers) > 0 ==> spec_band_top(
            height,
            workers,
            spec_band_count(height, workers) - 1,
        ) + spec_band_height(height, workers, spec_band_count(height, workers) - 1) == height,
{
    let rows = spec_rows_per_band(height, workers);
    let count = spec_band_count(height, workers);
    lemma_rows_positive(height, workers);
    lemma_round_up(height, rows);
    assert(rows * 0 == 0);
    if height > 0 {
        assert(count > 0) by (nonlinear_arith)
            requires
                height > 0,
                height <= rows * count,
                rows > 0,
                count >= 0,
        ;
    }
    assert forall|i: int| 0 <= i < count implies #[trigger] spec_band_height(height, workers, i)
        > 0 by {
        lemma_band_inside(height, workers, i);
    }
    assert forall|i: int| 0 <= i < count - 1 implies #[trigger] spec_band_top(height, workers, i)
        + spec_band_height(height, workers, i) == spec_band_top(height, workers, i + 1) by {
        lemma_band_inside(height, workers, i + 1);
        assert(rows * (i + 1) == rows * i + rows) by (nonlinear_arith);
    }
    if count > 0 {
        assert(rows * (count - 1) == rows * count - rows) by (nonlinear_arith);
        lemma_band_inside(height, workers, count - 1);
    }
}

/// The nominal band height is positive.
proof fn lemma_rows_positive(height: int, workers: int)
    requires
        height >= 0,
        workers > 0,
    ensures
        spec_rows_per_band(height, workers) > 0,
{
    assert(height / workers >= 0) by (nonlinear_arith)
        requires
            height >= 0,
            workers > 0,
    ;
}

/// Every band lies inside the image and is not empty.
pub proof fn lemma_band_inside(height: int, workers: int, index: int)
    requires
        height >= 0,
        workers > 0,
        0 <= index < spec_band_count(height, workers),
    ensures
        0 <= spec_band_top(height, workers, index) < height,
        spec_band_height(height, workers, index) > 0,
        spec_band_top(height, workers, index) + spec_band_height(height, workers, index)
            <= height,
{
    let rows = spec_rows_per_band(height, workers);
    let count = spec_band_count(height, workers);
    lemma_rows_positive(height, workers);
    lemma_round_up(height, rows);
    assert(height > 0);
    assert(rows * index <= rows * (count - 1)) by (nonlinear_arith)
        requires
            rows > 0,
            index <= count - 1,
    ;
    assert(rows * index >= 0) by (nonlinear_arith)
        requires
            rows > 0,
            index >= 0,
    ;
}

/// Every row of the image lies in exactly one band: the band whose index is
/// the row divided by the nominal band height holds it, and no other does.
pub proof fn lemma_row_in_one_band(height: int, workers: int, row: int)
    requires
        workers > 0,
        0 <= row < height,
    ensures
        0 <= spec_band_of_row(height, workers, row) < spec_band_count(height, workers),
        spec_band_holds_row(height, workers, spec_band_of_row(height, workers, row), row),
        forall|j: int|
            0 <= j < spec_band_count(height, workers) && #[trigger] spec_band_holds_row(
                height,
                workers,
                j,
                row,
            ) ==> j == spec_band_of_row(height, workers, row),
{
    let rows = spec_rows_per_band(height, workers);
    let count = spec_band_count(height, workers);
    let k = row / rows;
    lemma_rows_positive(height, workers);
    lemma_round_up(height, rows);
    lemma_fundamental_div_mod(row, rows);
    lemma_mod_bound(row, rows);
    assert(row == rows * k + row % rows);
    assert(k >= 0) by (nonlinear_arith)
        requires
            rows > 0,
            rows * k + rows > 0,
    ;
    assert(k < count) by (nonlinear_arith)
        requires
            rows > 0,
            rows * k <= row,
            row < height,
            height <= rows * count,
    ;
    assert forall|j: int|
        0 <= j < count && #[trigger] spec_band_holds_row(height, workers, j, row) implies j
        == k by {
        assert(rows * j <= row < rows * j + rows);
        assert(j == k) by (nonlinear_arith)
            requires
                rows > 0,
                rows * j <= row < rows * j + rows,
                rows * k <= row < rows * k + rows,
        ;
    }
}

/// No two bands share a row.
pub proof fn lemma_bands_disjoint(height: int, workers: int, i: int, j: int, row: int)
    requires
        height >= 0,
        workers > 0,
        0 <= i < spec_band_count(height, workers),
        0 <= j < spec_band_count(height, workers),
        spec_band_holds_row(height, workers, i, row),
        spec_band_holds_row(height, workers, j, row),
    ensures
        i == j,
{
    lemma_band_inside(height, workers, i);
    lemma_row_in_one_band(height, workers, row);
}

/// There are never more bands than workers.
pub proof fn lemma_band_count_within_workers(height: int, workers: int)
    requires
        height >= 0,
        workers > 0,
    ensures
        0 <= spec_band_count(height, workers) <= workers,
{
    let rows = spec_rows_per_band(height, workers);
    let count = spec_band_count(height, workers);
    lemma_rows_positive(height, workers);
    lemma_round_up(height, rows);
    lemma_fundamental_div_mod(height, workers);
    lemma_mod_bound(height, workers);
    if height > 0 {
        assert(height < rows * workers) by (nonlinear_arith)
            requires
                rows == height / workers + 1,
                height == workers * (height / workers) + height % workers,
                height % workers < workers,
        ;
        assert(count - 1 < workers) by (nonlinear_arith)
            requires
                rows > 0,
                rows * (count - 1) < height,
                height < rows * workers,
        ;
    }
}

} // verus!
