//! Rendering of a pixel buffer.
//!
//! A pixel buffer holds one byte of brightness for each pixel of an image,
//! row by row from the top, so that the pixel in column `column` of row `row`
//! stands at index `row * width + column`.

use vstd::prelude::*;
use vstd::arithmetic::div_mod::{lemma_fundamental_div_mod, lemma_mod_bound};
use crate::orbit::{escape_time, lemma_escape_time_deterministic, spec_escape_time};
use crate::plane::Plane;
use crate::shade::{intensity, spec_intensity, ITERATION_LIMIT};

verus! {

/// Index in a row-major pixel buffer of the pixel at `(column, row)`.
pub open spec fn spec_pixel_index(width: int, column: int, row: int) -> int {
    row * width + column
}

/// `byte` is a brightness that rendering can give to `pixel` (column, row):
/// the intensity of a fate that the orbit of the point shown by the pixel can
/// have within the iteration limit.
pub open spec fn spec_pixel<
    Z,
    M: Fn((usize, usize), (usize, usize), Z, Z) -> Z,
    A: Fn(Z, Z) -> Z,
    E: Fn(Z) -> bool,
>(
    plane: Plane<Z, M, A, E>,
    bounds: (usize, usize),
    upper_left: Z,
    lower_right: Z,
    pixel: (usize, usize),
    byte: u8,
) -> bool {
    exists|c: Z, outcome: Option<u32>|
        plane.maps(bounds, pixel, upper_left, lower_right, c) && #[trigger] spec_escape_time(
            plane,
            c,
            ITERATION_LIMIT,
            outcome,
        ) && byte == spec_intensity(outcome)
}

/// `pixels` is a rendering of the viewport between the two corners as an
/// image with the given bounds (width, height): it has one byte for each
/// pixel, and each byte is a brightness that rendering can give to its pixel.
pub open spec fn spec_rendered<
    Z,
    M: Fn((usize, usize), (usize, usize), Z, Z) -> Z,
    A: Fn(Z, Z) -> Z,
    E: Fn(Z) -> bool,
>(
    plane: Plane<Z, M, A, E>,
    bounds: (usize, usize),
    upper_left: Z,
    lower_right: Z,
    pixels: Seq<u8>,
) -> bool {
    &&& pixels.len() == bounds.0 * bounds.1
    &&& forall|column: usize, row: usize|
        column < bounds.0 && row < bounds.1 ==> spec_pixel(
            plane,
            bounds,
            upper_left,
            lower_right,
            (column, row),
            #[trigger] pixels[spec_pixel_index(bounds.0 as int, column as int, row as int)],
        )
}

/// Pixels of an image have indices inside its buffer, and a pixel that comes
/// earlier in reading order (row by row, left to right) has the smaller index.
pub proof fn lemma_pixel_index_order(
    bounds: (int, int),
    column: int,
    row: int,
    later_column: int,
    later_row: int,
)
    requires
        0 <= column < bounds.0,
        0 <= later_column < bounds.0,
        0 <= row,
        0 <= later_row < bounds.1,
        row < later_row || (row == later_row && column < later_column),
    ensures
        0 <= spec_pixel_index(bounds.0, column, row) < spec_pixel_index(
            bounds.0,
            later_column,
            later_row,
        ) < bounds.0 * bounds.1,
{
    let width = bounds.0;
    let height = bounds.1;
    assert(row * width >= 0) by (nonlinear_arith)
        requires
            row >= 0,
            width > 0,
    ;
    assert(later_row * width + width <= height * width) by (nonlinear_arith)
        requires
            later_row + 1 <= height,
            width > 0,
    ;
    assert(height * width == width * height) by (nonlinear_arith);
    if row < later_row {
        assert(row * width + width <= later_row * width) by (nonlinear_arith)
            requires
                row + 1 <= later_row,
                width > 0,
        ;
    }
}

/// Every index of the buffer belongs to one pixel: the one in column
/// `index % width` of row `index / width`.
pub proof fn lemma_pixel_of_index(bounds: (int, int), index: int)
    requires
        0 <= bounds.0,
        0 <= index < bounds.0 * bounds.1,
    ensures
        0 <= index % bounds.0 < bounds.0,
        0 <= index / bounds.0 < bounds.1,
        spec_pixel_index(bounds.0, index % bounds.0, index / bounds.0) == index,
{
    let width = bounds.0;
    let height = bounds.1;
    assert(width > 0) by (nonlinear_arith)
        requires
            0 <= index < width * height,
            width >= 0,
    ;
    let column = index % width;
    let row = index / width;
    lemma_fundamental_div_mod(index, width);
    lemma_mod_bound(index, width);
    assert(0 <= row < height) by (nonlinear_arith)
        requires
            width > 0,
            index == width * row + column,
            0 <= column < width,
            0 <= index < width * height,
    ;
    assert(row * width == width * row) by (nonlinear_arith);
}

/// Index in the pixel buffer of an image with the given bounds (width,
/// height) of the pixel at `pixel` (column, row).
pub fn pixel_index(bounds: (usize, usize), pixel: (usize, usize)) -> (index: usize)
    requires
        pixel.0 < bounds.0,
        pixel.1 < bounds.1,
        bounds.0 * bounds.1 <= usize::MAX,
    ensures
        index == spec_pixel_index(bounds.0 as int, pixel.0 as int, pixel.1 as int),
        index < bounds.0 * bounds.1,
{
    proof {
        lemma_pixel_in_buffer(bounds, pixel);
    }
    pixel.1 * bounds.0 + pixel.0
}

/// The index of a pixel of an image lies inside the image's buffer.
proof fn lemma_pixel_in_buffer(bounds: (usize, usize), pixel: (usize, usize))
    requires
        pixel.0 < bounds.0,
        pixel.1 < bounds.1,
    ensures
        0 <= pixel.1 * bounds.0 <= pixel.1 * bounds.0 + pixel.0 < bounds.0 * bounds.1,
{
    assert(pixel.1 * bounds.0 >= 0) by (nonlinear_arith);
    assert(pixel.1 * bounds.0 + bounds.0 <= bounds.0 * bounds.1) by (nonlinear_arith)
        requires
            pixel.1 + 1 <= bounds.1,
            bounds.0 > 0,
    ;
}

/// The pixels that come before `(column, row)` in reading order have been
/// rendered.
spec fn spec_rendered_before<
    Z,
    M: Fn((usize, usize), (usize, usize), Z, Z) -> Z,
    A: Fn(Z, Z) -> Z,
    E: Fn(Z) -> bool,
>(
    plane: Plane<Z, M, A, E>,
    bounds: (usize, usize),
    upper_left: Z,
    lower_right: Z,
    pixels: Seq<u8>,
    column: usize,
    row: usize,
) -> bool {
    forall|c: usize, r: usize|
        c < bounds.0 && (r < row || (r == row && c < column)) ==> spec_pixel(
            plane,
            bounds,
            upper_left,
            lower_right,
            (c, r),
            #[trigger] pixels[spec_pixel_index(bounds.0 as int, c as int, r as int)],
        )
}

/// Writing the byte of the pixel at `(column, row)` extends what has been
/// rendered by that pixel and disturbs none of the pixels before it.
proof fn lemma_pixel_written<
    Z,
    M: Fn((usize, usize), (usize, usize), Z, Z) -> Z,
    A: Fn(Z, Z) -> Z,
    E: Fn(Z) -> bool,
>(
    plane: Plane<Z, M, A, E>,
    bounds: (usize, usize),
    upper_left: Z,
    lower_right: Z,
    before: Seq<u8>,
    byte: u8,
    column: usize,
    row: usize,
)
    requires
        column < bounds.0,
        row < bounds.1,
        before.len() == bounds.0 * bounds.1,
        spec_rendered_before(plane, bounds, upper_left, lower_right, before, column, row),
        spec_pixel(plane, bounds, upper_left, lower_right, (column, row), byte),
    ensures
        spec_rendered_before(
            plane,
            bounds,
            upper_left,
            lower_right,
            before.update(spec_pixel_index(bounds.0 as int, column as int, row as int), byte),
            (column + 1) as usize,
            row,
        ),
{
    let at = spec_pixel_index(bounds.0 as int, column as int, row as int);
    let after = before.update(at, byte);
    lemma_pixel_in_buffer(bounds, (column, row));
    assert forall|c: usize, r: usize|
        c < bounds.0 && (r < row || (r == row && c < column + 1)) implies spec_pixel(
        plane,
        bounds,
        upper_left,
        lower_right,
        (c, r),
        #[trigger] after[spec_pixel_index(bounds.0 as int, c as int, r as int)],
    ) by {
        let i = spec_pixel_index(bounds.0 as int, c as int, r as int);
        if r == row && c == column {
            assert(after[i] == byte);
        } else {
            lemma_pixel_index_order(
                (bounds.0 as int, bounds.1 as int),
                c as int,
                r as int,
                column as int,
                row as int,
            );
            assert(after[i] == before[i]);
        }
    }
}

/// Renders the viewport between `upper_left` and `lower_right` into `pixels`
/// as an image with the given bounds (width, height).
///
/// For each pixel, the mapper of the plane gives the point that the pixel
/// shows; the orbit of that point is iterated for at most 255 iterations; and
/// the byte of the pixel is the intensity of what came of it: 0 if the orbit
/// stayed bounded, and 255 less the iteration at which it escaped otherwise.
pub fn render<
    Z: Copy,
    M: Fn((usize, usize), (usize, usize), Z, Z) -> Z,
    A: Fn(Z, Z) -> Z,
    E: Fn(Z) -> bool,
>(
    pixels: &mut [u8],
    bounds: (usize, usize),
    upper_left: Z,
    lower_right: Z,
    plane: &Plane<Z, M, A, E>,
)
    requires
        old(pixels)@.len() == bounds.0 * bounds.1,
        plane.total(),
    ensures
        spec_rendered(*plane, bounds, upper_left, lower_right, final(pixels)@),
{
    let total = pixels.len();
    let mut row: usize = 0;
    while row < bounds.1
        invariant
            plane.total(),
            row <= bounds.1,
            pixels@.len() == bounds.0 * bounds.1,
            bounds.0 * bounds.1 == total,
            spec_rendered_before(*plane, bounds, upper_left, lower_right, pixels@, 0, row),
        decreases bounds.1 - row,
    {
        let mut column: usize = 0;
        while column < bounds.0
            invariant
                plane.total(),
                row < bounds.1,
                column <= bounds.0,
                pixels@.len() == bounds.0 * bounds.1,
                bounds.0 * bounds.1 == total,
                spec_rendered_before(
                    *plane,
                    bounds,
                    upper_left,
                    lower_right,
                    pixels@,
                    column,
                    row,
                ),
            decreases bounds.0 - column,
        {
            let point = (plane.map)(bounds, (column, row), upper_left, lower_right);
            let outcome = escape_time(point, ITERATION_LIMIT, plane);
            let index = pixel_index(bounds, (column, row));
            let byte = intensity(outcome);
            proof {
                lemma_pixel_written(
                    *plane,
                    bounds,
                    upper_left,
                    lower_right,
                    pixels@,
                    byte,
                    column,
                    row,
                );
            }
            pixels[index] = byte;
            column = column + 1;
        }
        row = row + 1;
    }
}

/// On a deterministic plane rendering can give a pixel one brightness only.
pub proof fn lemma_pixel_deterministic<
    Z,
    M: Fn((usize, usize), (usize, usize), Z, Z) -> Z,
    A: Fn(Z, Z) -> Z,
    E: Fn(Z) -> bool,
>(
    plane: Plane<Z, M, A, E>,
    bounds: (usize, usize),
    upper_left: Z,
    lower_right: Z,
    pixel: (usize, usize),
    first: u8,
    second: u8,
)
    requires
        plane.deterministic(),
        spec_pixel(plane, bounds, upper_left, lower_right, pixel, first),
        spec_pixel(plane, bounds, upper_left, lower_right, pixel, second),
    ensures
        first == second,
{
    let (c1, o1) = choose|c: Z, outcome: Option<u32>|
        plane.maps(bounds, pixel, upper_left, lower_right, c) && #[trigger] spec_escape_time(
            plane,
            c,
            ITERATION_LIMIT,
            outcome,
        ) && first == spec_intensity(outcome);
    let (c2, o2) = choose|c: Z, outcome: Option<u32>|
        plane.maps(bounds, pixel, upper_left, lower_right, c) && #[trigger] spec_escape_time(
            plane,
            c,
            ITERATION_LIMIT,
            outcome,
        ) && second == spec_intensity(outcome);
    assert(c1 == c2);
    lemma_escape_time_deterministic(plane, c1, ITERATION_LIMIT, o1, o2);
}

/// Rendering is repeatable: on a deterministic plane any two renderings of
/// the same viewport with the same bounds are equal byte for byte.
pub proof fn lemma_render_deterministic<
    Z,
    M: Fn((usize, usize), (usize, usize), Z, Z) -> Z,
    A: Fn(Z, Z) -> Z,
    E: Fn(Z) -> bool,
>(
    plane: Plane<Z, M, A, E>,
    bounds: (usize, usize),
    upper_left: Z,
    lower_right: Z,
    first: Seq<u8>,
    second: Seq<u8>,
)
    requires
        plane.deterministic(),
        spec_rendered(plane, bounds, upper_left, lower_right, first),
        spec_rendered(plane, bounds, upper_left, lower_right, second),
    ensures
        first == second,
{
    assert forall|i: int| 0 <= i < first.len() implies first[i] == second[i] by {
        let width = bounds.0 as int;
        lemma_pixel_of_index((width, bounds.1 as int), i);
        let column = (i % width) as usize;
        let row = (i / width) as usize;
        let at = spec_pixel_index(width, column as int, row as int);
        assert(spec_pixel(plane, bounds, upper_left, lower_right, (column, row), first[at]));
        assert(spec_pixel(plane, bounds, upper_left, lower_right, (column, row), second[at]));
        lemma_pixel_deterministic(
            plane,
            bounds,
            upper_left,
            lower_right,
            (column, row),
            first[i],
            second[i],
        );
    }
    assert(first =~= second);
}

} // verus!
