//! Shading: from the fate of an orbit to the brightness of its pixel.

use vstd::prelude::*;

verus! {

/// Number of iterations granted to the orbit of every rendered pixel.
pub const ITERATION_LIMIT: u32 = 255;

/// Brightness of a pixel whose orbit either stayed bounded (`None`) or left
/// the escape disc at iteration `count` (`Some(count)`, counted from zero).
///
/// A bounded orbit is black. An orbit that escapes at once is white, and each
/// further iteration before the escape darkens the pixel by one step. Counts
/// beyond a byte wrap around, so the function is total.
pub open spec fn spec_intensity(escape: Option<u32>) -> u8 {
    match escape {
        None => 0u8,
        Some(count) => (255 - count % 256) as u8,
    }
}

/// Computes the brightness of a pixel from the fate of its orbit.
pub fn intensity(escape: Option<u32>) -> (byte: u8)
    ensures
        byte == spec_intensity(escape),
        escape is None ==> byte == 0,
        escape matches Some(count) ==> count < 256 ==> byte == 255 - count,
{
    match escape {
        None => 0,
        Some(count) => {
            let low: u32 = count % 256;
            255 - (low as u8)
        },
    }
}

/// Under the iteration limit of the renderer a pixel is black exactly when
/// its orbit stayed bounded: every escaping orbit leaves a nonzero byte.
pub proof fn lemma_black_iff_bounded(escape: Option<u32>)
    requires
        escape matches Some(count) ==> count < ITERATION_LIMIT,
    ensures
        spec_intensity(escape) == 0 <==> escape is None,
{
}

/// Under the iteration limit of the renderer distinct fates give distinct
/// bytes, so the fate of an orbit can be read back from its pixel.
pub proof fn lemma_intensity_injective(a: Option<u32>, b: Option<u32>)
    requires
        a matches Some(count) ==> count < ITERATION_LIMIT,
        b matches Some(count) ==> count < ITERATION_LIMIT,
        spec_intensity(a) == spec_intensity(b),
    ensures
        a == b,
{
}

} // verus!
