//! The arithmetic of the plane, as far as rendering needs it.
//!
//! Rendering never looks inside a point of the plane. It needs four things
//! only, which a [`Plane`] holds: the point at which every orbit starts, the
//! map from pixels to points, the step that carries an orbit on, and the test
//! that tells when an orbit has escaped. For the Mandelbrot set over complex
//! numbers these are zero; the affine map that sends the corners of the pixel
//! grid to the corners of the viewport; `z * z + c`; and `|z|^2 > 4`.

use vstd::prelude::*;

verus! {

/// The functions that describe a plane of points of type `Z`.
pub struct Plane<Z, M, A, E> {
    /// The point at which every orbit starts.
    pub origin: Z,
    /// The coordinate mapper: `map(bounds, pixel, upper_left, lower_right)` is
    /// the point shown by `pixel` (column, row) when an image with the given
    /// bounds (width, height) shows the viewport between the two corners.
    pub map: M,
    /// The step of the orbit: `advance(z, c)` follows `z` in the orbit of `c`.
    pub advance: A,
    /// The escape test: `escaped(z)` tells whether an orbit that has reached
    /// `z` has escaped.
    pub escaped: E,
}

impl<
    Z,
    M: Fn((usize, usize), (usize, usize), Z, Z) -> Z,
    A: Fn(Z, Z) -> Z,
    E: Fn(Z) -> bool,
> Plane<Z, M, A, E> {
    /// `point` is a point that the mapper can give for the pixel.
    pub open spec fn maps(
        &self,
        bounds: (usize, usize),
        pixel: (usize, usize),
        upper_left: Z,
        lower_right: Z,
        point: Z,
    ) -> bool {
        call_ensures(self.map, (bounds, pixel, upper_left, lower_right), point)
    }

    /// `next` is a value that can follow `z` in the orbit of `c`.
    pub open spec fn steps(&self, z: Z, c: Z, next: Z) -> bool {
        call_ensures(self.advance, (z, c), next)
    }

    /// `verdict` is an answer that the escape test can give for `z`.
    pub open spec fn judges(&self, z: Z, verdict: bool) -> bool {
        call_ensures(self.escaped, (z,), verdict)
    }

    /// The three functions are total: they accept every argument.
    pub open spec fn total(&self) -> bool {
        &&& forall|bounds: (usize, usize), pixel: (usize, usize), upper_left: Z, lower_right: Z|
            call_requires(self.map, (bounds, pixel, upper_left, lower_right))
        &&& forall|z: Z, c: Z| call_requires(self.advance, (z, c))
        &&& forall|z: Z| call_requires(self.escaped, (z,))
    }

    /// The three functions are deterministic: what each returns is determined
    /// by its arguments.
    pub open spec fn deterministic(&self) -> bool {
        &&& forall|
            bounds: (usize, usize),
            pixel: (usize, usize),
            upper_left: Z,
            lower_right: Z,
            a: Z,
            b: Z,
        |
            #![trigger self.maps(bounds, pixel, upper_left, lower_right, a), self.maps(bounds, pixel, upper_left, lower_right, b)]
            self.maps(bounds, pixel, upper_left, lower_right, a) && self.maps(
                bounds,
                pixel,
                upper_left,
                lower_right,
                b,
            ) ==> a == b
        &&& forall|z: Z, c: Z, a: Z, b: Z|
            #![trigger self.steps(z, c, a), self.steps(z, c, b)]
            self.steps(z, c, a) && self.steps(z, c, b) ==> a == b
        &&& forall|z: Z| !(#[trigger] self.judges(z, true) && self.judges(z, false))
    }
}

} // verus!
