//! The viewport, and zooming.
//!
//! A viewport is the rectangle of the plane that an image shows, given by
//! the points at its upper left and lower right corners. Zooming moves both
//! corners with respect to the point shown by one pixel, the focus: towards
//! it to zoom in, away from it to zoom out. How far a corner moves is for the
//! caller to say, as a function of the corner and the focus; for complex
//! numbers, zooming in takes a corner `a` to `a + (focus - a) / 2`, and
//! zooming out takes it to `a - (focus - a) / 2`.

use vstd::prelude::*;
use crate::plane::Plane;

verus! {

/// The rectangle of the plane that an image shows.
#[derive(Clone, Copy, Debug, PartialEq)]
pub struct Viewport<Z> {
    /// The point shown by the upper left corner of the image.
    pub upper_left: Z,
    /// The point shown by the lower right corner of the image.
    pub lower_right: Z,
}

/// The direction of a zoom.
#[derive(Clone, Copy, Debug, PartialEq, Eq, Structural)]
pub enum Zoom {
    /// Towards the focus: the viewport shrinks.
    In,
    /// Away from the focus: the viewport grows.
    Out,
}

/// `after` is a viewport that moving the corners of `before` by `shift` can
/// give, for a zoom at `pixel` (column, row) of an image with the given
/// bounds: both corners have been moved with respect to one focus, which is
/// a point that the mapper can give for the pixel in the viewport `before`.
pub open spec fn spec_shifted<
    Z,
    M: Fn((usize, usize), (usize, usize), Z, Z) -> Z,
    A: Fn(Z, Z) -> Z,
    E: Fn(Z) -> bool,
    S: Fn(Z, Z) -> Z,
>(
    plane: Plane<Z, M, A, E>,
    shift: S,
    bounds: (usize, usize),
    pixel: (usize, usize),
    before: Viewport<Z>,
    after: Viewport<Z>,
) -> bool {
    exists|focus: Z| #[trigger]
        plane.maps(bounds, pixel, before.upper_left, before.lower_right, focus) && call_ensures(
            shift,
            (before.upper_left, focus),
            after.upper_left,
        ) && call_ensures(shift, (before.lower_right, focus), after.lower_right)
}

/// `after` is a viewport that a zoom in the given direction can make of
/// `before`: its corners have been moved by `toward` to zoom in, by `away`
/// to zoom out.
pub open spec fn spec_zoomed<
    Z,
    M: Fn((usize, usize), (usize, usize), Z, Z) -> Z,
    A: Fn(Z, Z) -> Z,
    E: Fn(Z) -> bool,
    I: Fn(Z, Z) -> Z,
    O: Fn(Z, Z) -> Z,
>(
    plane: Plane<Z, M, A, E>,
    toward: I,
    away: O,
    direction: Zoom,
    bounds: (usize, usize),
    pixel: (usize, usize),
    before: Viewport<Z>,
    after: Viewport<Z>,
) -> bool {
    match direction {
        Zoom::In => spec_shifted(plane, toward, bounds, pixel, before, after),
        Zoom::Out => spec_shifted(plane, away, bounds, pixel, before, after),
    }
}

impl<Z: Copy> Viewport<Z> {
    /// The point shown by `pixel` (column, row) of an image with the given
    /// bounds (width, height).
    pub fn focus<
        M: Fn((usize, usize), (usize, usize), Z, Z) -> Z,
        A: Fn(Z, Z) -> Z,
        E: Fn(Z) -> bool,
    >(&self, bounds: (usize, usize), pixel: (usize, usize), plane: &Plane<Z, M, A, E>) -> (focus:
        Z)
        requires
            plane.total(),
        ensures
            plane.maps(bounds, pixel, self.upper_left, self.lower_right, focus),
    {
        (plane.map)(bounds, pixel, self.upper_left, self.lower_right)
    }

    /// Zooms at `pixel` (column, row) of an image with the given bounds.
    ///
    /// The focus is the point that the pixel shows before the zoom. Each
    /// corner is then replaced by `toward(corner, focus)` to zoom in, and by
    /// `away(corner, focus)` to zoom out.
    pub fn zoom<
        M: Fn((usize, usize), (usize, usize), Z, Z) -> Z,
        A: Fn(Z, Z) -> Z,
        E: Fn(Z) -> bool,
        I: Fn(Z, Z) -> Z,
        O: Fn(Z, Z) -> Z,
    >(
        &mut self,
        direction: Zoom,
        bounds: (usize, usize),
        pixel: (usize, usize),
        plane: &Plane<Z, M, A, E>,
        toward: &I,
        away: &O,
    )
        requires
            plane.total(),
            forall|corner: Z, focus: Z| call_requires(*toward, (corner, focus)),
            forall|corner: Z, focus: Z| call_requires(*away, (corner, focus)),
        ensures
            spec_zoomed(
                *plane,
                *toward,
                *away,
                direction,
                bounds,
                pixel,
                *old(self),
                *final(self),
            ),
    {
        let focus = self.focus(bounds, pixel, plane);
        let (upper_left, lower_right) = match direction {
            Zoom::In => (toward(self.upper_left, focus), toward(self.lower_right, focus)),
            Zoom::Out => (away(self.upper_left, focus), away(self.lower_right, focus)),
        };
        self.upper_left = upper_left;
        self.lower_right = lower_right;
    }
}

/// Zooming is repeatable: on a deterministic plane, and with deterministic
/// functions to move the corners, a zoom has one outcome only.
pub proof fn lemma_zoom_deterministic<
    Z,
    M: Fn((usize, usize), (usize, usize), Z, Z) -> Z,
    A: Fn(Z, Z) -> Z,
    E: Fn(Z) -> bool,
    I: Fn(Z, Z) -> Z,
    O: Fn(Z, Z) -> Z,
>(
    plane: Plane<Z, M, A, E>,
    toward: I,
    away: O,
    direction: Zoom,
    bounds: (usize, usize),
    pixel: (usize, usize),
    before: Viewport<Z>,
    first: Viewport<Z>,
    second: Viewport<Z>,
)
    requires
        plane.deterministic(),
        forall|corner: Z, focus: Z, a: Z, b: Z|
            call_ensures(toward, (corner, focus), a) && call_ensures(toward, (corner, focus), b)
                ==> a == b,
        forall|corner: Z, focus: Z, a: Z, b: Z|
            call_ensures(away, (corner, focus), a) && call_ensures(away, (corner, focus), b)
                ==> a == b,
        spec_zoomed(plane, toward, away, direction, bounds, pixel, before, first),
        spec_zoomed(plane, toward, away, direction, bounds, pixel, before, second),
    ensures
        first == second,
{
}

} // verus!
