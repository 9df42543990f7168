use mandelbrot::plane::Plane;
use mandelbrot::viewport::{Viewport, Zoom};
use num::Complex;

fn pixel_to_point(
    bounds: (usize, usize),
    pixel: (usize, usize),
    upper_left: Complex<f64>,
    lower_right: Complex<f64>,
) -> Complex<f64> {
    let (width, height) = (lower_right.re - upper_left.re, upper_left.im - lower_right.im);
    Complex {
        re: upper_left.re + pixel.0 as f64 * width / bounds.0 as f64,
        im: upper_left.im - pixel.1 as f64 * height / bounds.1 as f64,
    }
}

fn complex_plane() -> Plane<
    Complex<f64>,
    impl Fn((usize, usize), (usize, usize), Complex<f64>, Complex<f64>) -> Complex<f64>,
    impl Fn(Complex<f64>, Complex<f64>) -> Complex<f64>,
    impl Fn(Complex<f64>) -> bool,
> {
    Plane {
        origin: Complex { re: 0.0, im: 0.0 },
        map: pixel_to_point,
        advance: |z: Complex<f64>, c: Complex<f64>| z * z + c,
        escaped: |z: Complex<f64>| z.norm_sqr() > 4.0,
    }
}

fn toward(corner: Complex<f64>, focus: Complex<f64>) -> Complex<f64> {
    corner + (focus - corner) / 2.0
}

fn away(corner: Complex<f64>, focus: Complex<f64>) -> Complex<f64> {
    corner - (focus - corner) / 2.0
}

/// A line of integers: pixel `column` of `width` shows the point
/// `upper_left + column * (lower_right - upper_left) / width`.
fn integer_line() -> Plane<
    i64,
    impl Fn((usize, usize), (usize, usize), i64, i64) -> i64,
    impl Fn(i64, i64) -> i64,
    impl Fn(i64) -> bool,
> {
    Plane {
        origin: 0,
        map: |bounds: (usize, usize), pixel: (usize, usize), upper_left: i64, lower_right: i64| {
            upper_left + pixel.0 as i64 * (lower_right - upper_left) / bounds.0 as i64
        },
        advance: |z: i64, c: i64| z + c,
        escaped: |z: i64| z > 20,
    }
}

fn nearer(corner: i64, focus: i64) -> i64 {
    corner + (focus - corner) / 2
}

fn farther(corner: i64, focus: i64) -> i64 {
    corner - (focus - corner) / 2
}

const BOUNDS: (usize, usize) = (800, 600);

fn reference_viewport() -> Viewport<Complex<f64>> {
    Viewport {
        upper_left: Complex { re: -1.6, im: 1.2 },
        lower_right: Complex { re: 1.6, im: -1.2 },
    }
}

#[test]
fn focus_is_the_point_under_the_pixel() {
    let plane = complex_plane();
    let view = reference_viewport();
    assert_eq!(view.focus(BOUNDS, (400, 300), &plane), Complex { re: 0.0, im: 0.0 });
    assert_eq!(view.focus(BOUNDS, (0, 0), &plane), view.upper_left);
    assert_eq!(view.focus(BOUNDS, (200, 150), &plane), Complex { re: -0.8, im: 0.6 });
    assert_eq!(
        view.focus(BOUNDS, (123, 456), &plane),
        Complex { re: -1.108, im: -0.6239999999999999 }
    );
    let line = Viewport { upper_left: 0, lower_right: 100 };
    assert_eq!(line.focus((10, 1), (5, 0), &integer_line()), 50);
    assert_eq!(line.focus((10, 1), (2, 0), &integer_line()), 20);
}

#[test]
fn zoom_in_at_the_middle_halves_the_viewport() {
    let plane = complex_plane();
    let mut view = reference_viewport();
    view.zoom(Zoom::In, BOUNDS, (400, 300), &plane, &toward, &away);
    assert_eq!(view.upper_left, Complex { re: -0.8, im: 0.6 });
    assert_eq!(view.lower_right, Complex { re: 0.8, im: -0.6 });
}

#[test]
fn zoom_out_at_the_middle_widens_the_viewport_by_half() {
    let plane = complex_plane();
    let mut view = reference_viewport();
    view.zoom(Zoom::Out, BOUNDS, (400, 300), &plane, &toward, &away);
    assert_eq!(view.upper_left, Complex { re: -2.4000000000000004, im: 1.7999999999999998 });
    assert_eq!(view.lower_right, Complex { re: 2.4000000000000004, im: -1.7999999999999998 });
}

#[test]
fn zoom_moves_both_corners_with_respect_to_the_pixel() {
    let plane = complex_plane();
    let mut view = reference_viewport();
    view.zoom(Zoom::In, BOUNDS, (123, 456), &plane, &toward, &away);
    assert_eq!(view.upper_left, Complex { re: -1.354, im: 0.28800000000000003 });
    assert_eq!(view.lower_right, Complex { re: 0.246, im: -0.9119999999999999 });
    let mut view = reference_viewport();
    view.zoom(Zoom::Out, BOUNDS, (123, 456), &plane, &toward, &away);
    assert_eq!(view.upper_left, Complex { re: -1.846, im: 2.112 });
    assert_eq!(view.lower_right, Complex { re: 2.954, im: -1.488 });
}

#[test]
fn zoom_at_the_upper_left_pixel_keeps_that_corner() {
    let plane = complex_plane();
    let mut view = reference_viewport();
    view.zoom(Zoom::In, BOUNDS, (0, 0), &plane, &toward, &away);
    assert_eq!(view.upper_left, Complex { re: -1.6, im: 1.2 });
    assert_eq!(view.lower_right, Complex { re: 0.0, im: 0.0 });
    let mut view = reference_viewport();
    view.zoom(Zoom::Out, BOUNDS, (0, 0), &plane, &toward, &away);
    assert_eq!(view.upper_left, Complex { re: -1.6, im: 1.2 });
    assert_eq!(view.lower_right, Complex { re: 3.2, im: -2.4 });
}

#[test]
fn zoom_in_keeps_the_focus_under_its_pixel() {
    let plane = complex_plane();
    for pixel in [(400, 300), (0, 0), (799, 599), (123, 456)] {
        let mut view = reference_viewport();
        let focus = view.focus(BOUNDS, pixel, &plane);
        view.zoom(Zoom::In, BOUNDS, pixel, &plane, &toward, &away);
        assert_eq!(view.focus(BOUNDS, pixel, &plane), focus);
    }
}

#[test]
fn zoom_out_after_zoom_in_leaves_three_quarters_of_the_viewport() {
    let plane = complex_plane();
    let mut view = reference_viewport();
    view.zoom(Zoom::In, BOUNDS, (400, 300), &plane, &toward, &away);
    view.zoom(Zoom::Out, BOUNDS, (400, 300), &plane, &toward, &away);
    assert_eq!(view.upper_left, Complex { re: -1.2000000000000002, im: 0.8999999999999999 });
    assert_eq!(view.lower_right, Complex { re: 1.2000000000000002, im: -0.8999999999999999 });
    assert_ne!(view, reference_viewport());
}

#[test]
fn focus_is_taken_before_either_corner_moves() {
    let line = integer_line();
    let mut view = Viewport { upper_left: 0, lower_right: 100 };
    view.zoom(Zoom::In, (10, 1), (5, 0), &line, &nearer, &farther);
    assert_eq!(view, Viewport { upper_left: 25, lower_right: 75 });
    let mut view = Viewport { upper_left: 0, lower_right: 100 };
    view.zoom(Zoom::In, (10, 1), (2, 0), &line, &nearer, &farther);
    assert_eq!(view, Viewport { upper_left: 10, lower_right: 60 });
}

#[test]
fn direction_chooses_how_the_corners_move() {
    let line = integer_line();
    let mut view = Viewport { upper_left: 0, lower_right: 100 };
    view.zoom(Zoom::Out, (10, 1), (5, 0), &line, &nearer, &farther);
    assert_eq!(view, Viewport { upper_left: -25, lower_right: 125 });
    let mut view = Viewport { upper_left: 0, lower_right: 100 };
    view.zoom(Zoom::Out, (10, 1), (2, 0), &line, &nearer, &farther);
    assert_eq!(view, Viewport { upper_left: -10, lower_right: 140 });
    let mut swapped = Viewport { upper_left: 0, lower_right: 100 };
    swapped.zoom(Zoom::In, (10, 1), (5, 0), &line, &farther, &nearer);
    assert_eq!(swapped, Viewport { upper_left: -25, lower_right: 125 });
}

#[test]
fn zooming_is_repeatable() {
    let plane = complex_plane();
    for direction in [Zoom::In, Zoom::Out] {
        let mut first = reference_viewport();
        let mut second = reference_viewport();
        first.zoom(direction, BOUNDS, (321, 123), &plane, &toward, &away);
        second.zoom(direction, BOUNDS, (321, 123), &plane, &toward, &away);
        assert_eq!(first, second);
    }
}
