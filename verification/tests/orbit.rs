use mandelbrot::orbit::escape_time;
use mandelbrot::plane::Plane;
use num::Complex;

fn pixel_to_point(
    bounds: (usize, usize),
    pixel: (usize, usize),
    upper_left: Complex<f64>,
    lower_right: Complex<f64>,
) -> Complex<f64> {
    let (width, height) = (lower_right.re - upper_left.re, upper_left.im - lower_right.im);
    Complex {
        re: upper_left.re + pixel.0 as f64 * width / bounds.0 as f64,
        im: upper_left.im - pixel.1 as f64 * height / bounds.1 as f64,
    }
}

fn complex_plane() -> Plane<
    Complex<f64>,
    impl Fn((usize, usize), (usize, usize), Complex<f64>, Complex<f64>) -> Complex<f64>,
    impl Fn(Complex<f64>, Complex<f64>) -> Complex<f64>,
    impl Fn(Complex<f64>) -> bool,
> {
    Plane {
        origin: Complex { re: 0.0, im: 0.0 },
        map: pixel_to_point,
        advance: |z: Complex<f64>, c: Complex<f64>| z * z + c,
        escaped: |z: Complex<f64>| z.norm_sqr() > 4.0,
    }
}

fn counting_plane(
    threshold: i64,
) -> Plane<
    i64,
    impl Fn((usize, usize), (usize, usize), i64, i64) -> i64,
    impl Fn(i64, i64) -> i64,
    impl Fn(i64) -> bool,
> {
    Plane {
        origin: 0,
        map: |_: (usize, usize), _: (usize, usize), upper_left: i64, _: i64| upper_left,
        advance: |z: i64, c: i64| z + c,
        escaped: move |z: i64| z > threshold,
    }
}

#[test]
fn zero_never_escapes() {
    let plane = complex_plane();
    let zero = Complex { re: 0.0, im: 0.0 };
    for limit in [0, 1, 2, 5, 255, 1000, 100_000] {
        assert_eq!(escape_time(zero, limit, &plane), None);
    }
}

#[test]
fn points_outside_the_disc_of_radius_two_escape_at_once() {
    let plane = complex_plane();
    let far = [
        Complex { re: 3.0, im: 0.0 },
        Complex { re: 2.0000001, im: 0.0 },
        Complex { re: 0.0, im: -2.5 },
        Complex { re: -1.5, im: 1.5 },
        Complex { re: -2.0, im: 0.001 },
        Complex { re: 1.0e10, im: -1.0e10 },
    ];
    for c in far {
        assert!(c.norm_sqr() > 4.0);
        for limit in [1, 2, 255, 1000] {
            assert_eq!(escape_time(c, limit, &plane), Some(0));
        }
    }
}

#[test]
fn no_iterations_means_no_escape() {
    let plane = complex_plane();
    assert_eq!(escape_time(Complex { re: 3.0, im: 0.0 }, 0, &plane), None);
    assert_eq!(escape_time(5, 0, &counting_plane(0)), None);
}

#[test]
fn escape_is_reported_at_the_iteration_that_detects_it() {
    let plane = complex_plane();
    // 1 -> 1, 2, 5: the third value is the first outside the disc.
    assert_eq!(escape_time(Complex { re: 1.0, im: 0.0 }, 255, &plane), Some(2));
    // 0.5 -> 0.5, 0.75, 1.0625, 1.62890625, 3.1533...
    assert_eq!(escape_time(Complex { re: 0.5, im: 0.0 }, 255, &plane), Some(4));
    assert_eq!(escape_time(Complex { re: -0.75, im: 0.1 }, 255, &plane), Some(32));
    assert_eq!(escape_time(Complex { re: 0.26, im: 0.0 }, 255, &plane), Some(29));
    assert_eq!(escape_time(Complex { re: -0.1, im: 0.65 }, 255, &plane), Some(74));
    assert_eq!(escape_time(Complex { re: 0.28, im: 0.01 }, 255, &plane), Some(39));
}

#[test]
fn escape_beyond_the_limit_is_not_seen() {
    let plane = complex_plane();
    let c = Complex { re: 0.5, im: 0.0 };
    assert_eq!(escape_time(c, 4, &plane), None);
    assert_eq!(escape_time(c, 5, &plane), Some(4));
    let slow = Complex { re: -0.75, im: 0.1 };
    assert_eq!(escape_time(slow, 32, &plane), None);
    assert_eq!(escape_time(slow, 33, &plane), Some(32));
}

#[test]
fn norm_of_exactly_two_has_not_escaped() {
    let plane = complex_plane();
    // 2 -> 2, 6: the first value has squared norm 4, which is not above 4.
    assert_eq!(escape_time(Complex { re: 2.0, im: 0.0 }, 255, &plane), Some(1));
    // -2 -> -2, 2, 2, ..: the orbit stays on the circle of radius two.
    assert_eq!(escape_time(Complex { re: -2.0, im: 0.0 }, 1000, &plane), None);
}

#[test]
fn points_of_the_set_stay_bounded() {
    let plane = complex_plane();
    for c in [
        Complex { re: 0.0, im: 1.0 },
        Complex { re: 0.25, im: 0.0 },
        Complex { re: 0.3, im: 0.5 },
        Complex { re: -1.0, im: 0.0 },
    ] {
        assert_eq!(escape_time(c, 1000, &plane), None);
    }
}

#[test]
fn viewport_corners_escape_at_the_second_iteration() {
    let plane = complex_plane();
    assert_eq!(escape_time(Complex { re: -1.6, im: 1.2 }, 255, &plane), Some(1));
    assert_eq!(escape_time(Complex { re: 1.6, im: -1.2 }, 255, &plane), Some(1));
    assert_eq!(escape_time(Complex { re: -1.6, im: 1.2 }, 1, &plane), None);
}

#[test]
fn escape_time_is_repeatable() {
    let plane = complex_plane();
    for (re, im) in [(0.0, 0.0), (0.26, 0.0), (-0.75, 0.1), (3.0, 3.0), (-0.1, 0.65)] {
        let c = Complex { re, im };
        assert_eq!(escape_time(c, 255, &plane), escape_time(c, 255, &plane));
    }
}

#[test]
fn escape_time_counts_steps_on_any_plane() {
    // The orbit of c is c, 2c, 3c, ..; it escapes once it exceeds 20.
    let plane = counting_plane(20);
    assert_eq!(escape_time(21, 255, &plane), Some(0));
    assert_eq!(escape_time(20, 255, &plane), Some(1));
    assert_eq!(escape_time(7, 255, &plane), Some(2));
    assert_eq!(escape_time(1, 255, &plane), Some(20));
    assert_eq!(escape_time(1, 20, &plane), None);
    assert_eq!(escape_time(1, 21, &plane), Some(20));
    assert_eq!(escape_time(0, 255, &plane), None);
    assert_eq!(escape_time(-3, 255, &plane), None);
}

#[test]
fn orbit_starts_at_the_origin_of_the_plane() {
    let mut plane = counting_plane(20);
    plane.origin = 15;
    // 15 + 3 = 18, 21: the second value escapes.
    assert_eq!(escape_time(3, 255, &plane), Some(1));
    plane.origin = 100;
    assert_eq!(escape_time(0, 255, &plane), Some(0));
}
