//! Scheduling: the rendering of an image as a list of independent jobs, one
//! for each band.
//!
//! [`schedule`] cuts the pixel buffer into the bands of the image and works
//! out, for each band, the part of the viewport that it shows. What it
//! returns can be handed to as many threads as there are jobs: no two jobs
//! share a pixel, and none needs anything from another. [`render_bands`] runs
//! the jobs one after the other on the calling thread.

use vstd::prelude::*;
use crate::bands::{
    lemma_band_inside, lemma_bands_tile_rows, lemma_row_in_one_band, partition, spec_band_count,
    spec_band_height, spec_band_of_row, spec_band_top,
};
use crate::plane::Plane;
use crate::raster::{
    lemma_render_deterministic, render, spec_pixel, spec_pixel_index, spec_rendered,
};

verus! {

/// Number of workers among which an image is divided unless the caller has
/// reason to choose another. It is meant to exceed the number of cores of the
/// machine.
pub const WORKERS: usize = 100;

/// The rendering of one band: the part of the pixel buffer that holds the
/// band, its bounds, and the corners of the part of the viewport that it
/// shows.
pub struct Job<'a, Z> {
    /// The pixels of the band.
    pub pixels: &'a mut [u8],
    /// Bounds (width, height) of the band.
    pub bounds: (usize, usize),
    /// The point shown by the upper left corner of the band.
    pub upper_left: Z,
    /// The point shown by the lower right corner of the band.
    pub lower_right: Z,
}

impl<'a, Z: Copy> Job<'a, Z> {
    /// The job has one byte for each pixel of its band.
    pub open spec fn wf(&self) -> bool {
        self.pixels@.len() == self.bounds.0 * self.bounds.1
    }

    /// Renders the band.
    pub fn run<
        M: Fn((usize, usize), (usize, usize), Z, Z) -> Z,
        A: Fn(Z, Z) -> Z,
        E: Fn(Z) -> bool,
    >(self, plane: &Plane<Z, M, A, E>)
        requires
            self.wf(),
            plane.total(),
        ensures
            spec_rendered(
                *plane,
                self.bounds,
                self.upper_left,
                self.lower_right,
                final(self.pixels)@,
            ),
    {
        render(self.pixels, self.bounds, self.upper_left, self.lower_right, plane)
    }
}

/// `job` is job number `index` of the schedule: it holds the pixels of band
/// number `index`, the bounds of that band, and the points that the mapper
/// can give for the band's corner pixels in the whole image.
pub open spec fn spec_is_job<
    Z,
    M: Fn((usize, usize), (usize, usize), Z, Z) -> Z,
    A: Fn(Z, Z) -> Z,
    E: Fn(Z) -> bool,
>(
    plane: Plane<Z, M, A, E>,
    source: Seq<u8>,
    bounds: (usize, usize),
    upper_left: Z,
    lower_right: Z,
    workers: usize,
    index: int,
    job: Job<Z>,
) -> bool {
    let top = spec_band_top(bounds.1 as int, workers as int, index);
    let height = spec_band_height(bounds.1 as int, workers as int, index);
    &&& job.bounds == (bounds.0, height as usize)
    &&& job.pixels@ == source.subrange(top * bounds.0, (top + height) * bounds.0)
    &&& plane.maps(bounds, (0usize, top as usize), upper_left, lower_right, job.upper_left)
    &&& plane.maps(
        bounds,
        (bounds.0, (top + height) as usize),
        upper_left,
        lower_right,
        job.lower_right,
    )
}

/// Divides the rendering of an image among `workers` workers.
///
/// The image is cut into bands, and the pixel buffer with it. Each job gets
/// the pixels of one band, and for its viewport the points that the mapper
/// gives for the band's corners in the whole image. The jobs share nothing:
/// they may be run in any order, or at the same time. Once all of them have
/// run, the buffer holds their bands one after the other.
pub fn schedule<
    'a,
    Z: Copy,
    M: Fn((usize, usize), (usize, usize), Z, Z) -> Z,
    A: Fn(Z, Z) -> Z,
    E: Fn(Z) -> bool,
>(
    pixels: &'a mut [u8],
    bounds: (usize, usize),
    upper_left: Z,
    lower_right: Z,
    workers: usize,
    plane: &Plane<Z, M, A, E>,
) -> (jobs: Vec<Job<'a, Z>>)
    requires
        old(pixels)@.len() == bounds.0 * bounds.1,
        workers > 0,
        bounds.1 / workers + 1 <= usize::MAX,
        plane.total(),
    ensures
        jobs@.len() == spec_band_count(bounds.1 as int, workers as int),
        jobs@.len() <= workers,
        forall|i: int|
            0 <= i < jobs@.len() ==> spec_is_job(
                *plane,
                old(pixels)@,
                bounds,
                upper_left,
                lower_right,
                workers,
                i,
                #[trigger] jobs@[i],
            ) && jobs@[i].wf(),
        final(pixels)@ == Seq::new(jobs@.len(), |i: int| final(jobs@[i].pixels)@).flatten(),
{
    let total = pixels.len();
    let plan = partition(bounds, workers);
    let ghost target = final(pixels)@;
    let ghost source = pixels@;
    let ghost height = bounds.1 as int;
    let ghost count = workers as int;
    proof {
        lemma_bands_tile_rows(height, count);
    }
    let mut jobs: Vec<Job<'a, Z>> = Vec::new();
    let mut rest: &'a mut [u8] = pixels;
    let mut i: usize = 0;
    proof {
        assert(Seq::new(0, |j: int| final(jobs@[j].pixels)@).flatten() =~= Seq::<u8>::empty());
        if plan@.len() > 0 {
            assert(plan@[0].is_band(bounds, workers, 0));
            assert(0 * bounds.0 == 0) by (nonlinear_arith);
            assert(rest@ =~= source.subrange(0, source.len() as int));
        } else {
            assert(bounds.0 * 0 == 0) by (nonlinear_arith);
        }
    }
    while i < plan.len()
        invariant
            plane.total(),
            height == bounds.1,
            count == workers,
            source.len() == bounds.0 * bounds.1,
            source.len() == total,
            plan@.len() == spec_band_count(height, count),
            forall|k: int|
                0 <= k < plan@.len() ==> (#[trigger] plan@[k]).is_band(bounds, workers, k)
                    && plan@[k].fits(),
            forall|k: int|
                0 <= k < plan@.len() - 1 ==> #[trigger] spec_band_top(height, count, k)
                    + spec_band_height(height, count, k) == spec_band_top(height, count, k + 1),
            plan@.len() > 0 ==> spec_band_top(height, count, 0) == 0 && spec_band_top(
                height,
                count,
                plan@.len() - 1,
            ) + spec_band_height(height, count, plan@.len() - 1) == height,
            plan@.len() == 0 ==> height == 0,
            i <= plan@.len(),
            jobs@.len() == i,
            i < plan@.len() ==> (0 <= plan@[i as int].top * bounds.0 <= source.len()),
            i < plan@.len() ==> rest@ == source.subrange(
                plan@[i as int].top * bounds.0,
                source.len() as int,
            ),
            i == plan@.len() ==> rest@.len() == 0,
            forall|k: int|
                0 <= k < i ==> spec_is_job(
                    *plane,
                    source,
                    bounds,
                    upper_left,
                    lower_right,
                    workers,
                    k,
                    #[trigger] jobs@[k],
                ) && jobs@[k].wf(),
            target == Seq::new(jobs@.len(), |j: int| final(jobs@[j].pixels)@).flatten()
                + final(rest)@,
        decreases plan@.len() - i,
    {
        let band = plan[i];
        let ghost top = band.top as int;
        let ghost bottom = band.top + band.height;
        let ghost width = bounds.0 as int;
        proof {
            assert(plan@[i as int].is_band(bounds, workers, i as int));
            assert(bottom * width <= width * height) by (nonlinear_arith)
                requires
                    bottom <= height,
                    width >= 0,
            ;
            assert(band.top * band.width + band.height * band.width == bottom * width)
                by (nonlinear_arith)
                requires
                    band.width == width,
                    bottom == band.top + band.height,
            ;
            assert(0 <= top * width) by (nonlinear_arith)
                requires
                    top >= 0,
                    width >= 0,
            ;
            assert(width * height == height * width) by (nonlinear_arith);
            if i + 1 == plan@.len() {
                assert(bottom == height);
            }
            if i + 1 < plan@.len() {
                assert(plan@[i + 1].is_band(bounds, workers, i + 1));
                assert(spec_band_top(height, count, i as int) + spec_band_height(
                    height,
                    count,
                    i as int,
                ) == spec_band_top(height, count, i + 1));
            }
        }
        let length = band.len();
        let whole = rest;
        let (head, tail) = whole.split_at_mut(length);
        let ghost head_final = final(head)@;
        let job_upper_left = (plane.map)(
            bounds,
            band.upper_left_pixel(),
            upper_left,
            lower_right,
        );
        let job_lower_right = (plane.map)(
            bounds,
            band.lower_right_pixel(),
            upper_left,
            lower_right,
        );
        let job = Job {
            pixels: head,
            bounds: band.bounds(),
            upper_left: job_upper_left,
            lower_right: job_lower_right,
        };
        let ghost before = Seq::new(jobs@.len(), |j: int| final(jobs@[j].pixels)@);
        proof {
            assert(job.pixels@ =~= source.subrange(top * width, bottom * width));
            assert(job.wf()) by (nonlinear_arith)
                requires
                    job.pixels@.len() == bottom * width - top * width,
                    job.bounds == (band.width, band.height),
                    band.width == width,
                    bottom == top + band.height,
            ;
            assert(spec_is_job(
                *plane,
                source,
                bounds,
                upper_left,
                lower_right,
                workers,
                i as int,
                job,
            ));
            assert(tail@ =~= source.subrange(bottom * width, source.len() as int));
        }
        jobs.push(job);
        rest = tail;
        proof {
            let after = Seq::new(jobs@.len(), |j: int| final(jobs@[j].pixels)@);
            assert(after =~= before.push(head_final));
            before.lemma_flatten_push(head_final);
            assert(target =~= after.flatten() + final(rest)@);
        }
        i = i + 1;
    }
    jobs
}

/// `part` is a rendering of band number `index` of the image: a rendering,
/// with the bounds of the band, of the viewport between the points that the
/// mapper can give for the band's corner pixels in the whole image.
pub open spec fn spec_band_rendered<
    Z,
    M: Fn((usize, usize), (usize, usize), Z, Z) -> Z,
    A: Fn(Z, Z) -> Z,
    E: Fn(Z) -> bool,
>(
    plane: Plane<Z, M, A, E>,
    bounds: (usize, usize),
    upper_left: Z,
    lower_right: Z,
    workers: usize,
    index: int,
    part: Seq<u8>,
) -> bool {
    let top = spec_band_top(bounds.1 as int, workers as int, index);
    let height = spec_band_height(bounds.1 as int, workers as int, index);
    exists|band_upper_left: Z, band_lower_right: Z|
        plane.maps(bounds, (0usize, top as usize), upper_left, lower_right, band_upper_left)
            && plane.maps(
            bounds,
            (bounds.0, (top + height) as usize),
            upper_left,
            lower_right,
            band_lower_right,
        ) && #[trigger] spec_rendered(
            plane,
            (bounds.0, height as usize),
            band_upper_left,
            band_lower_right,
            part,
        )
}

/// `parts` are renderings of the bands of the image, from the top down.
pub open spec fn spec_bands_rendered<
    Z,
    M: Fn((usize, usize), (usize, usize), Z, Z) -> Z,
    A: Fn(Z, Z) -> Z,
    E: Fn(Z) -> bool,
>(
    plane: Plane<Z, M, A, E>,
    bounds: (usize, usize),
    upper_left: Z,
    lower_right: Z,
    workers: usize,
    parts: Seq<Seq<u8>>,
) -> bool {
    &&& parts.len() == spec_band_count(bounds.1 as int, workers as int)
    &&& forall|i: int|
        0 <= i < parts.len() ==> spec_band_rendered(
            plane,
            bounds,
            upper_left,
            lower_right,
            workers,
            i,
            #[trigger] parts[i],
        )
}

/// `pixels` is a rendering in bands of the viewport between the two corners:
/// renderings of the bands of the image for `workers` workers, one after the
/// other.
pub open spec fn spec_rendered_in_bands<
    Z,
    M: Fn((usize, usize), (usize, usize), Z, Z) -> Z,
    A: Fn(Z, Z) -> Z,
    E: Fn(Z) -> bool,
>(
    plane: Plane<Z, M, A, E>,
    bounds: (usize, usize),
    upper_left: Z,
    lower_right: Z,
    workers: usize,
    pixels: Seq<u8>,
) -> bool {
    exists|parts: Seq<Seq<u8>>| #[trigger]
        spec_bands_rendered(plane, bounds, upper_left, lower_right, workers, parts) && pixels
            == parts.flatten()
}

/// Renders the viewport between `upper_left` and `lower_right` into `pixels`
/// as an image with the given bounds (width, height), band by band: the jobs
/// of the schedule for `workers` workers are run one after the other.
pub fn render_bands<
    Z: Copy,
    M: Fn((usize, usize), (usize, usize), Z, Z) -> Z,
    A: Fn(Z, Z) -> Z,
    E: Fn(Z) -> bool,
>(
    pixels: &mut [u8],
    bounds: (usize, usize),
    upper_left: Z,
    lower_right: Z,
    workers: usize,
    plane: &Plane<Z, M, A, E>,
)
    requires
        old(pixels)@.len() == bounds.0 * bounds.1,
        workers > 0,
        bounds.1 / workers + 1 <= usize::MAX,
        plane.total(),
    ensures
        spec_rendered_in_bands(*plane, bounds, upper_left, lower_right, workers, final(pixels)@),
{
    let ghost source = pixels@;
    let mut jobs = schedule(pixels, bounds, upper_left, lower_right, workers, plane);
    let ghost all = jobs@;
    let ghost parts = Seq::new(all.len(), |i: int| final(all[i].pixels)@);
    while jobs.len() > 0
        invariant
            plane.total(),
            jobs@.len() <= all.len(),
            all.len() == spec_band_count(bounds.1 as int, workers as int),
            parts == Seq::new(all.len(), |i: int| final(all[i].pixels)@),
            forall|i: int| 0 <= i < jobs@.len() ==> #[trigger] jobs@[i] == all[i],
            forall|i: int|
                0 <= i < all.len() ==> spec_is_job(
                    *plane,
                    source,
                    bounds,
                    upper_left,
                    lower_right,
                    workers,
                    i,
                    #[trigger] all[i],
                ) && all[i].wf(),
            forall|i: int|
                jobs@.len() <= i < all.len() ==> spec_band_rendered(
                    *plane,
                    bounds,
                    upper_left,
                    lower_right,
                    workers,
                    i,
                    #[trigger] parts[i],
                ),
        decreases jobs@.len(),
    {
        let ghost last = jobs@.len() - 1;
        let job = jobs.pop().unwrap();
        assert(job == all[last]);
        let ghost done = final(job.pixels)@;
        let ghost job_bounds = job.bounds;
        let ghost job_upper_left = job.upper_left;
        let ghost job_lower_right = job.lower_right;
        job.run(plane);
        proof {
            assert(parts[last] == done);
            assert(spec_rendered(*plane, job_bounds, job_upper_left, job_lower_right, done));
            assert(spec_is_job(
                *plane,
                source,
                bounds,
                upper_left,
                lower_right,
                workers,
                last,
                all[last],
            ));
        }
    }
    proof {
        assert(spec_bands_rendered(*plane, bounds, upper_left, lower_right, workers, parts));
    }
}

/// Rendering in bands is repeatable: on a deterministic plane any two
/// renderings in bands of the same viewport, with the same bounds and the
/// same number of workers, are equal byte for byte.
pub proof fn lemma_rendered_in_bands_deterministic<
    Z,
    M: Fn((usize, usize), (usize, usize), Z, Z) -> Z,
    A: Fn(Z, Z) -> Z,
    E: Fn(Z) -> bool,
>(
    plane: Plane<Z, M, A, E>,
    bounds: (usize, usize),
    upper_left: Z,
    lower_right: Z,
    workers: usize,
    first: Seq<u8>,
    second: Seq<u8>,
)
    requires
        plane.deterministic(),
        spec_rendered_in_bands(plane, bounds, upper_left, lower_right, workers, first),
        spec_rendered_in_bands(plane, bounds, upper_left, lower_right, workers, second),
    ensures
        first == second,
{
    let a = choose|parts: Seq<Seq<u8>>| #[trigger]
        spec_bands_rendered(plane, bounds, upper_left, lower_right, workers, parts) && first
            == parts.flatten();
    let b = choose|parts: Seq<Seq<u8>>| #[trigger]
        spec_bands_rendered(plane, bounds, upper_left, lower_right, workers, parts) && second
            == parts.flatten();
    assert forall|i: int| 0 <= i < a.len() implies a[i] == b[i] by {
        lemma_band_rendered_deterministic(
            plane,
            bounds,
            upper_left,
            lower_right,
            workers,
            i,
            a[i],
            b[i],
        );
    }
    assert(a =~= b);
}

/// On a deterministic plane a band has one rendering only.
pub proof fn lemma_band_rendered_deterministic<
    Z,
    M: Fn((usize, usize), (usize, usize), Z, Z) -> Z,
    A: Fn(Z, Z) -> Z,
    E: Fn(Z) -> bool,
>(
    plane: Plane<Z, M, A, E>,
    bounds: (usize, usize),
    upper_left: Z,
    lower_right: Z,
    workers: usize,
    index: int,
    first: Seq<u8>,
    second: Seq<u8>,
)
    requires
        plane.deterministic(),
        spec_band_rendered(plane, bounds, upper_left, lower_right, workers, index, first),
        spec_band_rendered(plane, bounds, upper_left, lower_right, workers, index, second),
    ensures
        first == second,
{
    let top = spec_band_top(bounds.1 as int, workers as int, index);
    let height = spec_band_height(bounds.1 as int, workers as int, index);
    let band_bounds = (bounds.0, height as usize);
    let above = (0usize, top as usize);
    let below = (bounds.0, (top + height) as usize);
    let (u1, l1) = choose|u: Z, l: Z|
        plane.maps(bounds, above, upper_left, lower_right, u) && plane.maps(
            bounds,
            below,
            upper_left,
            lower_right,
            l,
        ) && #[trigger] spec_rendered(plane, band_bounds, u, l, first);
    let (u2, l2) = choose|u: Z, l: Z|
        plane.maps(bounds, above, upper_left, lower_right, u) && plane.maps(
            bounds,
            below,
            upper_left,
            lower_right,
            l,
        ) && #[trigger] spec_rendered(plane, band_bounds, u, l, second);
    assert(u1 == u2);
    assert(l1 == l2);
    lemma_render_deterministic(plane, band_bounds, u1, l1, first, second);
}

/// Number of rows in the first `n` bands of the image.
spec fn spec_rows_in(height: int, workers: int, n: int) -> int {
    if n < spec_band_count(height, workers) {
        spec_band_top(height, workers, n)
    } else {
        height
    }
}

/// The first `n` bands hold the rows above band `n`, and band `n` ends where
/// the first `n + 1` bands end.
proof fn lemma_rows_in(height: int, workers: int, n: int)
    requires
        height >= 0,
        workers > 0,
        0 <= n < spec_band_count(height, workers),
    ensures
        0 <= spec_rows_in(height, workers, n) == spec_band_top(height, workers, n),
        spec_rows_in(height, workers, n + 1) == spec_band_top(height, workers, n)
            + spec_band_height(height, workers, n),
        spec_band_height(height, workers, n) > 0,
        spec_rows_in(height, workers, n + 1) <= height,
{
    lemma_bands_tile_rows(height, workers);
    lemma_band_inside(height, workers, n);
}

/// The first `n` bands of an image end no later than the first `m`, for
/// `n <= m`.
proof fn lemma_rows_in_monotonic(height: int, workers: int, n: int, m: int)
    requires
        height >= 0,
        workers > 0,
        0 <= n <= m <= spec_band_count(height, workers),
    ensures
        spec_rows_in(height, workers, n) <= spec_rows_in(height, workers, m),
    decreases m - n,
{
    if n < m {
        lemma_rows_in(height, workers, n);
        lemma_rows_in_monotonic(height, workers, n + 1, m);
    }
}

/// In the concatenation of the first `n` band renderings each band stands at
/// the offset of its first row, and the whole is as long as their rows
/// together.
proof fn lemma_parts_in_place<
    Z,
    M: Fn((usize, usize), (usize, usize), Z, Z) -> Z,
    A: Fn(Z, Z) -> Z,
    E: Fn(Z) -> bool,
>(
    plane: Plane<Z, M, A, E>,
    bounds: (usize, usize),
    upper_left: Z,
    lower_right: Z,
    workers: usize,
    parts: Seq<Seq<u8>>,
    n: int,
)
    requires
        workers > 0,
        spec_bands_rendered(plane, bounds, upper_left, lower_right, workers, parts),
        0 <= n <= parts.len(),
    ensures
        parts.take(n).flatten().len() == spec_rows_in(bounds.1 as int, workers as int, n)
            * bounds.0,
        forall|i: int|
            0 <= i < n ==> parts.take(n).flatten().subrange(
                spec_rows_in(bounds.1 as int, workers as int, i) * bounds.0,
                spec_rows_in(bounds.1 as int, workers as int, i + 1) * bounds.0,
            ) == #[trigger] parts[i],
    decreases n,
{
    let height = bounds.1 as int;
    let count = workers as int;
    let width = bounds.0 as int;
    if n == 0 {
        assert(parts.take(0) =~= Seq::<Seq<u8>>::empty());
        assert(parts.take(0).flatten() =~= Seq::<u8>::empty());
        lemma_bands_tile_rows(height, count);
        assert(0 * width == 0) by (nonlinear_arith);
        if spec_band_count(height, count) == 0 {
            assert(height == 0);
        }
    } else {
        let last = n - 1;
        lemma_parts_in_place(plane, bounds, upper_left, lower_right, workers, parts, last);
        let shorter = parts.take(last);
        let longer = parts.take(n);
        assert(longer =~= shorter.push(parts[last]));
        shorter.lemma_flatten_push(parts[last]);
        assert(longer.flatten() =~= shorter.flatten() + parts[last]);
        lemma_rows_in(height, count, last);
        let start = spec_rows_in(height, count, last);
        let rows = spec_band_height(height, count, last);
        let end = spec_rows_in(height, count, n);
        assert(spec_band_rendered(
            plane,
            bounds,
            upper_left,
            lower_right,
            workers,
            last,
            parts[last],
        ));
        assert(parts[last].len() == width * rows);
        assert(end * width == start * width + width * rows) by (nonlinear_arith)
            requires
                end == start + rows,
        ;
        assert(0 <= start * width) by (nonlinear_arith)
            requires
                0 <= start,
                0 <= width,
        ;
        assert forall|i: int| 0 <= i < n implies longer.flatten().subrange(
            spec_rows_in(height, count, i) * width,
            spec_rows_in(height, count, i + 1) * width,
        ) == #[trigger] parts[i] by {
            let from = spec_rows_in(height, count, i);
            let to = spec_rows_in(height, count, i + 1);
            if i < last {
                lemma_rows_in(height, count, i);
                lemma_rows_in_monotonic(height, count, i + 1, last);
                assert(0 <= from * width <= to * width <= start * width) by (nonlinear_arith)
                    requires
                        0 <= from <= to <= start,
                        0 <= width,
                ;
                assert(longer.flatten().subrange(from * width, to * width)
                    =~= shorter.flatten().subrange(from * width, to * width));
            } else {
                assert(longer.flatten().subrange(from * width, to * width) =~= parts[last]);
            }
        }
    }
}

/// `byte` is a brightness that rendering in bands can give to `pixel`
/// (column, row) of the image: a brightness that rendering can give to the
/// same pixel of the band that holds its row.
pub open spec fn spec_banded_pixel<
    Z,
    M: Fn((usize, usize), (usize, usize), Z, Z) -> Z,
    A: Fn(Z, Z) -> Z,
    E: Fn(Z) -> bool,
>(
    plane: Plane<Z, M, A, E>,
    bounds: (usize, usize),
    upper_left: Z,
    lower_right: Z,
    workers: usize,
    pixel: (usize, usize),
    byte: u8,
) -> bool {
    let index = spec_band_of_row(bounds.1 as int, workers as int, pixel.1 as int);
    let top = spec_band_top(bounds.1 as int, workers as int, index);
    let height = spec_band_height(bounds.1 as int, workers as int, index);
    exists|band_upper_left: Z, band_lower_right: Z|
        plane.maps(bounds, (0usize, top as usize), upper_left, lower_right, band_upper_left)
            && plane.maps(
            bounds,
            (bounds.0, (top + height) as usize),
            upper_left,
            lower_right,
            band_lower_right,
        ) && #[trigger] spec_pixel(
            plane,
            (bounds.0, height as usize),
            band_upper_left,
            band_lower_right,
            (pixel.0, (pixel.1 - top) as usize),
            byte,
        )
}

/// In the concatenation of band renderings, the byte at the index of a
/// pixel of the image is the byte of the same pixel in the rendering of the
/// band that holds its row.
proof fn lemma_banded_byte<
    Z,
    M: Fn((usize, usize), (usize, usize), Z, Z) -> Z,
    A: Fn(Z, Z) -> Z,
    E: Fn(Z) -> bool,
>(
    plane: Plane<Z, M, A, E>,
    bounds: (usize, usize),
    upper_left: Z,
    lower_right: Z,
    workers: usize,
    parts: Seq<Seq<u8>>,
    column: int,
    row: int,
)
    requires
        workers > 0,
        spec_bands_rendered(plane, bounds, upper_left, lower_right, workers, parts),
        0 <= column < bounds.0,
        0 <= row < bounds.1,
    ensures
        ({
            let index = spec_band_of_row(bounds.1 as int, workers as int, row);
            let top = spec_band_top(bounds.1 as int, workers as int, index);
            let rows = spec_band_height(bounds.1 as int, workers as int, index);
            let local = spec_pixel_index(bounds.0 as int, column, row - top);
            &&& 0 <= index < parts.len()
            &&& 0 <= top <= row < top + rows <= bounds.1
            &&& parts[index].len() == bounds.0 * rows
            &&& 0 <= local < parts[index].len()
            &&& 0 <= spec_pixel_index(bounds.0 as int, column, row) < parts.flatten().len()
            &&& parts.flatten()[spec_pixel_index(bounds.0 as int, column, row)]
                == parts[index][local]
        }),
{
    let height = bounds.1 as int;
    let count = workers as int;
    let width = bounds.0 as int;
    let n = parts.len() as int;
    lemma_parts_in_place(plane, bounds, upper_left, lower_right, workers, parts, n);
    assert(parts.take(n) =~= parts);
    lemma_row_in_one_band(height, count, row);
    let index = spec_band_of_row(height, count, row);
    let top = spec_band_top(height, count, index);
    let rows = spec_band_height(height, count, index);
    lemma_rows_in(height, count, index);
    lemma_rows_in_monotonic(height, count, index + 1, n);
    let part = parts[index];
    let whole = parts.flatten();
    assert(spec_band_rendered(plane, bounds, upper_left, lower_right, workers, index, part));
    assert(part.len() == width * rows);
    let local = spec_pixel_index(width, column, row - top);
    let global = spec_pixel_index(width, column, row);
    assert(top * width + local == global) by (nonlinear_arith)
        requires
            local == (row - top) * width + column,
            global == row * width + column,
    ;
    assert(0 <= local < width * rows) by (nonlinear_arith)
        requires
            local == (row - top) * width + column,
            0 <= column < width,
            0 <= row - top < rows,
    ;
    assert(0 <= top * width) by (nonlinear_arith)
        requires
            0 <= top,
            0 <= width,
    ;
    assert((top + rows) * width == top * width + width * rows) by (nonlinear_arith);
    assert((top + rows) * width <= whole.len()) by (nonlinear_arith)
        requires
            top + rows == spec_rows_in(height, count, index + 1),
            spec_rows_in(height, count, index + 1) <= spec_rows_in(height, count, n),
            whole.len() == spec_rows_in(height, count, n) * width,
            0 <= width,
    ;
    let slice = whole.subrange(top * width, (top + rows) * width);
    assert(slice == part);
    assert(slice[local] == whole[top * width + local]);
}

/// A rendering in bands has one byte for each pixel of the image.
pub proof fn lemma_rendered_in_bands_len<
    Z,
    M: Fn((usize, usize), (usize, usize), Z, Z) -> Z,
    A: Fn(Z, Z) -> Z,
    E: Fn(Z) -> bool,
>(
    plane: Plane<Z, M, A, E>,
    bounds: (usize, usize),
    upper_left: Z,
    lower_right: Z,
    workers: usize,
    pixels: Seq<u8>,
)
    requires
        workers > 0,
        spec_rendered_in_bands(plane, bounds, upper_left, lower_right, workers, pixels),
    ensures
        pixels.len() == bounds.0 * bounds.1,
{
    let parts = choose|parts: Seq<Seq<u8>>| #[trigger]
        spec_bands_rendered(plane, bounds, upper_left, lower_right, workers, parts) && pixels
            == parts.flatten();
    let n = parts.len() as int;
    lemma_parts_in_place(plane, bounds, upper_left, lower_right, workers, parts, n);
    assert(parts.take(n) =~= parts);
    assert(bounds.1 * bounds.0 == bounds.0 * bounds.1) by (nonlinear_arith);
}

/// In a rendering in bands, the byte at the index of a pixel of the image
/// is a brightness that rendering in bands can give to that pixel.
pub proof fn lemma_rendered_in_bands_pixel<
    Z,
    M: Fn((usize, usize), (usize, usize), Z, Z) -> Z,
    A: Fn(Z, Z) -> Z,
    E: Fn(Z) -> bool,
>(
    plane: Plane<Z, M, A, E>,
    bounds: (usize, usize),
    upper_left: Z,
    lower_right: Z,
    workers: usize,
    pixels: Seq<u8>,
    pixel: (usize, usize),
)
    requires
        workers > 0,
        spec_rendered_in_bands(plane, bounds, upper_left, lower_right, workers, pixels),
        pixel.0 < bounds.0,
        pixel.1 < bounds.1,
    ensures
        0 <= spec_pixel_index(bounds.0 as int, pixel.0 as int, pixel.1 as int) < pixels.len(),
        spec_banded_pixel(
            plane,
            bounds,
            upper_left,
            lower_right,
            workers,
            pixel,
            pixels[spec_pixel_index(bounds.0 as int, pixel.0 as int, pixel.1 as int)],
        ),
{
    let height = bounds.1 as int;
    let count = workers as int;
    let parts = choose|parts: Seq<Seq<u8>>| #[trigger]
        spec_bands_rendered(plane, bounds, upper_left, lower_right, workers, parts) && pixels
            == parts.flatten();
    lemma_banded_byte(
        plane,
        bounds,
        upper_left,
        lower_right,
        workers,
        parts,
        pixel.0 as int,
        pixel.1 as int,
    );
    let index = spec_band_of_row(height, count, pixel.1 as int);
    let top = spec_band_top(height, count, index);
    let rows = spec_band_height(height, count, index);
    let part = parts[index];
    let band_bounds = (bounds.0, rows as usize);
    assert(spec_band_rendered(plane, bounds, upper_left, lower_right, workers, index, part));
    let (u, l) = choose|u: Z, l: Z|
        plane.maps(bounds, (0usize, top as usize), upper_left, lower_right, u) && plane.maps(
            bounds,
            (bounds.0, (top + rows) as usize),
            upper_left,
            lower_right,
            l,
        ) && #[trigger] spec_rendered(plane, band_bounds, u, l, part);
    let local = (pixel.1 - top) as usize;
    let at = spec_pixel_index(bounds.0 as int, pixel.0 as int, local as int);
    assert(spec_pixel(plane, band_bounds, u, l, (pixel.0, local), part[at]));
}

} // verus!
