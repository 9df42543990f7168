//! Bounded iteration of an orbit until it escapes.
//!
//! The orbit of a point `c` starts at the origin of the plane and is carried
//! on by the step of the plane, `z <- advance(z, c)`; after every step the
//! escape test looks at the new value. The escape time of `c` is the number
//! of the first iteration, counted from zero, whose value has escaped.

use vstd::prelude::*;
use crate::plane::Plane;

verus! {

/// The values `orbit[0], orbit[1], ..` are successive iterates of `c`: the
/// first is a step away from the origin, each later one a step away from the
/// one before it.
pub open spec fn spec_is_orbit<
    Z,
    M: Fn((usize, usize), (usize, usize), Z, Z) -> Z,
    A: Fn(Z, Z) -> Z,
    E: Fn(Z) -> bool,
>(plane: Plane<Z, M, A, E>, c: Z, orbit: Seq<Z>) -> bool {
    forall|k: int|
        0 <= k < orbit.len() ==> plane.steps(
            if k == 0 {
                plane.origin
            } else {
                orbit[k - 1]
            },
            c,
            #[trigger] orbit[k],
        )
}

/// The escape test fails for each of the first `n` values of the orbit.
pub open spec fn spec_bounded_for<
    Z,
    M: Fn((usize, usize), (usize, usize), Z, Z) -> Z,
    A: Fn(Z, Z) -> Z,
    E: Fn(Z) -> bool,
>(plane: Plane<Z, M, A, E>, orbit: Seq<Z>, n: int) -> bool {
    forall|k: int| 0 <= k < n ==> plane.judges(#[trigger] orbit[k], false)
}

/// The iteration that produced `orbit` stopped with `outcome`: either at the
/// first value that passes the escape test, which is value number `i` for
/// `Some(i)`, or after `limit` values that all fail it, for `None`.
pub open spec fn spec_stops<
    Z,
    M: Fn((usize, usize), (usize, usize), Z, Z) -> Z,
    A: Fn(Z, Z) -> Z,
    E: Fn(Z) -> bool,
>(plane: Plane<Z, M, A, E>, orbit: Seq<Z>, limit: u32, outcome: Option<u32>) -> bool {
    match outcome {
        Some(i) => {
            &&& i < limit
            &&& orbit.len() == i + 1
            &&& spec_bounded_for(plane, orbit, i as int)
            &&& plane.judges(orbit[i as int], true)
        },
        None => {
            &&& orbit.len() == limit
            &&& spec_bounded_for(plane, orbit, limit as int)
        },
    }
}

/// `outcome` is a fate that the orbit of `c` can have within `limit`
/// iterations.
///
/// `Some(i)` says that iteration `i`, counted from zero, is the first whose
/// value passes the escape test, and that `i < limit`. `None` says that the
/// test fails for the values of all `limit` iterations.
pub open spec fn spec_escape_time<
    Z,
    M: Fn((usize, usize), (usize, usize), Z, Z) -> Z,
    A: Fn(Z, Z) -> Z,
    E: Fn(Z) -> bool,
>(plane: Plane<Z, M, A, E>, c: Z, limit: u32, outcome: Option<u32>) -> bool {
    exists|orbit: Seq<Z>|
        spec_is_orbit(plane, c, orbit) && #[trigger] spec_stops(plane, orbit, limit, outcome)
}

/// Iterates the orbit of `c` for at most `limit` steps and reports the first
/// iteration, counted from zero, whose value passes the escape test, or
/// `None` if none of them does.
pub fn escape_time<
    Z: Copy,
    M: Fn((usize, usize), (usize, usize), Z, Z) -> Z,
    A: Fn(Z, Z) -> Z,
    E: Fn(Z) -> bool,
>(c: Z, limit: u32, plane: &Plane<Z, M, A, E>) -> (outcome: Option<u32>)
    requires
        plane.total(),
    ensures
        spec_escape_time(*plane, c, limit, outcome),
        outcome matches Some(i) ==> i < limit,
{
    let mut z = plane.origin;
    let mut i: u32 = 0;
    let ghost mut orbit: Seq<Z> = Seq::empty();
    while i < limit
        invariant
            plane.total(),
            i <= limit,
            orbit.len() == i,
            z == (if i == 0 {
                plane.origin
            } else {
                orbit[i - 1]
            }),
            spec_is_orbit(*plane, c, orbit),
            spec_bounded_for(*plane, orbit, i as int),
        decreases limit - i,
    {
        let next = (plane.advance)(z, c);
        let out = (plane.escaped)(next);
        proof {
            let longer = orbit.push(next);
            assert forall|k: int| 0 <= k < longer.len() implies plane.steps(
                if k == 0 {
                    plane.origin
                } else {
                    longer[k - 1]
                },
                c,
                #[trigger] longer[k],
            ) by {
                if k < orbit.len() {
                    assert(longer[k] == orbit[k]);
                }
            }
            assert forall|k: int| 0 <= k < i implies plane.judges(#[trigger] longer[k], false) by {
                assert(longer[k] == orbit[k]);
            }
            orbit = longer;
        }
        if out {
            assert(spec_stops(*plane, orbit, limit, Some(i)));
            return Some(i);
        }
        z = next;
        i = i + 1;
    }
    assert(spec_stops(*plane, orbit, limit, None));
    None
}

/// Two orbits of the same point under a deterministic step hold the same
/// values as far as both of them reach.
proof fn lemma_orbits_agree<
    Z,
    M: Fn((usize, usize), (usize, usize), Z, Z) -> Z,
    A: Fn(Z, Z) -> Z,
    E: Fn(Z) -> bool,
>(plane: Plane<Z, M, A, E>, c: Z, first: Seq<Z>, second: Seq<Z>, k: int)
    requires
        plane.deterministic(),
        spec_is_orbit(plane, c, first),
        spec_is_orbit(plane, c, second),
        0 <= k < first.len(),
        k < second.len(),
    ensures
        first[k] == second[k],
    decreases k,
{
    if k > 0 {
        lemma_orbits_agree(plane, c, first, second, k - 1);
    }
    let from = if k == 0 {
        plane.origin
    } else {
        first[k - 1]
    };
    assert(plane.steps(from, c, first[k]));
    assert(plane.steps(from, c, second[k]));
}

/// The escape time is a function of its arguments: on a deterministic plane
/// the orbit of a point has one fate only.
pub proof fn lemma_escape_time_deterministic<
    Z,
    M: Fn((usize, usize), (usize, usize), Z, Z) -> Z,
    A: Fn(Z, Z) -> Z,
    E: Fn(Z) -> bool,
>(plane: Plane<Z, M, A, E>, c: Z, limit: u32, first: Option<u32>, second: Option<u32>)
    requires
        plane.deterministic(),
        spec_escape_time(plane, c, limit, first),
        spec_escape_time(plane, c, limit, second),
    ensures
        first == second,
{
    let a = choose|orbit: Seq<Z>|
        spec_is_orbit(plane, c, orbit) && #[trigger] spec_stops(plane, orbit, limit, first);
    let b = choose|orbit: Seq<Z>|
        spec_is_orbit(plane, c, orbit) && #[trigger] spec_stops(plane, orbit, limit, second);
    match (first, second) {
        (Some(i), Some(j)) => {
            if i < j {
                lemma_orbits_agree(plane, c, a, b, i as int);
                assert(plane.judges(b[i as int], false));
            } else if j < i {
                lemma_orbits_agree(plane, c, a, b, j as int);
                assert(plane.judges(a[j as int], false));
            }
        },
        (Some(i), None) => {
            lemma_orbits_agree(plane, c, a, b, i as int);
            assert(plane.judges(b[i as int], false));
        },
        (None, Some(j)) => {
            lemma_orbits_agree(plane, c, a, b, j as int);
            assert(plane.judges(a[j as int], false));
        },
        (None, None) => {},
    }
}

/// An orbit none of whose values can pass the escape test has no escape
/// time, whatever the limit.
pub proof fn lemma_bounded_orbit_never_escapes<
    Z,
    M: Fn((usize, usize), (usize, usize), Z, Z) -> Z,
    A: Fn(Z, Z) -> Z,
    E: Fn(Z) -> bool,
>(plane: Plane<Z, M, A, E>, c: Z, limit: u32, outcome: Option<u32>)
    requires
        forall|orbit: Seq<Z>, k: int|
            spec_is_orbit(plane, c, orbit) && 0 <= k < orbit.len() ==> !plane.judges(
                #[trigger] orbit[k],
                true,
            ),
        spec_escape_time(plane, c, limit, outcome),
    ensures
        outcome is None,
{
}

/// A point whose first iterate cannot fail the escape test escapes at
/// iteration zero, provided that the limit grants an iteration at all.
pub proof fn lemma_escape_at_first_step<
    Z,
    M: Fn((usize, usize), (usize, usize), Z, Z) -> Z,
    A: Fn(Z, Z) -> Z,
    E: Fn(Z) -> bool,
>(plane: Plane<Z, M, A, E>, c: Z, limit: u32, outcome: Option<u32>)
    requires
        limit > 0,
        forall|z: Z| plane.steps(plane.origin, c, z) ==> !plane.judges(z, false),
        spec_escape_time(plane, c, limit, outcome),
    ensures
        outcome == Some(0u32),
{
    let orbit = choose|orbit: Seq<Z>|
        spec_is_orbit(plane, c, orbit) && #[trigger] spec_stops(plane, orbit, limit, outcome);
    assert(plane.steps(plane.origin, c, orbit[0]));
}

} // verus!
