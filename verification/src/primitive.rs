//! The decisions of the two intersection tests: which root of a sphere's
//! quadratic counts, and whether a point of a quadrilateral's plane is
//! accepted. The numbers come as keys.

use vstd::prelude::*;
use crate::interval::Interval;

verus! {

/// The root that counts: the nearer one where it lies strictly inside the
/// ray's range, else the farther one where that does, else none.
pub open spec fn root_in(ray_interval: Interval, near: u32, far: u32) -> Option<u32> {
    if ray_interval.min < near < ray_interval.max {
        Some(near)
    } else if ray_interval.min < far < ray_interval.max {
        Some(far)
    } else {
        None
    }
}

/// A point of the plane is accepted: its ray parameter lies in the ray's
/// range, the end excluded, and both of its coordinates in the
/// quadrilateral's basis lie between `zero` and `one`, both included.
pub open spec fn accepted(
    ray_interval: Interval,
    t: u32,
    alpha: u32,
    beta: u32,
    zero: u32,
    one: u32,
) -> bool {
    &&& ray_interval.min <= t < ray_interval.max
    &&& zero <= alpha <= one
    &&& zero <= beta <= one
}

/// Picks the root of a sphere's quadratic at which the ray hits: `near` is
/// the key of the smaller root and `far` that of the larger.
pub fn nearest_root(ray_interval: &Interval, near: u32, far: u32) -> (r: Option<u32>)
    ensures
        r == root_in(*ray_interval, near, far),
{
    if ray_interval.surrounds(near) {
        Some(near)
    } else if ray_interval.surrounds(far) {
        Some(far)
    } else {
        None
    }
}

/// Whether the two coordinates of a point in a quadrilateral's basis lie
/// inside the quadrilateral: both between `zero` and `one`, both included.
pub fn is_interior(alpha: u32, beta: u32, zero: u32, one: u32) -> (r: bool)
    ensures
        r == (zero <= alpha <= one && zero <= beta <= one),
{
    zero <= alpha && alpha <= one && zero <= beta && beta <= one
}

/// Whether a ray hits a quadrilateral at the point of its plane with the ray
/// parameter `t` and the coordinates `alpha` and `beta`.
pub fn quad_accepts(
    ray_interval: &Interval,
    t: u32,
    alpha: u32,
    beta: u32,
    zero: u32,
    one: u32,
) -> (r: bool)
    ensures
        r == accepted(*ray_interval, t, alpha, beta, zero, one),
{
    ray_interval.contains(t) && is_interior(alpha, beta, zero, one)
}

/// A root that counts lies strictly inside the ray's range, and the farther
/// root counts only where the nearer one does not.
pub proof fn lemma_root_in_range(ray_interval: Interval, near: u32, far: u32)
    ensures
        root_in(ray_interval, near, far) matches Some(t) ==> ray_interval.min < t
            < ray_interval.max && (t == near || t == far),
        root_in(ray_interval, near, far) is None <==> !(ray_interval.min < near
            < ray_interval.max) && !(ray_interval.min < far < ray_interval.max),
        ray_interval.min < near < ray_interval.max ==> root_in(ray_interval, near, far) == Some(
            near,
        ),
{
}

/// Testing a primitive in a range that ends at the nearest hit so far is
/// the same as testing it in the whole range and keeping it only where it is
/// strictly nearer.
pub proof fn lemma_shrunk_range_filters(ray_interval: Interval, closest: u32, near: u32, far: u32)
    requires
        near <= far,
        ray_interval.min < closest <= ray_interval.max,
    ensures
        root_in(Interval { min: ray_interval.min, max: closest }, near, far) == match root_in(
            ray_interval,
            near,
            far,
        ) {
            Some(t) => if t < closest {
                Some(t)
            } else {
                None
            },
            None => None,
        },
{
}

} // verus!
