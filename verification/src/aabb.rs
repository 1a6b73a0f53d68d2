//! Axis-aligned boxes: one range of keys for each axis.

use vstd::prelude::*;
use crate::axis::Axis;
use crate::interval::Interval;

verus! {

/// A position: one key for each axis.
#[derive(Clone, Copy, Debug, PartialEq, Eq, Structural)]
pub struct Point {
    pub x: u32,
    pub y: u32,
    pub z: u32,
}

/// An axis-aligned box.
#[derive(Clone, Copy, Debug, PartialEq, Eq, Structural)]
pub struct Aabb {
    pub x: Interval,
    pub y: Interval,
    pub z: Interval,
}

impl Point {
    pub fn new(x: u32, y: u32, z: u32) -> (p: Point)
        ensures
            p == (Point { x, y, z }),
    {
        Point { x, y, z }
    }

    /// The key of the point on `axis`.
    pub open spec fn along(self, axis: Axis) -> u32 {
        match axis {
            Axis::X => self.x,
            Axis::Y => self.y,
            Axis::Z => self.z,
        }
    }

    /// The key of the point on `axis`.
    pub fn axis(&self, axis: Axis) -> (k: u32)
        ensures
            k == self.along(axis),
    {
        match axis {
            Axis::X => self.x,
            Axis::Y => self.y,
            Axis::Z => self.z,
        }
    }
}

/// The range between two keys, whichever is the smaller.
pub open spec fn span_between(a: u32, b: u32) -> Interval {
    if a <= b {
        Interval { min: a, max: b }
    } else {
        Interval { min: b, max: a }
    }
}

impl Aabb {
    /// The box that holds nothing.
    pub open spec fn nothing() -> Aabb {
        Aabb { x: Interval::nothing(), y: Interval::nothing(), z: Interval::nothing() }
    }

    /// The smallest box around both `self` and `other`.
    pub open spec fn union(self, other: Aabb) -> Aabb {
        Aabb {
            x: Interval::hull(self.x, other.x),
            y: Interval::hull(self.y, other.y),
            z: Interval::hull(self.z, other.z),
        }
    }

    /// The range of the box on `axis`.
    pub open spec fn along(self, axis: Axis) -> Interval {
        match axis {
            Axis::X => self.x,
            Axis::Y => self.y,
            Axis::Z => self.z,
        }
    }

    /// `p` lies in the box, faces included.
    pub open spec fn covers(self, p: Point) -> bool {
        self.x.covers(p.x) && self.y.covers(p.y) && self.z.covers(p.z)
    }

    /// The box reaches at least as far as `other` on every axis. Every box
    /// encloses the empty one.
    pub open spec fn encloses(self, other: Aabb) -> bool {
        self.x.encloses(other.x) && self.y.encloses(other.y) && self.z.encloses(other.z)
    }

    /// The smallest box with `a` and `b` as corners.
    pub open spec fn between(a: Point, b: Point) -> Aabb {
        Aabb {
            x: span_between(a.x, b.x),
            y: span_between(a.y, b.y),
            z: span_between(a.z, b.z),
        }
    }

    pub fn new(x: Interval, y: Interval, z: Interval) -> (r: Aabb)
        ensures
            r == (Aabb { x, y, z }),
    {
        Aabb { x, y, z }
    }

    /// The box that holds nothing.
    pub fn empty() -> (r: Aabb)
        ensures
            r == Aabb::nothing(),
    {
        Aabb { x: Interval::empty(), y: Interval::empty(), z: Interval::empty() }
    }

    /// The box that holds the point `p` and nothing else.
    pub fn new_from_point(p: Point) -> (r: Aabb)
        ensures
            r == Aabb::between(p, p),
            forall|q: Point| r.covers(q) <==> q == p,
    {
        Aabb {
            x: Interval::new(p.x, p.x),
            y: Interval::new(p.y, p.y),
            z: Interval::new(p.z, p.z),
        }
    }

    /// Widens the box to cover `box1` too.
    pub fn expand(&mut self, box1: &Aabb)
        ensures
            *final(self) == old(self).union(*box1),
    {
        self.x = Interval::tight(self.x, box1.x);
        self.y = Interval::tight(self.y, box1.y);
        self.z = Interval::tight(self.z, box1.z);
    }

    /// The range of the box on `axis`.
    pub fn axis_interval(&self, axis: Axis) -> (r: Interval)
        ensures
            r == self.along(axis),
    {
        match axis {
            Axis::X => self.x,
            Axis::Y => self.y,
            Axis::Z => self.z,
        }
    }

    /// The smallest box with `a` and `b` as corners, in whatever order the
    /// two come on each axis.
    pub fn new_between(a: Point, b: Point) -> (r: Aabb)
        ensures
            r == Aabb::between(a, b),
            r.covers(a),
            r.covers(b),
            r.x.min <= r.x.max && r.y.min <= r.y.max && r.z.min <= r.z.max,
    {
        Aabb {
            x: if a.x <= b.x {
                Interval::new(a.x, b.x)
            } else {
                Interval::new(b.x, a.x)
            },
            y: if a.y <= b.y {
                Interval::new(a.y, b.y)
            } else {
                Interval::new(b.y, a.y)
            },
            z: if a.z <= b.z {
                Interval::new(a.z, b.z)
            } else {
                Interval::new(b.z, a.z)
            },
        }
    }
}

/// The part of `ray_interval` in which a ray is between the two faces of a
/// box on each of the three axes. `slabs` holds, for each axis in turn, the
/// keys of the two ray parameters at which the ray meets the faces.
pub open spec fn inside_slabs(ray_interval: Interval, slabs: Seq<(u32, u32)>) -> Interval
    decreases slabs.len(),
{
    if slabs.len() == 0 {
        ray_interval
    } else {
        inside_slabs(ray_interval, slabs.drop_last()).clipped(slabs.last().0, slabs.last().1)
    }
}

/// Clipping by one more axis leaves no more of the range.
pub proof fn lemma_slabs_only_shrink(ray_interval: Interval, slabs: Seq<(u32, u32)>, k: int)
    requires
        0 <= k <= slabs.len(),
    ensures
        inside_slabs(ray_interval, slabs.take(k)).encloses(inside_slabs(ray_interval, slabs)),
        inside_slabs(ray_interval, slabs).is_open() ==> inside_slabs(
            ray_interval,
            slabs.take(k),
        ).is_open(),
    decreases slabs.len() - k,
{
    if k < slabs.len() {
        lemma_slabs_only_shrink(ray_interval, slabs.drop_last(), k);
        assert(slabs.drop_last().take(k) =~= slabs.take(k));
    } else {
        assert(slabs.take(k) =~= slabs);
    }
}

/// The slab test: whether a ray is inside a box somewhere in `ray_interval`.
/// `slabs` holds, for each axis in turn, the keys of the two ray parameters
/// at which the ray meets the faces of the box. The range is clipped axis by
/// axis, and the test fails as soon as nothing of it is left.
pub fn hit(ray_interval: Interval, slabs: &[(u32, u32); 3]) -> (r: bool)
    ensures
        r == inside_slabs(ray_interval, slabs@).is_open(),
{
    let mut range = ray_interval;
    let mut k: usize = 0;
    assert(slabs@.take(0) =~= Seq::<(u32, u32)>::empty());
    while k < 3
        invariant
            k <= 3,
            slabs@.len() == 3,
            range == inside_slabs(ray_interval, slabs@.take(k as int)),
            k > 0 ==> range.is_open(),
        decreases 3 - k,
    {
        let (t0, t1) = slabs[k];
        range = range.clip(t0, t1);
        proof {
            assert(slabs@.take(k + 1).drop_last() =~= slabs@.take(k as int));
            lemma_slabs_only_shrink(ray_interval, slabs@, k + 1);
        }
        if range.max <= range.min {
            return false;
        }
        k = k + 1;
    }
    assert(slabs@.take(3) =~= slabs@);
    true
}

/// The axis on which a box is longest, from the keys of its three extents.
/// Where two extents are equal, the later axis wins.
pub open spec fn longest_of(x: u32, y: u32, z: u32) -> Axis {
    if x > y {
        if z > x {
            Axis::Z
        } else {
            Axis::X
        }
    } else if y > z {
        Axis::Y
    } else {
        Axis::Z
    }
}

/// The extent on `axis` among the three.
pub open spec fn extent_on(x: u32, y: u32, z: u32, axis: Axis) -> u32 {
    match axis {
        Axis::X => x,
        Axis::Y => y,
        Axis::Z => z,
    }
}

/// The axis on which a box is longest, from the keys of its extents on the
/// three axes. No extent is greater than the one on the axis returned.
pub fn longest_axis(x: u32, y: u32, z: u32) -> (axis: Axis)
    ensures
        axis == longest_of(x, y, z),
        extent_on(x, y, z, axis) >= x,
        extent_on(x, y, z, axis) >= y,
        extent_on(x, y, z, axis) >= z,
{
    if x > y {
        if z > x {
            Axis::Z
        } else {
            Axis::X
        }
    } else if y > z {
        Axis::Y
    } else {
        Axis::Z
    }
}

/// The union of a box with the empty box, on either side, is the box itself.
pub proof fn lemma_union_identity(a: Aabb)
    ensures
        a.union(Aabb::nothing()) == a,
        Aabb::nothing().union(a) == a,
{
}

/// The union does not depend on the order of the two boxes, nor on how three
/// boxes are grouped, and the union of a box with itself is the box.
pub proof fn lemma_union_algebra(a: Aabb, b: Aabb, c: Aabb)
    ensures
        a.union(b) == b.union(a),
        a.union(b).union(c) == a.union(b.union(c)),
        a.union(a) == a,
{
}

/// The union is tight: it encloses both boxes, and any box that encloses
/// both encloses the union.
pub proof fn lemma_union_is_tight(a: Aabb, b: Aabb, outer: Aabb)
    ensures
        a.union(b).encloses(a),
        a.union(b).encloses(b),
        outer.encloses(a) && outer.encloses(b) ==> outer.encloses(a.union(b)),
{
}

/// Two boxes that enclose each other are the same box.
pub proof fn lemma_encloses_antisymmetric(a: Aabb, b: Aabb)
    requires
        a.encloses(b),
        b.encloses(a),
    ensures
        a == b,
{
}

/// The union covers every point that either box covers.
pub proof fn lemma_union_covers(a: Aabb, b: Aabb, p: Point)
    requires
        a.covers(p) || b.covers(p),
    ensures
        a.union(b).covers(p),
{
}

} // verus!
