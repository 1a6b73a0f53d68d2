//! Closed ranges of ordered keys.
//!
//! A bound is a key: an unsigned number that is ordered as the coordinate or
//! the ray parameter that it stands for. Everything here depends on that
//! order alone.

use vstd::prelude::*;

verus! {

/// The least key.
pub const LEAST: u32 = 0;

/// The greatest key.
pub const GREATEST: u32 = 0xffff_ffff;

/// A range of keys from `min` to `max`. A range with `min > max` holds
/// nothing; `empty()` is the designated one.
#[derive(Clone, Copy, Debug, PartialEq, Eq, Structural)]
pub struct Interval {
    pub min: u32,
    pub max: u32,
}

impl Interval {
    /// The range that holds nothing: it starts at the greatest key and ends at
    /// the least.
    pub open spec fn nothing() -> Interval {
        Interval { min: GREATEST, max: LEAST }
    }

    /// The range that holds every key.
    pub open spec fn everything() -> Interval {
        Interval { min: LEAST, max: GREATEST }
    }

    /// The smallest range around both `a` and `b`.
    pub open spec fn hull(a: Interval, b: Interval) -> Interval {
        Interval {
            min: if a.min <= b.min { a.min } else { b.min },
            max: if a.max >= b.max { a.max } else { b.max },
        }
    }

    /// `x` lies in the range, bounds included.
    pub open spec fn covers(self, x: u32) -> bool {
        self.min <= x <= self.max
    }

    /// The range reaches at least as far as `other` on both sides. Every
    /// range encloses the empty one.
    pub open spec fn encloses(self, other: Interval) -> bool {
        self.min <= other.min && other.max <= self.max
    }

    /// The part of the range between `t0` and `t1`, whichever of the two is
    /// the smaller.
    pub open spec fn clipped(self, t0: u32, t1: u32) -> Interval {
        let low = if t0 < t1 { t0 } else { t1 };
        let high = if t0 < t1 { t1 } else { t0 };
        Interval {
            min: if low > self.min { low } else { self.min },
            max: if high < self.max { high } else { self.max },
        }
    }

    /// The range has an inside: it ends after it starts.
    pub open spec fn is_open(self) -> bool {
        self.min < self.max
    }

    pub fn new(min: u32, max: u32) -> (r: Interval)
        ensures
            r == (Interval { min, max }),
    {
        Interval { min, max }
    }

    /// The smallest range around both `a` and `b`.
    pub fn tight(a: Interval, b: Interval) -> (r: Interval)
        ensures
            r == Interval::hull(a, b),
    {
        Interval {
            min: if a.min <= b.min { a.min } else { b.min },
            max: if a.max >= b.max { a.max } else { b.max },
        }
    }

    /// `x` lies in the range; the upper bound itself does not.
    pub fn contains(&self, x: u32) -> (r: bool)
        ensures
            r == (self.min <= x < self.max),
    {
        self.min <= x && x < self.max
    }

    /// `x` lies strictly between the bounds.
    pub fn surrounds(&self, x: u32) -> (r: bool)
        ensures
            r == (self.min < x < self.max),
    {
        self.min < x && x < self.max
    }

    /// The key of the range that is next to `x`: `min` below the range,
    /// `max` above it, `x` itself inside.
    pub fn clamp(&self, x: u32) -> (r: u32)
        ensures
            r == if x < self.min { self.min } else if x > self.max { self.max } else { x },
            self.min <= self.max ==> self.covers(r),
    {
        if x < self.min {
            self.min
        } else if x > self.max {
            self.max
        } else {
            x
        }
    }

    /// The part of the range between `t0` and `t1`, whichever of the two is
    /// the smaller.
    pub fn clip(&self, t0: u32, t1: u32) -> (r: Interval)
        ensures
            r == self.clipped(t0, t1),
            self.encloses(r),
    {
        let mut min = self.min;
        let mut max = self.max;
        if t0 < t1 {
            if t0 > min {
                min = t0;
            }
            if t1 < max {
                max = t1;
            }
        } else {
            if t1 > min {
                min = t1;
            }
            if t0 < max {
                max = t0;
            }
        }
        Interval { min, max }
    }

    /// The range that holds nothing.
    pub fn empty() -> (r: Interval)
        ensures
            r == Interval::nothing(),
    {
        Interval { min: GREATEST, max: LEAST }
    }

    /// The range that holds every key.
    pub fn all() -> (r: Interval)
        ensures
            r == Interval::everything(),
    {
        Interval { min: LEAST, max: GREATEST }
    }
}

impl Default for Interval {
    /// The range that holds nothing.
    fn default() -> (r: Interval)
        ensures
            r == Interval::nothing(),
    {
        Interval { min: GREATEST, max: LEAST }
    }
}

/// The hull with the empty range, on either side, is the range itself.
pub proof fn lemma_hull_identity(a: Interval)
    ensures
        Interval::hull(a, Interval::nothing()) == a,
        Interval::hull(Interval::nothing(), a) == a,
{
}

/// The hull does not depend on the order of the two ranges, nor on how
/// three ranges are grouped, and the hull of a range with itself is the range.
pub proof fn lemma_hull_algebra(a: Interval, b: Interval, c: Interval)
    ensures
        Interval::hull(a, b) == Interval::hull(b, a),
        Interval::hull(Interval::hull(a, b), c) == Interval::hull(a, Interval::hull(b, c)),
        Interval::hull(a, a) == a,
{
}

/// The hull is tight: it encloses both ranges, and any range that encloses
/// both encloses the hull.
pub proof fn lemma_hull_is_tight(a: Interval, b: Interval, outer: Interval)
    ensures
        Interval::hull(a, b).encloses(a),
        Interval::hull(a, b).encloses(b),
        forall|x: u32| a.covers(x) || b.covers(x) ==> Interval::hull(a, b).covers(x),
        outer.encloses(a) && outer.encloses(b) ==> outer.encloses(Interval::hull(a, b)),
{
}

} // verus!
