//! The three coordinate axes.

use vstd::prelude::*;
use rand_chacha::ChaCha8Rng;
use crate::random::draw_up_to_two;

verus! {

/// One of the three coordinate axes.
#[derive(Clone, Copy, Debug, PartialEq, Eq, Structural)]
pub enum Axis {
    X,
    Y,
    Z,
}

impl Axis {
    /// The axes in their fixed order: X, Y, Z.
    pub open spec fn all() -> Seq<Axis> {
        seq![Axis::X, Axis::Y, Axis::Z]
    }

    /// The position of the axis in `all()`.
    pub open spec fn index(self) -> nat {
        match self {
            Axis::X => 0,
            Axis::Y => 1,
            Axis::Z => 2,
        }
    }

    /// The axis that a draw stands for: 0 is X, 1 is Y, anything else is Z.
    pub open spec fn of_draw(n: u8) -> Axis {
        if n == 0 {
            Axis::X
        } else if n == 1 {
            Axis::Y
        } else {
            Axis::Z
        }
    }

    /// All three axes, in the order X, Y, Z.
    pub fn iter() -> (axes: [Axis; 3])
        ensures
            axes@ == Axis::all(),
            forall|a: Axis| axes@[a.index() as int] == a,
    {
        let axes = [Axis::X, Axis::Y, Axis::Z];
        assert(axes@ =~= Axis::all());
        axes
    }

    /// The position of the axis among the three: 0, 1 or 2.
    pub fn to_index(self) -> (i: usize)
        ensures
            i == self.index(),
            i < 3,
    {
        match self {
            Axis::X => 0,
            Axis::Y => 1,
            Axis::Z => 2,
        }
    }

    /// Draws an axis: one number out of 0, 1 and 2 is drawn from `rng`, and
    /// `from_draw` turns it into the axis.
    pub fn sample(rng: &mut ChaCha8Rng) -> (axis: Axis)
        ensures
            axis.index() < 3,
    {
        let n = draw_up_to_two(rng);
        Axis::from_draw(n)
    }

    /// Turns a draw into an axis: 0 is X, 1 is Y, anything else is Z.
    pub fn from_draw(n: u8) -> (axis: Axis)
        ensures
            axis == Axis::of_draw(n),
            n <= 2 ==> axis.index() == n,
    {
        if n == 0 {
            Axis::X
        } else if n == 1 {
            Axis::Y
        } else {
            Axis::Z
        }
    }
}

/// Going to a position and back gives the same axis.
pub proof fn lemma_axis_index_round_trip(axis: Axis)
    ensures
        axis.index() < 3,
        Axis::of_draw(axis.index() as u8) == axis,
        Axis::all()[axis.index() as int] == axis,
{
}

} // verus!
