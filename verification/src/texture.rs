//! The checker texture's choice between its two colours.

use vstd::prelude::*;

verus! {

/// The cell with the lattice coordinates `(x, y, z)` has the first colour:
/// the three coordinates add up to an even number.
pub open spec fn is_first_colour(x: i32, y: i32, z: i32) -> bool {
    (x + y + z) % 2 == 0
}

/// Whether the cell with the lattice coordinates `(x, y, z)` has the first
/// of the two colours. Cells that share a face have different colours.
pub fn checker(x: i32, y: i32, z: i32) -> (first: bool)
    ensures
        first == is_first_colour(x, y, z),
{
    let sum: i64 = x as i64 + y as i64 + z as i64;
    sum % 2 == 0
}

/// Two cells that share a face have different colours.
pub proof fn lemma_checker_alternates(x: i32, y: i32, z: i32)
    requires
        x < i32::MAX,
    ensures
        is_first_colour((x + 1) as i32, y, z) != is_first_colour(x, y, z),
{
}

} // verus!
