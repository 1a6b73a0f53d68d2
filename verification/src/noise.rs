//! The lattice tables of the gradient-noise texture: three shuffled tables
//! that turn a lattice corner into the position of its gradient.

use vstd::prelude::*;
use rand_chacha::ChaCha8Rng;
use crate::random::shuffle;

verus! {

/// The number of gradients, and the length of each table.
pub const POINT_COUNT: usize = 256;

/// Three tables, one for each axis. Each holds every number below
/// `POINT_COUNT` once.
pub struct Lattice {
    pub perm_x: Vec<usize>,
    pub perm_y: Vec<usize>,
    pub perm_z: Vec<usize>,
}

/// The table in which every position holds its own number.
pub open spec fn identity_table() -> Seq<usize> {
    Seq::new(POINT_COUNT as nat, |i: int| i as usize)
}

/// The table holds every number below `POINT_COUNT` once.
pub open spec fn is_shuffled(table: Seq<usize>) -> bool {
    table.len() == POINT_COUNT && table.to_multiset() == identity_table().to_multiset()
}

/// The position in a table that a lattice coordinate selects: its lowest
/// eight bits.
pub open spec fn slot(coordinate: i32) -> int {
    (coordinate & 255) as int
}

/// Every entry of a shuffled table is below `POINT_COUNT`.
pub proof fn lemma_shuffled_entries(table: Seq<usize>, i: int)
    requires
        is_shuffled(table),
        0 <= i < table.len(),
    ensures
        table[i] < POINT_COUNT,
{
    let id = identity_table();
    table.to_multiset_ensures();
    id.to_multiset_ensures();
    assert(table.contains(table[i]));
    assert(table.to_multiset().count(table[i]) > 0);
    assert(id.to_multiset().count(table[i]) > 0);
    assert(id.contains(table[i]));
}

/// A lattice coordinate selects a position inside a table.
pub proof fn lemma_slot_in_table(coordinate: i32)
    ensures
        0 <= slot(coordinate) < POINT_COUNT,
{
    assert(0 <= (coordinate & 255) < 256) by (bit_vector);
}

impl Lattice {
    /// Each of the three tables is shuffled.
    pub open spec fn wf(&self) -> bool {
        is_shuffled(self.perm_x@) && is_shuffled(self.perm_y@) && is_shuffled(self.perm_z@)
    }

    /// The position of the gradient at a lattice corner.
    pub open spec fn gradient_at(&self, i: i32, j: i32, k: i32) -> usize {
        self.perm_x@[slot(i)] ^ self.perm_y@[slot(j)] ^ self.perm_z@[slot(k)]
    }

    /// Draws the three tables: the identity table is shuffled once for the
    /// first, once more for the second and once more for the third.
    pub fn new(rng: &mut ChaCha8Rng) -> (lattice: Lattice)
        ensures
            lattice.wf(),
    {
        let mut table: Vec<usize> = Vec::new();
        let mut i: usize = 0;
        while i < POINT_COUNT
            invariant
                i <= POINT_COUNT,
                table.len() == i,
                forall|k: int| 0 <= k < i ==> table@[k] == k,
            decreases POINT_COUNT - i,
        {
            table.push(i);
            i = i + 1;
        }
        assert(table@ =~= identity_table());
        shuffle(&mut table, rng);
        let perm_x = copy_table(&table);
        shuffle(&mut table, rng);
        let perm_y = copy_table(&table);
        shuffle(&mut table, rng);
        proof {
            table@.to_multiset_ensures();
            perm_x@.to_multiset_ensures();
            perm_y@.to_multiset_ensures();
            identity_table().to_multiset_ensures();
        }
        Lattice { perm_x, perm_y, perm_z: table }
    }

    /// The position of the gradient at the lattice corner `(i, j, k)`: the
    /// entries that the three coordinates select, combined bit by bit. It is
    /// a position among the `POINT_COUNT` gradients.
    pub fn corner(&self, i: i32, j: i32, k: i32) -> (at: usize)
        requires
            self.wf(),
        ensures
            at == self.gradient_at(i, j, k),
            at < POINT_COUNT,
    {
        proof {
            lemma_slot_in_table(i);
            lemma_slot_in_table(j);
            lemma_slot_in_table(k);
            lemma_shuffled_entries(self.perm_x@, slot(i));
            lemma_shuffled_entries(self.perm_y@, slot(j));
            lemma_shuffled_entries(self.perm_z@, slot(k));
        }
        let x = self.perm_x[(i & 255) as usize];
        let y = self.perm_y[(j & 255) as usize];
        let z = self.perm_z[(k & 255) as usize];
        assert(x < 256 && y < 256 && z < 256 ==> (x ^ y ^ z) < 256) by (bit_vector);
        x ^ y ^ z
    }
}

/// A copy of a table.
pub fn copy_table(table: &Vec<usize>) -> (copy: Vec<usize>)
    ensures
        copy@ == table@,
{
    let mut copy: Vec<usize> = Vec::new();
    let mut i: usize = 0;
    while i < table.len()
        invariant
            i <= table.len(),
            copy@ == table@.take(i as int),
        decreases table.len() - i,
    {
        copy.push(table[i]);
        assert(table@.take(i + 1) =~= table@.take(i as int).push(table@[i as int]));
        i = i + 1;
    }
    assert(table@.take(i as int) =~= table@);
    copy
}

} // verus!
