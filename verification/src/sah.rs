//! The surface-area heuristic's decision: which split of a range of
//! primitives is cheapest, and whether it beats keeping the range as a leaf.
//!
//! A cost is an unsigned key, ordered as the cost is. For one axis the caller
//! lists the cost of every split of the range ordered along that axis: entry
//! `k` is the cost of putting the first `k + 1` primitives to the left.

use vstd::prelude::*;
use crate::axis::Axis;

verus! {

/// A chosen split: the axis to order the range along, how many primitives go
/// to the left, and the split's cost.
#[derive(Clone, Copy, Debug, PartialEq, Eq, Structural)]
pub struct Split {
    pub axis: Axis,
    pub at: usize,
    pub cost: u32,
}

/// Entry `k` of a cost list is a split of `count` primitives into two
/// non-empty parts.
pub open spec fn is_candidate(costs: Seq<u32>, count: int, k: int) -> bool {
    0 <= k < costs.len() && k + 1 < count
}

/// The cost lists of the three axes, in the order X, Y, Z.
pub open spec fn cost_lists(x: Seq<u32>, y: Seq<u32>, z: Seq<u32>) -> Seq<Seq<u32>> {
    seq![x, y, z]
}

/// `(axis, k)` is a candidate split in the three cost lists.
pub open spec fn is_candidate_on(costs: Seq<Seq<u32>>, count: int, axis: int, k: int) -> bool {
    0 <= axis < 3 && is_candidate(costs[axis], count, k)
}

/// `(a, j)` comes no later than `(b, k)` in the order in which candidates
/// are looked at: axis by axis, and on one axis from the left.
pub open spec fn no_later(a: int, j: int, b: int, k: int) -> bool {
    a < b || (a == b && j <= k)
}

/// `split` is the cheapest candidate, and among equally cheap ones the first.
pub open spec fn is_cheapest(costs: Seq<Seq<u32>>, count: int, split: Split) -> bool {
    let a = split.axis.index() as int;
    &&& split.at >= 1
    &&& is_candidate_on(costs, count, a, split.at - 1)
    &&& split.cost == costs[a][split.at - 1]
    &&& forall|b: int, k: int| #[trigger]
        is_candidate_on(costs, count, b, k) ==> split.cost <= costs[b][k] && (costs[b][k]
            == split.cost ==> no_later(a, split.at - 1, b, k))
}

/// The cheapest entry of one cost list among the candidates, and among
/// equally cheap ones the first; nothing where the list has no candidate.
pub fn cheapest_on_axis(costs: &Vec<u32>, count: usize) -> (r: Option<(usize, u32)>)
    ensures
        r is None <==> (forall|k: int| !is_candidate(costs@, count as int, k)),
        r matches Some((at, cost)) ==> {
            &&& is_candidate(costs@, count as int, at as int)
            &&& cost == costs@[at as int]
            &&& forall|k: int| #[trigger]
                is_candidate(costs@, count as int, k) ==> cost <= costs@[k] && (costs@[k] == cost
                    ==> at <= k)
        },
{
    if costs.len() == 0 || count < 2 {
        assert(forall|k: int| !is_candidate(costs@, count as int, k));
        return None;
    }
    let limit: usize = if costs.len() < count - 1 {
        costs.len()
    } else {
        count - 1
    };
    let mut at: usize = 0;
    let mut cost: u32 = costs[0];
    let mut k: usize = 1;
    while k < limit
        invariant
            1 <= k <= limit,
            limit <= costs.len(),
            limit + 1 <= count,
            limit == costs.len() || limit + 1 == count,
            at < k,
            cost == costs@[at as int],
            forall|j: int| 0 <= j < k ==> cost <= costs@[j] && (costs@[j] == cost ==> at <= j),
        decreases limit - k,
    {
        if costs[k] < cost {
            at = k;
            cost = costs[k];
        }
        k = k + 1;
    }
    assert(is_candidate(costs@, count as int, at as int));
    Some((at, cost))
}

/// The surface-area decision for a range of `count` primitives whose cost as
/// a leaf is `leaf_cost`. The range is split only where some candidate costs
/// strictly less than the leaf; the split is then the cheapest candidate of
/// the three axes, the first of them where several are as cheap.
pub fn choose_split(
    costs_x: &Vec<u32>,
    costs_y: &Vec<u32>,
    costs_z: &Vec<u32>,
    count: usize,
    leaf_cost: u32,
) -> (r: Option<Split>)
    ensures
        r is None <==> (forall|a: int, k: int| #[trigger]
            is_candidate_on(cost_lists(costs_x@, costs_y@, costs_z@), count as int, a, k)
                ==> cost_lists(costs_x@, costs_y@, costs_z@)[a][k] >= leaf_cost),
        r matches Some(split) ==> split.cost < leaf_cost && is_cheapest(
            cost_lists(costs_x@, costs_y@, costs_z@),
            count as int,
            split,
        ),
{
    let ghost costs = cost_lists(costs_x@, costs_y@, costs_z@);
    let ghost n = count as int;
    let mut best: Option<Split> = None;
    if let Some((at, cost)) = cheapest_on_axis(costs_x, count) {
        best = Some(Split { axis: Axis::X, at: at + 1, cost });
    }
    assert(costs[0] == costs_x@ && costs[1] == costs_y@ && costs[2] == costs_z@);
    assert(best is None ==> forall|k: int| !is_candidate_on(costs, n, 0, k));
    assert(best matches Some(s) ==> is_cheapest_upto(costs, n, s, 1));
    if let Some((at, cost)) = cheapest_on_axis(costs_y, count) {
        let improves = match best {
            Some(b) => cost < b.cost,
            None => true,
        };
        if improves {
            best = Some(Split { axis: Axis::Y, at: at + 1, cost });
        }
    }
    assert(best is None ==> forall|a: int, k: int| a < 2 ==> !is_candidate_on(costs, n, a, k));
    assert(best matches Some(s) ==> is_cheapest_upto(costs, n, s, 2));
    if let Some((at, cost)) = cheapest_on_axis(costs_z, count) {
        let improves = match best {
            Some(b) => cost < b.cost,
            None => true,
        };
        if improves {
            best = Some(Split { axis: Axis::Z, at: at + 1, cost });
        }
    }
    assert(best is None ==> forall|a: int, k: int| !is_candidate_on(costs, n, a, k));
    assert(best matches Some(s) ==> is_cheapest_upto(costs, n, s, 3));
    match best {
        Some(split) => {
            if split.cost < leaf_cost {
                Some(split)
            } else {
                None
            }
        },
        None => None,
    }
}

/// `split` is the cheapest candidate on the axes before `axes`, and among
/// equally cheap ones the first.
pub open spec fn is_cheapest_upto(costs: Seq<Seq<u32>>, count: int, split: Split, axes: int) -> bool {
    let a = split.axis.index() as int;
    &&& split.at >= 1
    &&& a < axes
    &&& is_candidate_on(costs, count, a, split.at - 1)
    &&& split.cost == costs[a][split.at - 1]
    &&& forall|b: int, k: int| #[trigger]
        is_candidate_on(costs, count, b, k) && b < axes ==> split.cost <= costs[b][k] && (
        costs[b][k] == split.cost ==> no_later(a, split.at - 1, b, k))
}

} // verus!
