//! Building the hierarchy by the surface-area heuristic: the primitives of
//! a range are ordered along each axis in turn, every split of each order is
//! costed, and the range becomes two children where the cheapest split costs
//! less than keeping the range as a leaf. What a box costs is asked of the
//! caller; a cost is an unsigned key, ordered as the cost is.

use vstd::prelude::*;
use vstd::seq_lib::lemma_multiset_commutative;
use crate::aabb::{
    Aabb,
    lemma_encloses_antisymmetric,
    lemma_union_algebra,
    lemma_union_identity,
    lemma_union_is_tight,
};
use crate::axis::Axis;
use crate::bvh::{
    Bvh,
    BvhNode,
    Entry,
    Link,
    all_ok,
    join,
    lemma_join_encloses,
    node_ok,
    node_tight,
};
use crate::sah::{choose_split, cost_lists, is_candidate_on, Split};

verus! {

/// `after` holds the primitives of `before`, in another order inside
/// `lo..hi` and in the same place outside.
pub open spec fn permuted_within(before: Seq<Entry>, after: Seq<Entry>, lo: int, hi: int) -> bool {
    &&& after.len() == before.len()
    &&& forall|p: int| 0 <= p < before.len() && !(lo <= p < hi) ==> after[p] == before[p]
    &&& after.subrange(lo, hi).to_multiset() == before.subrange(lo, hi).to_multiset()
}

/// The primitives `lo..hi` are in the order of their centres on `axis`.
pub open spec fn ordered_along(arena: Seq<Entry>, lo: int, hi: int, axis: Axis) -> bool {
    forall|i: int, j: int|
        lo <= i <= j < hi ==> arena[i].center.along(axis) <= arena[j].center.along(axis)
}

/// The primitives of `lo..hi` whose centre has the key `at` on `axis` come
/// in `after` in the order in which they come in `before`.
pub open spec fn same_order_at(
    before: Seq<Entry>,
    after: Seq<Entry>,
    lo: int,
    hi: int,
    axis: Axis,
    at: u32,
) -> bool {
    after.subrange(lo, hi).filter(|e: Entry| e.center.along(axis) == at) == before.subrange(
        lo,
        hi,
    ).filter(|e: Entry| e.center.along(axis) == at)
}

/// Primitives of `lo..hi` whose centres have the same key on `axis` keep
/// the order they had among themselves.
pub open spec fn stable_within(
    before: Seq<Entry>,
    after: Seq<Entry>,
    lo: int,
    hi: int,
    axis: Axis,
) -> bool {
    forall|at: u32| #[trigger] same_order_at(before, after, lo, hi, axis, at)
}

/// The two cost functions that a build calls accept every box and count.
pub open spec fn build_callable<FC, FS>(leaf_cost: &FC, split_cost: &FS) -> bool where
    FC: Fn(&Aabb, usize) -> u32,
    FS: Fn(&Aabb, usize, &Aabb, usize) -> u32,
 {
    &&& forall|b: Aabb, n: usize| #[trigger] leaf_cost.requires((&b, n))
    &&& forall|l: Aabb, nl: usize, r: Aabb, nr: usize| #[trigger]
        split_cost.requires((&l, nl, &r, nr))
}

/// The most nodes that subdividing a leaf of `count` primitives can add.
pub open spec fn growth_bound(count: int) -> int {
    if count <= 1 {
        0
    } else {
        2 * count - 2
    }
}

/// Entry `k` of `costs` is what `split_cost` gave for the split of the
/// primitives `first..end` that puts the first `k + 1` of them to the left.
pub open spec fn is_split_cost<FS: Fn(&Aabb, usize, &Aabb, usize) -> u32>(
    arena: Seq<Entry>,
    first: int,
    end: int,
    split_cost: &FS,
    k: int,
    cost: u32,
) -> bool {
    split_cost.ensures(
        (
            &join(arena, first, first + k + 1),
            (k + 1) as usize,
            &join(arena, first + k + 1, end),
            (end - first - k - 1) as usize,
        ),
        cost,
    )
}

/// Split `k` of the primitives in `order` costs no less than `kept`.
pub open spec fn split_not_cheaper<FS: Fn(&Aabb, usize, &Aabb, usize) -> u32>(
    order: Seq<Entry>,
    split_cost: &FS,
    k: int,
    kept: u32,
) -> bool {
    exists|cost: u32| #[trigger]
        is_split_cost(order, 0, order.len() as int, split_cost, k, cost) && cost >= kept
}

/// The primitives of `range` can be ordered along `axis` so that no split of
/// that order costs less than `kept`.
pub open spec fn no_cheaper_split<FS: Fn(&Aabb, usize, &Aabb, usize) -> u32>(
    range: Seq<Entry>,
    axis: Axis,
    split_cost: &FS,
    kept: u32,
) -> bool {
    exists|order: Seq<Entry>|
        {
            &&& #[trigger] order.to_multiset() == range.to_multiset()
            &&& ordered_along(order, 0, order.len() as int, axis)
            &&& forall|k: int|
                0 <= k < order.len() - 1 ==> #[trigger] split_not_cheaper(
                    order,
                    split_cost,
                    k,
                    kept,
                )
        }
}

/// No split on any axis costs less than `kept`.
pub open spec fn no_split_pays<FS: Fn(&Aabb, usize, &Aabb, usize) -> u32>(
    range: Seq<Entry>,
    split_cost: &FS,
    kept: u32,
) -> bool {
    forall|axis: Axis| #[trigger] no_cheaper_split(range, axis, split_cost, kept)
}

/// A leaf is settled: it holds fewer than two primitives, or no split of
/// them on any axis costs less than what `leaf_cost` gave for keeping them
/// as one leaf.
pub open spec fn node_settled<FC, FS>(
    nodes: Seq<BvhNode>,
    arena: Seq<Entry>,
    i: int,
    leaf_cost: &FC,
    split_cost: &FS,
) -> bool where FC: Fn(&Aabb, usize) -> u32, FS: Fn(&Aabb, usize, &Aabb, usize) -> u32 {
    match nodes[i].link {
        Link::Inner { left } => true,
        Link::Leaf { first, count } => count < 2 || exists|kept: u32|
            {
                &&& #[trigger] leaf_cost.ensures((&nodes[i].aabb, count), kept)
                &&& no_split_pays(arena.subrange(first as int, first + count), split_cost, kept)
            },
    }
}

/// Every leaf is settled.
pub open spec fn all_settled<FC, FS>(
    nodes: Seq<BvhNode>,
    arena: Seq<Entry>,
    leaf_cost: &FC,
    split_cost: &FS,
) -> bool where FC: Fn(&Aabb, usize) -> u32, FS: Fn(&Aabb, usize, &Aabb, usize) -> u32 {
    forall|i: int|
        0 <= i < nodes.len() ==> #[trigger] node_settled(nodes, arena, i, leaf_cost, split_cost)
}

/// An inner node pays off: the cost that `split_cost` gave for its two
/// children is strictly less than the cost that `leaf_cost` gave for keeping
/// its primitives as one leaf.
pub open spec fn node_pays<FC, FS>(
    nodes: Seq<BvhNode>,
    i: int,
    leaf_cost: &FC,
    split_cost: &FS,
) -> bool where FC: Fn(&Aabb, usize) -> u32, FS: Fn(&Aabb, usize, &Aabb, usize) -> u32 {
    match nodes[i].link {
        Link::Leaf { first, count } => true,
        Link::Inner { left } => exists|kept: u32, split: u32|
            {
                &&& #[trigger] leaf_cost.ensures(
                    (&nodes[i].aabb, (nodes[i].end() - nodes[i].first()) as usize),
                    kept,
                )
                &&& #[trigger] split_cost.ensures(
                    (
                        &nodes[left as int].aabb,
                        (nodes[left as int].end() - nodes[left as int].first()) as usize,
                        &nodes[left + 1].aabb,
                        (nodes[left + 1].end() - nodes[left + 1].first()) as usize,
                    ),
                    split,
                )
                &&& split < kept
            },
    }
}

/// Every inner node pays off.
pub open spec fn all_pay<FC, FS>(nodes: Seq<BvhNode>, leaf_cost: &FC, split_cost: &FS) -> bool where
    FC: Fn(&Aabb, usize) -> u32,
    FS: Fn(&Aabb, usize, &Aabb, usize) -> u32,
 {
    forall|i: int| 0 <= i < nodes.len() ==> #[trigger] node_pays(nodes, i, leaf_cost, split_cost)
}

/// The smallest box around a range depends on the primitives in the range
/// alone.
pub proof fn lemma_join_agree(a: Seq<Entry>, b: Seq<Entry>, lo: int, hi: int)
    requires
        forall|p: int| lo <= p < hi ==> a[p] == b[p],
    ensures
        join(a, lo, hi) == join(b, lo, hi),
    decreases hi - lo,
{
    if lo < hi {
        lemma_join_agree(a, b, lo, hi - 1);
    }
}

/// A box that encloses the box of each primitive in a range encloses the
/// smallest box around the range.
pub proof fn lemma_join_least(arena: Seq<Entry>, lo: int, hi: int, outer: Aabb)
    requires
        forall|p: int| lo <= p < hi ==> outer.encloses(#[trigger] arena[p].aabb),
    ensures
        outer.encloses(join(arena, lo, hi)),
    decreases hi - lo,
{
    if lo < hi {
        lemma_join_least(arena, lo, hi - 1, outer);
        lemma_union_is_tight(join(arena, lo, hi - 1), arena[hi - 1].aabb, outer);
    }
}

/// The smallest box around a range is the box of its first primitive united
/// with the smallest box around the rest.
pub proof fn lemma_join_front(arena: Seq<Entry>, lo: int, hi: int)
    requires
        0 <= lo < hi <= arena.len(),
    ensures
        join(arena, lo, hi) == arena[lo].aabb.union(join(arena, lo + 1, hi)),
    decreases hi - lo,
{
    if lo + 1 < hi {
        lemma_join_front(arena, lo, hi - 1);
        lemma_union_algebra(arena[lo].aabb, join(arena, lo + 1, hi - 1), arena[hi - 1].aabb);
    } else {
        assert(join(arena, lo, lo) == Aabb::nothing());
        assert(join(arena, lo + 1, hi) == Aabb::nothing());
        lemma_union_identity(arena[lo].aabb);
    }
}

/// The smallest box around a range does not depend on the order of the
/// primitives in it.
pub proof fn lemma_join_permuted(a: Seq<Entry>, b: Seq<Entry>, lo: int, hi: int)
    requires
        0 <= lo <= hi <= a.len(),
        a.len() == b.len(),
        a.subrange(lo, hi).to_multiset() == b.subrange(lo, hi).to_multiset(),
    ensures
        join(a, lo, hi) == join(b, lo, hi),
{
    let ja = join(a, lo, hi);
    let jb = join(b, lo, hi);
    let sa = a.subrange(lo, hi);
    let sb = b.subrange(lo, hi);
    sa.to_multiset_ensures();
    sb.to_multiset_ensures();
    assert forall|p: int| lo <= p < hi implies ja.encloses(#[trigger] b[p].aabb) by {
        assert(sb[p - lo] == b[p]);
        assert(sb.contains(b[p]));
        assert(sb.to_multiset().count(b[p]) > 0);
        assert(sa.to_multiset().count(b[p]) > 0);
        assert(sa.contains(b[p]));
        let q = choose|q: int| 0 <= q < sa.len() && sa[q] == b[p];
        lemma_join_encloses(a, lo, hi, lo + q);
    }
    lemma_join_least(b, lo, hi, ja);
    assert forall|p: int| lo <= p < hi implies jb.encloses(#[trigger] a[p].aabb) by {
        assert(sa[p - lo] == a[p]);
        assert(sa.contains(a[p]));
        assert(sa.to_multiset().count(a[p]) > 0);
        assert(sb.to_multiset().count(a[p]) > 0);
        assert(sb.contains(a[p]));
        let q = choose|q: int| 0 <= q < sb.len() && sb[q] == a[p];
        lemma_join_encloses(b, lo, hi, lo + q);
    }
    lemma_join_least(a, lo, hi, jb);
    lemma_encloses_antisymmetric(ja, jb);
}

/// A reordering inside a range is a reordering inside any range around it.
pub proof fn lemma_permuted_widen(
    before: Seq<Entry>,
    after: Seq<Entry>,
    lo: int,
    hi: int,
    wide_lo: int,
    wide_hi: int,
)
    requires
        0 <= wide_lo <= lo <= hi <= wide_hi <= before.len(),
        permuted_within(before, after, lo, hi),
    ensures
        permuted_within(before, after, wide_lo, wide_hi),
{
    let b0 = before.subrange(wide_lo, lo);
    let b1 = before.subrange(lo, hi);
    let b2 = before.subrange(hi, wide_hi);
    let a0 = after.subrange(wide_lo, lo);
    let a1 = after.subrange(lo, hi);
    let a2 = after.subrange(hi, wide_hi);
    assert(a0 =~= b0);
    assert(a2 =~= b2);
    assert(before.subrange(wide_lo, wide_hi) =~= (b0 + b1) + b2);
    assert(after.subrange(wide_lo, wide_hi) =~= (a0 + a1) + a2);
    lemma_multiset_commutative(b0, b1);
    lemma_multiset_commutative(b0 + b1, b2);
    lemma_multiset_commutative(a0, a1);
    lemma_multiset_commutative(a0 + a1, a2);
}

/// Two reorderings inside the same range, one after the other, are a
/// reordering inside that range.
pub proof fn lemma_permuted_twice(a: Seq<Entry>, b: Seq<Entry>, c: Seq<Entry>, lo: int, hi: int)
    requires
        permuted_within(a, b, lo, hi),
        permuted_within(b, c, lo, hi),
    ensures
        permuted_within(a, c, lo, hi),
{
}

/// The smallest box around a range is the same wherever in an arena the
/// range lies.
pub proof fn lemma_join_shift(a: Seq<Entry>, b: Seq<Entry>, lo: int, hi: int, by: int)
    requires
        forall|p: int| lo <= p < hi ==> a[p] == b[p - by],
    ensures
        join(a, lo, hi) == join(b, lo - by, hi - by),
    decreases hi - lo,
{
    if lo < hi {
        lemma_join_shift(a, b, lo, hi - 1, by);
    }
}

/// A copy of the primitives `first..end`.
pub fn copy_range(arena: &Vec<Entry>, first: usize, end: usize) -> (copy: Vec<Entry>)
    requires
        first <= end <= arena.len(),
    ensures
        copy@ == arena@.subrange(first as int, end as int),
{
    let mut copy: Vec<Entry> = Vec::new();
    let mut i: usize = first;
    while i < end
        invariant
            first <= i <= end <= arena.len(),
            copy@ == arena@.subrange(first as int, i as int),
        decreases end - i,
    {
        copy.push(arena[i]);
        assert(arena@.subrange(first as int, i + 1) =~= arena@.subrange(first as int, i as int).push(
            arena@[i as int],
        ));
        i = i + 1;
    }
    copy
}

/// Puts the primitives of `order` in the place of the primitives from
/// `first` on.
pub fn store_range(arena: &mut Vec<Entry>, first: usize, order: &Vec<Entry>)
    requires
        first + order.len() <= old(arena).len(),
    ensures
        final(arena).len() == old(arena).len(),
        final(arena)@.subrange(first as int, first + order.len()) == order@,
        forall|p: int|
            0 <= p < old(arena).len() && !(first <= p < first + order.len()) ==> final(arena)@[p]
                == old(arena)@[p],
{
    let mut i: usize = 0;
    while i < order.len()
        invariant
            i <= order.len(),
            first + order.len() <= arena.len(),
            arena.len() == old(arena).len(),
            forall|p: int| 0 <= p < i ==> arena@[first + p] == order@[p],
            forall|p: int|
                0 <= p < arena.len() && !(first <= p < first + i) ==> arena@[p] == old(arena)@[p],
        decreases order.len() - i,
    {
        arena.set(first + i, order[i]);
        i = i + 1;
    }
    assert(arena@.subrange(first as int, first + order.len()) =~= order@);
}

/// Orders the primitives `first..end` by their centres on `axis`. This is
/// `sort_by_key` of the standard library on that part of the arena: the part
/// holds the same primitives afterwards, ordered by the key, with those of
/// equal keys in the order they had, and the rest of the arena is not
/// touched.
#[verifier::external_body]
fn sort_range(arena: &mut Vec<Entry>, first: usize, end: usize, axis: Axis)
    requires
        first <= end <= old(arena).len(),
    ensures
        permuted_within(old(arena)@, final(arena)@, first as int, end as int),
        ordered_along(final(arena)@, first as int, end as int, axis),
        stable_within(old(arena)@, final(arena)@, first as int, end as int, axis),
{
    arena[first..end].sort_by_key(|entry| entry.center.axis(axis));
}

/// The smallest box around the boxes of the primitives `first..end`.
pub fn range_box(arena: &Vec<Entry>, first: usize, end: usize) -> (r: Aabb)
    requires
        first <= end <= arena.len(),
    ensures
        r == join(arena@, first as int, end as int),
{
    let mut r = Aabb::empty();
    let mut i: usize = first;
    while i < end
        invariant
            first <= i <= end <= arena.len(),
            r == join(arena@, first as int, i as int),
        decreases end - i,
    {
        r.expand(&arena[i].aabb);
        i = i + 1;
    }
    r
}

/// The cost of every split of the primitives `first..end` in the order they
/// are in: entry `k` is what `split_cost` gives for the smallest boxes around
/// the first `k + 1` primitives and around the rest, with their counts.
pub fn split_costs<FS>(arena: &Vec<Entry>, first: usize, end: usize, split_cost: &FS) -> (costs:
    Vec<u32>) where FS: Fn(&Aabb, usize, &Aabb, usize) -> u32
    requires
        first <= end <= arena.len(),
        forall|l: Aabb, nl: usize, r: Aabb, nr: usize| #[trigger]
            split_cost.requires((&l, nl, &r, nr)),
    ensures
        costs.len() == if end - first >= 1 {
            end - first - 1
        } else {
            0
        },
        forall|k: int|
            0 <= k < costs.len() ==> is_split_cost(
                arena@,
                first as int,
                end as int,
                split_cost,
                k,
                #[trigger] costs@[k],
            ),
{
    let count = end - first;
    // tails[j] is the box around the last j primitives of the range.
    let mut tails: Vec<Aabb> = Vec::new();
    tails.push(Aabb::empty());
    let mut j: usize = 0;
    while j < count
        invariant
            j <= count,
            count == end - first,
            first <= end <= arena.len(),
            tails.len() == j + 1,
            forall|m: int| 0 <= m <= j ==> #[trigger] tails@[m] == join(arena@, end - m, end as int),
        decreases count - j,
    {
        let mut tail = arena[end - j - 1].aabb;
        tail.expand(&tails[j]);
        proof {
            lemma_join_front(arena@, end - j - 1, end as int);
        }
        tails.push(tail);
        j = j + 1;
    }
    let mut costs: Vec<u32> = Vec::new();
    let mut head = Aabb::empty();
    let mut k: usize = 1;
    if count < 2 {
        return costs;
    }
    head.expand(&arena[first].aabb);
    proof {
        assert(join(arena@, first as int, first as int) == Aabb::nothing());
        lemma_union_identity(arena@[first as int].aabb);
    }
    while k < count
        invariant
            1 <= k <= count,
            count == end - first,
            first <= end <= arena.len(),
            tails.len() == count + 1,
            forall|m: int|
                0 <= m <= count ==> #[trigger] tails@[m] == join(arena@, end - m, end as int),
            head == join(arena@, first as int, first + k),
            costs.len() == k - 1,
            forall|l: Aabb, nl: usize, r: Aabb, nr: usize| #[trigger]
                split_cost.requires((&l, nl, &r, nr)),
            forall|m: int|
                0 <= m < costs.len() ==> is_split_cost(
                    arena@,
                    first as int,
                    end as int,
                    split_cost,
                    m,
                    #[trigger] costs@[m],
                ),
        decreases count - k,
    {
        let tail = &tails[count - k];
        let cost = split_cost(&head, k, tail, count - k);
        assert(is_split_cost(arena@, first as int, end as int, split_cost, k - 1, cost));
        costs.push(cost);
        head.expand(&arena[first + k].aabb);
        k = k + 1;
    }
    costs
}

/// `order` holds the primitives of `range` ordered along `axis`, those with
/// equal keys in the order they had, and `costs` lists what `split_cost`
/// gave for every split of that order.
pub open spec fn is_costed_order<FS: Fn(&Aabb, usize, &Aabb, usize) -> u32>(
    range: Seq<Entry>,
    axis: Axis,
    split_cost: &FS,
    order: Seq<Entry>,
    costs: Seq<u32>,
) -> bool {
    &&& order.len() == range.len()
    &&& order.to_multiset() == range.to_multiset()
    &&& ordered_along(order, 0, order.len() as int, axis)
    &&& stable_within(range, order, 0, order.len() as int, axis)
    &&& costs.len() == if order.len() >= 1 {
        order.len() - 1
    } else {
        0
    }
    &&& forall|k: int|
        0 <= k < costs.len() ==> is_split_cost(
            order,
            0,
            order.len() as int,
            split_cost,
            k,
            #[trigger] costs[k],
        )
}

/// Where no cost that was listed for an order along `axis` is less than
/// `kept`, no split on that axis costs less than `kept`.
pub proof fn lemma_costed_order_settles<FS: Fn(&Aabb, usize, &Aabb, usize) -> u32>(
    range: Seq<Entry>,
    axis: Axis,
    split_cost: &FS,
    order: Seq<Entry>,
    costs: Seq<u32>,
    kept: u32,
)
    requires
        is_costed_order(range, axis, split_cost, order, costs),
        forall|k: int| 0 <= k < costs.len() ==> #[trigger] costs[k] >= kept,
    ensures
        no_cheaper_split(range, axis, split_cost, kept),
{
    assert forall|k: int| 0 <= k < order.len() - 1 implies #[trigger] split_not_cheaper(
        order,
        split_cost,
        k,
        kept,
    ) by {
        assert(is_split_cost(order, 0, order.len() as int, split_cost, k, costs[k]));
    }
    assert(order.to_multiset() == range.to_multiset());
}

/// The primitives `first..end` ordered along `axis`, and the cost of every
/// split of that order. The arena itself is not reordered.
pub fn costs_along<FS>(
    arena: &Vec<Entry>,
    first: usize,
    end: usize,
    axis: Axis,
    split_cost: &FS,
) -> (r: (Vec<Entry>, Vec<u32>)) where FS: Fn(&Aabb, usize, &Aabb, usize) -> u32
    requires
        first <= end <= arena.len(),
        forall|l: Aabb, nl: usize, r: Aabb, nr: usize| #[trigger]
            split_cost.requires((&l, nl, &r, nr)),
    ensures
        is_costed_order(arena@.subrange(first as int, end as int), axis, split_cost, r.0@, r.1@),
{
    let count = end - first;
    let ghost range = arena@.subrange(first as int, end as int);
    let mut order = copy_range(arena, first, end);
    sort_range(&mut order, 0, count, axis);
    let costs = split_costs(&order, 0, count, split_cost);
    proof {
        assert(range.subrange(0, count as int) =~= range);
        assert(order@.subrange(0, count as int) =~= order@);
    }
    (order, costs)
}

/// Looks for the split of the primitives `first..end` that pays off most.
/// The splits are those of the primitives ordered along each axis in turn,
/// and `choose_split` decides among their costs against `leaf_cost`, the
/// cost of keeping the range as a leaf. Where it chooses a split, no split
/// on any axis costs less, the primitives are put in the order in which the
/// split was costed, and the split's cost is what `split_cost` gave for the
/// two parts as they then lie. Where it chooses none, no split costs less
/// than the leaf, and the arena is not touched.
pub fn best_split<FS>(
    arena: &mut Vec<Entry>,
    first: usize,
    end: usize,
    leaf_cost: u32,
    split_cost: &FS,
) -> (r: Option<Split>) where FS: Fn(&Aabb, usize, &Aabb, usize) -> u32
    requires
        first <= end <= old(arena).len(),
        forall|l: Aabb, nl: usize, r: Aabb, nr: usize| #[trigger]
            split_cost.requires((&l, nl, &r, nr)),
    ensures
        r is None ==> final(arena)@ == old(arena)@ && no_split_pays(
            old(arena)@.subrange(first as int, end as int),
            split_cost,
            leaf_cost,
        ),
        r matches Some(split) ==> {
            &&& permuted_within(old(arena)@, final(arena)@, first as int, end as int)
            &&& ordered_along(final(arena)@, first as int, end as int, split.axis)
            &&& stable_within(old(arena)@, final(arena)@, first as int, end as int, split.axis)
            &&& 1 <= split.at < end - first
            &&& split.cost < leaf_cost
            &&& no_split_pays(
                old(arena)@.subrange(first as int, end as int),
                split_cost,
                split.cost,
            )
            &&& is_split_cost(
                final(arena)@,
                first as int,
                end as int,
                split_cost,
                split.at - 1,
                split.cost,
            )
        },
{
    let count = end - first;
    let ghost range = arena@.subrange(first as int, end as int);
    let (along_x, costs_x) = costs_along(arena, first, end, Axis::X, split_cost);
    let (along_y, costs_y) = costs_along(arena, first, end, Axis::Y, split_cost);
    let (along_z, costs_z) = costs_along(arena, first, end, Axis::Z, split_cost);
    let ghost lists = cost_lists(costs_x@, costs_y@, costs_z@);
    assert(lists[0] == costs_x@ && lists[1] == costs_y@ && lists[2] == costs_z@);
    let chosen = choose_split(&costs_x, &costs_y, &costs_z, count, leaf_cost);
    let ghost floor = match chosen {
        Some(split) => split.cost,
        None => leaf_cost,
    };
    proof {
        assert forall|a: int, k: int| 0 <= a < 3 && 0 <= k < lists[a].len() implies #[trigger]
            lists[a][k] >= floor by {
            assert(is_candidate_on(lists, count as int, a, k));
        }
        lemma_costed_order_settles(range, Axis::X, split_cost, along_x@, costs_x@, floor);
        lemma_costed_order_settles(range, Axis::Y, split_cost, along_y@, costs_y@, floor);
        lemma_costed_order_settles(range, Axis::Z, split_cost, along_z@, costs_z@, floor);
        assert forall|axis: Axis| #[trigger] no_cheaper_split(range, axis, split_cost, floor) by {
            match axis {
                Axis::X => {},
                Axis::Y => {},
                Axis::Z => {},
            }
        }
    }
    match chosen {
        None => None,
        Some(split) => {
            let order = match split.axis {
                Axis::X => &along_x,
                Axis::Y => &along_y,
                Axis::Z => &along_z,
            };
            let ghost before = arena@;
            store_range(arena, first, order);
            proof {
                lemma_stored_order(
                    before,
                    arena@,
                    first as int,
                    end as int,
                    split.axis,
                    split_cost,
                    order@,
                    lists[split.axis.index() as int],
                    split.at - 1,
                );
            }
            Some(split)
        },
    }
}

/// Where the primitives of a range are replaced by a costed order of them,
/// the arena is reordered inside the range alone, the range is ordered as
/// the order is, and a cost that was listed for a split of the order is the
/// cost of that split of the range.
pub proof fn lemma_stored_order<FS: Fn(&Aabb, usize, &Aabb, usize) -> u32>(
    before: Seq<Entry>,
    after: Seq<Entry>,
    lo: int,
    hi: int,
    axis: Axis,
    split_cost: &FS,
    order: Seq<Entry>,
    costs: Seq<u32>,
    k: int,
)
    requires
        0 <= lo <= hi <= before.len(),
        is_costed_order(before.subrange(lo, hi), axis, split_cost, order, costs),
        after.len() == before.len(),
        after.subrange(lo, hi) == order,
        forall|p: int| 0 <= p < before.len() && !(lo <= p < hi) ==> after[p] == before[p],
        0 <= k < costs.len(),
    ensures
        permuted_within(before, after, lo, hi),
        ordered_along(after, lo, hi, axis),
        stable_within(before, after, lo, hi, axis),
        is_split_cost(after, lo, hi, split_cost, k, costs[k]),
{
    let range = before.subrange(lo, hi);
    let count = hi - lo;
    assert(range.subrange(0, count) =~= range);
    assert(order.subrange(0, count) =~= order);
    assert forall|p: int| lo <= p < hi implies after[p] == order[p - lo] by {
        assert(after.subrange(lo, hi)[p - lo] == after[p]);
    }
    assert forall|i: int, j: int| lo <= i <= j < hi implies after[i].center.along(axis)
        <= after[j].center.along(axis) by {
        assert(after[i] == order[i - lo] && after[j] == order[j - lo]);
    }
    assert forall|at: u32| #[trigger] same_order_at(before, after, lo, hi, axis, at) by {
        assert(same_order_at(range, order, 0, count, axis, at));
    }
    lemma_join_shift(after, order, lo, lo + k + 1, lo);
    lemma_join_shift(after, order, lo + k + 1, hi, lo);
    assert(is_split_cost(order, 0, count, split_cost, k, costs[k]));
}

impl Bvh {
    /// Builds the hierarchy over the primitives in `entries`. The arena holds
    /// the same primitives, reordered so that every node spans a contiguous
    /// range. `leaf_cost` gives the cost of keeping a box with that many
    /// primitives as one leaf; `split_cost` gives the cost of a split into two
    /// boxes with their counts. A range becomes two children only where
    /// `choose_split` finds a split that costs less than the leaf.
    pub fn new<FC, FS>(entries: Vec<Entry>, leaf_cost: &FC, split_cost: &FS) -> (bvh: Bvh) where
        FC: Fn(&Aabb, usize) -> u32,
        FS: Fn(&Aabb, usize, &Aabb, usize) -> u32,

        requires
            build_callable(leaf_cost, split_cost),
        ensures
            bvh.wf(),
            bvh.tight(),
            all_pay(bvh.nodes@, leaf_cost, split_cost),
            all_settled(bvh.nodes@, bvh.arena@, leaf_cost, split_cost),
            bvh.arena@.to_multiset() == entries@.to_multiset(),
            bvh.nodes.len() <= 1 + growth_bound(entries.len() as int),
    {
        let count = entries.len();
        let root_box = range_box(&entries, 0, count);
        let mut nodes: Vec<BvhNode> = Vec::new();
        nodes.push(BvhNode::new(root_box, 0, count));
        let mut bvh = Bvh { nodes, arena: entries };
        assert(node_ok(bvh.nodes@, 0, count as int));
        assert(node_pays(bvh.nodes@, 0, leaf_cost, split_cost));
        bvh.subdivide(0, leaf_cost, split_cost);
        proof {
            assert(bvh.arena@.subrange(0, count as int) =~= bvh.arena@);
            assert(entries@.subrange(0, count as int) =~= entries@);
        }
        bvh
    }

    /// Subdivides the leaf at `idx_of_target`, and then its children, as long
    /// as `choose_split` finds a split that costs less than the leaf. The
    /// splits of a leaf are those of its primitives ordered along each axis
    /// in turn; the primitives are put in the order of the split chosen and
    /// stay where they are where none is. The two children of a split node
    /// are appended to the array, left then right, and every node that is
    /// added spans a part of the leaf's range and has the smallest box around
    /// it. No other node and no other primitive changes. An inner node is left
    /// as it is.
    #[verifier::spinoff_prover]
    #[verifier::rlimit(40)]
    pub fn subdivide<FC, FS>(&mut self, idx_of_target: usize, leaf_cost: &FC, split_cost: &FS) where
        FC: Fn(&Aabb, usize) -> u32,
        FS: Fn(&Aabb, usize, &Aabb, usize) -> u32,

        requires
            old(self).wf(),
            idx_of_target < old(self).nodes.len(),
            node_tight(old(self).nodes@, old(self).arena@, idx_of_target as int),
            all_pay(old(self).nodes@, leaf_cost, split_cost),
            build_callable(leaf_cost, split_cost),
        ensures
            final(self).wf(),
            all_pay(final(self).nodes@, leaf_cost, split_cost),
            final(self).nodes.len() >= old(self).nodes.len(),
            permuted_within(
                old(self).arena@,
                final(self).arena@,
                old(self).nodes@[idx_of_target as int].first(),
                old(self).nodes@[idx_of_target as int].end(),
            ),
            forall|j: int|
                0 <= j < old(self).nodes.len() ==> final(self).nodes@[j].span@ == old(
                    self).nodes@[j].span@ && final(self).nodes@[j].aabb == old(self).nodes@[j].aabb,
            forall|j: int|
                0 <= j < old(self).nodes.len() && j != idx_of_target ==> final(self).nodes@[j]
                    == old(self).nodes@[j],
            node_tight(final(self).nodes@, final(self).arena@, idx_of_target as int),
            node_settled(
                final(self).nodes@,
                final(self).arena@,
                idx_of_target as int,
                leaf_cost,
                split_cost,
            ),
            forall|j: int|
                old(self).nodes.len() <= j < final(self).nodes.len() ==> #[trigger] node_settled(
                    final(self).nodes@,
                    final(self).arena@,
                    j,
                    leaf_cost,
                    split_cost,
                ),
            forall|j: int|
                old(self).nodes.len() <= j < final(self).nodes.len() ==> old(
                    self).nodes@[idx_of_target as int].first() <= (#[trigger] final(
                    self).nodes@[j]).first() && final(self).nodes@[j].end() <= old(
                    self).nodes@[idx_of_target as int].end(),
            forall|j: int|
                old(self).nodes.len() <= j < final(self).nodes.len() ==> #[trigger] node_tight(
                    final(self).nodes@,
                    final(self).arena@,
                    j,
                ),
            old(self).nodes@[idx_of_target as int].link is Inner ==> final(self).nodes@ == old(
                self).nodes@ && final(self).arena@ == old(self).arena@,
            final(self).nodes.len() - old(self).nodes.len() <= growth_bound(
                old(self).nodes@[idx_of_target as int].end() - old(
                    self).nodes@[idx_of_target as int].first(),
            ),
        decreases
                old(self).nodes@[idx_of_target as int].end() - old(
                    self).nodes@[idx_of_target as int].first(),
    {
        let ghost n0 = self.nodes@;
        let ghost a0 = self.arena@;
        let ghost n = self.arena.len() as int;
        assert(node_ok(n0, idx_of_target as int, n));
        let (first, count) = match self.nodes[idx_of_target].link {
            Link::Leaf { first, count } => (first, count),
            Link::Inner { left } => {
                return ;
            },
        };
        if count < 2 {
            return ;
        }
        let end = first + count;
        let ghost lo = first as int;
        let ghost hi = end as int;
        let parent_cost = leaf_cost(&self.nodes[idx_of_target].aabb, count);
        let split = match best_split(&mut self.arena, first, end, parent_cost, split_cost) {
            Some(split) => split,
            None => {
                return ;
            },
        };
        let ghost a4 = self.arena@;
        let mid = first + split.at;
        let left_box = range_box(&self.arena, first, mid);
        let right_box = range_box(&self.arena, mid, end);
        proof {
            lemma_join_permuted(a0, a4, lo, hi);
        }
        let idx_of_next = self.nodes.len();
        let aabb = self.nodes[idx_of_target].aabb;
        self.nodes.set(
            idx_of_target,
            BvhNode {
                aabb,
                link: Link::Inner { left: idx_of_next },
                span: Ghost((first as int, end as int)),
            },
        );
        self.nodes.push(BvhNode::new(left_box, first, split.at));
        self.nodes.push(BvhNode::new(right_box, mid, end - mid));
        let ghost n4 = self.nodes@;
        assert forall|i: int| 0 <= i < n4.len() implies #[trigger] node_ok(n4, i, n) by {
            if i < n0.len() {
                assert(node_ok(n0, i, n));
            }
        }
        assert forall|i: int| 0 <= i < n4.len() implies #[trigger] node_pays(
            n4,
            i,
            leaf_cost,
            split_cost,
        ) by {
            if i == idx_of_target {
                assert(leaf_cost.ensures((&n4[i].aabb, count), parent_cost));
                assert(is_split_cost(a4, lo, hi, split_cost, split.at - 1, split.cost));
                assert(split_cost.ensures(
                    (&left_box, split.at, &right_box, (count - split.at) as usize),
                    split.cost,
                ));
            } else if i < n0.len() {
                assert(node_pays(n0, i, leaf_cost, split_cost));
                assert(node_ok(n0, i, n));
            }
        }
        self.subdivide(idx_of_next, leaf_cost, split_cost);
        let ghost n5 = self.nodes@;
        let ghost a5 = self.arena@;
        proof {
            lemma_join_agree(a4, a5, mid as int, hi);
            lemma_permuted_widen(a4, a5, lo, mid as int, lo, hi);
            lemma_permuted_twice(a0, a4, a5, lo, hi);
        }
        self.subdivide(idx_of_next + 1, leaf_cost, split_cost);
        let ghost n6 = self.nodes@;
        let ghost a6 = self.arena@;
        proof {
            lemma_permuted_widen(a5, a6, mid as int, hi, lo, hi);
            lemma_permuted_twice(a0, a5, a6, lo, hi);
            lemma_join_permuted(a0, a6, lo, hi);
            assert forall|j: int| n0.len() <= j < n6.len() implies lo <= (#[trigger] n6[j]).first()
                && n6[j].end() <= hi by {
                if j == idx_of_next || j == idx_of_next + 1 {
                    assert(n6[j].span@ == n5[j].span@);
                    assert(n5[j].span@ == n4[j].span@);
                } else if j < n5.len() {
                    assert(n6[j] == n5[j]);
                    assert(lo <= n5[j].first() && n5[j].end() <= mid);
                }
            }
            assert forall|j: int| n0.len() <= j < n6.len() implies #[trigger] node_tight(
                n6,
                a6,
                j,
            ) by {
                if j != idx_of_next + 1 && j < n5.len() {
                    assert(node_tight(n5, a5, j));
                    assert(n6[j] == n5[j]);
                    if j < n4.len() {
                        assert(n5[j].span@ == n4[j].span@);
                    }
                    assert(lo <= n5[j].first() && n5[j].end() <= mid);
                    lemma_join_agree(a5, a6, n5[j].first(), n5[j].end());
                }
            }
            assert forall|j: int| n0.len() <= j < n6.len() implies #[trigger] node_settled(
                n6,
                a6,
                j,
                leaf_cost,
                split_cost,
            ) by {
                if j != idx_of_next + 1 && j < n5.len() {
                    assert(node_settled(n5, a5, j, leaf_cost, split_cost));
                    assert(n6[j] == n5[j]);
                    assert(node_ok(n5, j, n));
                    if j < n4.len() {
                        assert(n5[j].span@ == n4[j].span@);
                    }
                    assert(lo <= n5[j].first() && n5[j].end() <= mid);
                    assert(a6.subrange(n5[j].first(), n5[j].end()) =~= a5.subrange(
                        n5[j].first(),
                        n5[j].end(),
                    ));
                }
            }
        }
    }
}

} // verus!
