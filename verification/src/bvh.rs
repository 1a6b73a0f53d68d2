//! The bounding-volume hierarchy: a flat array of nodes over a contiguous
//! arena of primitives, and the nearest-hit query that walks it.
//!
//! The hierarchy knows of a primitive its box and the centre of that box.
//! Whether a ray meets a box or a primitive is asked of the caller. A
//! distance along the ray is an unsigned key, ordered as the distance is.

use vstd::prelude::*;
use crate::aabb::{Aabb, Point, lemma_union_is_tight};

verus! {

/// One accepted intersection: the primitive's position in the arena and the
/// key of the distance along the ray.
#[derive(Clone, Copy, Debug, PartialEq, Eq, Structural)]
pub struct Hit {
    pub primitive: usize,
    pub t: u32,
}

/// What the hierarchy knows of one primitive: the position it had in the
/// caller's list, its box, and the centre of its box.
#[derive(Clone, Copy, Debug, PartialEq, Eq, Structural)]
pub struct Entry {
    pub id: usize,
    pub aabb: Aabb,
    pub center: Point,
}

/// What a node leads to: a range of the arena, or two child nodes. The right
/// child is the array successor of the left one.
#[derive(Clone, Copy, Debug)]
pub enum Link {
    Leaf { first: usize, count: usize },
    Inner { left: usize },
}

/// A node of the hierarchy. `span` is the range of the arena below the node;
/// an inner node carries it for proofs only.
pub struct BvhNode {
    pub aabb: Aabb,
    pub link: Link,
    pub span: Ghost<(int, int)>,
}

/// The hierarchy and the arena it was built over. The root is node 0.
pub struct Bvh {
    pub nodes: Vec<BvhNode>,
    pub arena: Vec<Entry>,
}

/// The nearer of two results. On equal distances the first one stays.
pub open spec fn nearer(a: Option<Hit>, b: Option<Hit>) -> Option<Hit> {
    match (a, b) {
        (Some(x), Some(y)) => if y.t < x.t { b } else { a },
        (Some(_), None) => a,
        (None, _) => b,
    }
}

/// The result of testing primitive `i` alone.
pub open spec fn probe(hits: spec_fn(int) -> Option<u32>, i: int) -> Option<Hit> {
    match hits(i) {
        Some(t) => Some(Hit { primitive: i as usize, t }),
        None => None,
    }
}

/// The linear scan over the primitives `lo..hi`: the nearest hit, and among
/// equally near ones the first.
pub open spec fn scan(hits: spec_fn(int) -> Option<u32>, lo: int, hi: int) -> Option<Hit>
    decreases hi - lo,
{
    if lo >= hi {
        None
    } else {
        nearer(scan(hits, lo, hi - 1), probe(hits, hi - 1))
    }
}

/// The smallest box around the boxes of the primitives `lo..hi`.
pub open spec fn join(arena: Seq<Entry>, lo: int, hi: int) -> Aabb
    decreases hi - lo,
{
    if lo >= hi {
        Aabb::nothing()
    } else {
        join(arena, lo, hi - 1).union(arena[hi - 1].aabb)
    }
}

/// What node `i` alone must satisfy in a hierarchy over `n` primitives.
pub open spec fn node_ok(nodes: Seq<BvhNode>, i: int, n: int) -> bool {
    let node = nodes[i];
    &&& 0 <= node.span@.0 <= node.span@.1 <= n
    &&& match node.link {
        Link::Leaf { first, count } => node.span@ == (first as int, first + count),
        Link::Inner { left } => {
            &&& i < left
            &&& left + 1 < nodes.len()
            &&& nodes[left as int].span@.0 == node.span@.0
            &&& nodes[left as int].span@.1 == nodes[left + 1].span@.0
            &&& nodes[left + 1].span@.1 == node.span@.1
            &&& nodes[left as int].span@.0 < nodes[left as int].span@.1
            &&& nodes[left + 1].span@.0 < nodes[left + 1].span@.1
        },
    }
}

/// Every node satisfies `node_ok`.
pub open spec fn all_ok(nodes: Seq<BvhNode>, n: int) -> bool {
    forall|i: int| 0 <= i < nodes.len() ==> #[trigger] node_ok(nodes, i, n)
}

/// The box of node `i` is the smallest box around the primitives below it.
pub open spec fn node_tight(nodes: Seq<BvhNode>, arena: Seq<Entry>, i: int) -> bool {
    nodes[i].aabb == join(arena, nodes[i].span@.0, nodes[i].span@.1)
}

/// The result of the query at node `i`: nothing where the box test fails, the
/// scan of the range at a leaf, the nearer of the two children's results at
/// an inner node.
pub open spec fn nearest(
    nodes: Seq<BvhNode>,
    i: int,
    boxes: spec_fn(Aabb) -> bool,
    hits: spec_fn(int) -> Option<u32>,
) -> Option<Hit>
    decreases nodes.len() - i,
{
    if i < 0 || i >= nodes.len() || !boxes(nodes[i].aabb) {
        None
    } else {
        match nodes[i].link {
            Link::Leaf { first, count } => scan(hits, first as int, first + count),
            Link::Inner { left } => {
                if i < left && left + 1 < nodes.len() {
                    nearer(
                        nearest(nodes, left as int, boxes, hits),
                        nearest(nodes, left + 1, boxes, hits),
                    )
                } else {
                    None
                }
            },
        }
    }
}

/// The box test gives one answer for each box.
pub open spec fn box_test_decides<FB: Fn(&Aabb) -> bool>(f: &FB) -> bool {
    forall|b: Aabb, r1: bool, r2: bool|
        f.ensures((&b,), r1) && f.ensures((&b,), r2) ==> r1 == r2
}

/// The primitive test gives one answer for each primitive.
pub open spec fn prim_test_decides<FP: Fn(usize) -> Option<u32>>(f: &FP) -> bool {
    forall|i: usize, r1: Option<u32>, r2: Option<u32>|
        f.ensures((i,), r1) && f.ensures((i,), r2) ==> r1 == r2
}

/// The answers of a box test, as a function of the box.
pub open spec fn box_answers<FB: Fn(&Aabb) -> bool>(f: &FB) -> spec_fn(Aabb) -> bool {
    |b: Aabb| choose|r: bool| f.ensures((&b,), r)
}

/// The answers of a primitive test, as a function of the position.
pub open spec fn prim_answers<FP: Fn(usize) -> Option<u32>>(f: &FP) -> spec_fn(int) -> Option<
    u32,
> {
    |i: int|
        {
            let at = i as usize;
            choose|r: Option<u32>| f.ensures((at,), r)
        }
}

/// The smallest box around a range encloses the box of each primitive in it.
pub proof fn lemma_join_encloses(arena: Seq<Entry>, lo: int, hi: int, p: int)
    requires
        lo <= p < hi,
    ensures
        join(arena, lo, hi).encloses(arena[p].aabb),
    decreases hi - lo,
{
    lemma_union_is_tight(join(arena, lo, hi - 1), arena[hi - 1].aabb, Aabb::nothing());
    if p < hi - 1 {
        lemma_join_encloses(arena, lo, hi - 1, p);
    }
}

/// The linear scan: tests the primitives `first..end` one after the other
/// and keeps the nearest hit, the first among equally near ones. A later hit
/// replaces the one kept only where it is strictly nearer.
pub fn scan_range<FP>(first: usize, end: usize, prim_test: &FP) -> (best: Option<Hit>) where
    FP: Fn(usize) -> Option<u32>,

    requires
        first <= end,
        forall|i: usize| first <= i < end ==> prim_test.requires((i,)),
        prim_test_decides(prim_test),
    ensures
        best == scan(prim_answers(prim_test), first as int, end as int),
{
    let ghost hits = prim_answers(prim_test);
    let mut best: Option<Hit> = None;
    let mut j: usize = first;
    while j < end
        invariant
            first <= j <= end,
            best == scan(hits, first as int, j as int),
            hits == prim_answers(prim_test),
            prim_test_decides(prim_test),
            forall|i: usize| first <= i < end ==> prim_test.requires((i,)),
        decreases end - j,
    {
        let found = prim_test(j);
        assert(hits(j as int) == found);
        if let Some(t) = found {
            let improves = match best {
                Some(b) => t < b.t,
                None => true,
            };
            if improves {
                best = Some(Hit { primitive: j, t });
            }
        }
        j = j + 1;
    }
    best
}

impl BvhNode {
    /// The first primitive below the node.
    pub open spec fn first(&self) -> int {
        self.span@.0
    }

    /// One past the last primitive below the node.
    pub open spec fn end(&self) -> int {
        self.span@.1
    }

    /// A leaf over the `primitive_count` primitives from `first` on.
    pub fn new(aabb: Aabb, first: usize, primitive_count: usize) -> (node: BvhNode)
        requires
            first + primitive_count <= usize::MAX,
        ensures
            node.aabb == aabb,
            node.link == (Link::Leaf { first, count: primitive_count }),
            node.span@ == (first as int, first + primitive_count),
    {
        BvhNode {
            aabb,
            link: Link::Leaf { first, count: primitive_count },
            span: Ghost((first as int, first + primitive_count)),
        }
    }
}

impl Bvh {
    /// The hierarchy is well formed: the root spans the whole arena, a leaf
    /// spans its range, and the two children of an inner node lie behind it in
    /// the array and split its span into two non-empty parts.
    pub open spec fn wf(&self) -> bool {
        &&& self.nodes.len() >= 1
        &&& self.nodes@[0].span@ == (0int, self.arena.len() as int)
        &&& all_ok(self.nodes@, self.arena.len() as int)
    }

    /// Every node's box is the smallest box around the primitives below it.
    pub open spec fn tight(&self) -> bool {
        forall|i: int| 0 <= i < self.nodes.len() ==> #[trigger] node_tight(
            self.nodes@,
            self.arena@,
            i,
        )
    }

    /// The nearest hit in the whole scene, where the box test misses nothing:
    /// the hit that testing every primitive of the arena in turn would find.
    pub fn nearest_hit<FB, FP>(&self, box_test: &FB, prim_test: &FP) -> (r: Option<Hit>) where
        FB: Fn(&Aabb) -> bool,
        FP: Fn(usize) -> Option<u32>,

        requires
            self.wf(),
            forall|b: Aabb| box_test.requires((&b,)),
            forall|i: usize| i < self.arena.len() ==> prim_test.requires((i,)),
            box_test_decides(box_test),
            prim_test_decides(prim_test),
            boxes_sound(self.nodes@, box_answers(box_test), prim_answers(prim_test)),
        ensures
            r == scan(prim_answers(prim_test), 0, self.arena.len() as int),
            r == nearest(self.nodes@, 0, box_answers(box_test), prim_answers(prim_test)),
    {
        proof {
            lemma_nearest_is_scan(
                self.nodes@,
                self.arena.len() as int,
                0,
                box_answers(box_test),
                prim_answers(prim_test),
            );
        }
        self.hit(0, box_test, prim_test)
    }

    /// The nearest hit below node `node_idx`. `box_test` says whether the ray
    /// meets a box; `prim_test` gives the distance key at which the ray meets
    /// the primitive at a position of the arena, if it does. A subtree is
    /// entered only where the box test succeeds, and a primitive is tested
    /// only in a leaf that was entered.
    pub fn hit<FB, FP>(&self, node_idx: usize, box_test: &FB, prim_test: &FP) -> (r: Option<Hit>)
        where FB: Fn(&Aabb) -> bool, FP: Fn(usize) -> Option<u32>
        requires
            self.wf(),
            node_idx < self.nodes.len(),
            forall|b: Aabb| box_test.requires((&b,)),
            forall|i: usize| i < self.arena.len() ==> prim_test.requires((i,)),
            box_test_decides(box_test),
            prim_test_decides(prim_test),
        ensures
            r == nearest(
                self.nodes@,
                node_idx as int,
                box_answers(box_test),
                prim_answers(prim_test),
            ),
        decreases self.nodes.len() - node_idx,
    {
        let ghost boxes = box_answers(box_test);
        let ghost hits = prim_answers(prim_test);
        let current = &self.nodes[node_idx];
        assert(node_ok(self.nodes@, node_idx as int, self.arena.len() as int));
        let entered = box_test(&current.aabb);
        assert(boxes(current.aabb) == entered);
        if !entered {
            return None;
        }
        match current.link {
            Link::Leaf { first, count } => {
                scan_range(first, first + count, prim_test)
            },
            Link::Inner { left } => {
                let left_hit = self.hit(left, box_test, prim_test);
                let right_hit = self.hit(left + 1, box_test, prim_test);
                match (left_hit, right_hit) {
                    (Some(l), Some(r)) => if r.t < l.t { right_hit } else { left_hit },
                    (Some(_), None) => left_hit,
                    (None, _) => right_hit,
                }
            },
        }
    }
}

/// The box answers miss nothing: where a node's box test fails, no primitive
/// in the node's span is hit.
pub open spec fn boxes_sound(
    nodes: Seq<BvhNode>,
    boxes: spec_fn(Aabb) -> bool,
    hits: spec_fn(int) -> Option<u32>,
) -> bool {
    forall|i: int, p: int|
        0 <= i < nodes.len() && !boxes(#[trigger] nodes[i].aabb) && nodes[i].span@.0 <= p
            < nodes[i].span@.1 ==> (#[trigger] hits(p)) is None
}

/// A box test that succeeds on a box succeeds on every box around it.
pub open spec fn box_test_monotone(boxes: spec_fn(Aabb) -> bool) -> bool {
    forall|outer: Aabb, inner: Aabb| #[trigger]
        outer.encloses(inner) && boxes(inner) ==> boxes(outer)
}

/// A scan of a range is the nearer of the scans of its two parts.
pub proof fn lemma_scan_split(hits: spec_fn(int) -> Option<u32>, lo: int, mid: int, hi: int)
    requires
        lo <= mid <= hi,
    ensures
        scan(hits, lo, hi) == nearer(scan(hits, lo, mid), scan(hits, mid, hi)),
    decreases hi - mid,
{
    if mid < hi {
        lemma_scan_split(hits, lo, mid, hi - 1);
    }
}

/// A scan of a range in which no primitive is hit returns nothing.
pub proof fn lemma_scan_of_misses(hits: spec_fn(int) -> Option<u32>, lo: int, hi: int)
    requires
        forall|p: int| lo <= p < hi ==> (#[trigger] hits(p)) is None,
    ensures
        scan(hits, lo, hi) is None,
    decreases hi - lo,
{
    if lo < hi {
        lemma_scan_of_misses(hits, lo, hi - 1);
    }
}

/// What the linear scan returns: nothing exactly when no primitive of the
/// range is hit; otherwise a primitive of the range with its own distance,
/// which no other primitive of the range undercuts, and which is the first
/// among those that are as near.
pub proof fn lemma_scan_is_nearest(hits: spec_fn(int) -> Option<u32>, lo: int, hi: int)
    requires
        0 <= lo <= hi <= usize::MAX,
    ensures
        scan(hits, lo, hi) is None <==> (forall|p: int|
            lo <= p < hi ==> (#[trigger] hits(p)) is None),
        scan(hits, lo, hi) matches Some(h) ==> {
            &&& lo <= h.primitive < hi
            &&& hits(h.primitive as int) == Some(h.t)
            &&& forall|p: int|
                lo <= p < hi ==> ((#[trigger] hits(p)) matches Some(t) ==> h.t <= t && (t == h.t
                    ==> h.primitive <= p))
        },
    decreases hi - lo,
{
    if lo < hi {
        lemma_scan_is_nearest(hits, lo, hi - 1);
    }
}

/// The query equals the linear scan. In a well-formed hierarchy whose box
/// answers miss nothing, the query at a node returns what a scan of every
/// primitive in the node's span returns.
pub proof fn lemma_nearest_is_scan(
    nodes: Seq<BvhNode>,
    n: int,
    i: int,
    boxes: spec_fn(Aabb) -> bool,
    hits: spec_fn(int) -> Option<u32>,
)
    requires
        all_ok(nodes, n),
        0 <= i < nodes.len(),
        boxes_sound(nodes, boxes, hits),
    ensures
        nearest(nodes, i, boxes, hits) == scan(hits, nodes[i].span@.0, nodes[i].span@.1),
    decreases nodes.len() - i,
{
    let lo = nodes[i].span@.0;
    let hi = nodes[i].span@.1;
    assert(node_ok(nodes, i, n));
    if !boxes(nodes[i].aabb) {
        lemma_scan_of_misses(hits, lo, hi);
    } else {
        match nodes[i].link {
            Link::Leaf { first, count } => {},
            Link::Inner { left } => {
                lemma_nearest_is_scan(nodes, n, left as int, boxes, hits);
                lemma_nearest_is_scan(nodes, n, left + 1, boxes, hits);
                lemma_scan_split(hits, lo, nodes[left as int].span@.1, hi);
            },
        }
    }
}

/// The query at the root of a well-formed hierarchy equals the linear scan
/// of the whole arena.
pub proof fn lemma_query_is_brute_force(
    bvh: Bvh,
    boxes: spec_fn(Aabb) -> bool,
    hits: spec_fn(int) -> Option<u32>,
)
    requires
        bvh.wf(),
        boxes_sound(bvh.nodes@, boxes, hits),
    ensures
        nearest(bvh.nodes@, 0, boxes, hits) == scan(hits, 0, bvh.arena.len() as int),
{
    lemma_nearest_is_scan(bvh.nodes@, bvh.arena.len() as int, 0, boxes, hits);
}

/// In a hierarchy with tight boxes, the box answers miss nothing as soon as
/// the box test is monotone and a primitive is hit only where the test
/// succeeds on the primitive's own box.
pub proof fn lemma_tight_boxes_are_sound(
    bvh: Bvh,
    boxes: spec_fn(Aabb) -> bool,
    hits: spec_fn(int) -> Option<u32>,
)
    requires
        bvh.wf(),
        bvh.tight(),
        box_test_monotone(boxes),
        forall|p: int|
            0 <= p < bvh.arena.len() && (#[trigger] hits(p)) is Some ==> boxes(
                bvh.arena@[p].aabb,
            ),
    ensures
        boxes_sound(bvh.nodes@, boxes, hits),
{
    let nodes = bvh.nodes@;
    let arena = bvh.arena@;
    assert forall|i: int, p: int|
        0 <= i < nodes.len() && !boxes(#[trigger] nodes[i].aabb) && nodes[i].span@.0 <= p
            < nodes[i].span@.1 implies (#[trigger] hits(p)) is None by {
        assert(node_ok(nodes, i, arena.len() as int));
        assert(node_tight(nodes, arena, i));
        lemma_join_encloses(arena, nodes[i].span@.0, nodes[i].span@.1, p);
        assert(nodes[i].aabb.encloses(arena[p].aabb));
    }
}

} // verus!
