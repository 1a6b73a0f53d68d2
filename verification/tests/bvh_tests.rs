use pathtracer::aabb::{Aabb, Point};
use pathtracer::axis::Axis;
use pathtracer::builder::{best_split, copy_range, costs_along, range_box, split_costs, store_range};
use pathtracer::bvh::{scan_range, Bvh, Entry, Hit, Link};
use pathtracer::interval::Interval;
use rand::Rng;
use rand::SeedableRng;
use rand_chacha::ChaCha8Rng;

fn extent(i: &Interval) -> u64 {
    if i.max >= i.min {
        (i.max - i.min) as u64
    } else {
        0
    }
}

fn half_area(b: &Aabb) -> u64 {
    let (x, y, z) = (extent(&b.x), extent(&b.y), extent(&b.z));
    x * y + y * z + z * x
}

fn to_key(cost: u64) -> u32 {
    if cost > u32::MAX as u64 {
        u32::MAX
    } else {
        cost as u32
    }
}

fn leaf_cost(b: &Aabb, n: usize) -> u32 {
    to_key(half_area(b) * n as u64)
}

fn split_cost(l: &Aabb, nl: usize, r: &Aabb, nr: usize) -> u32 {
    to_key(half_area(l) * nl as u64 + half_area(r) * nr as u64)
}

fn entry(id: usize, lo: (u32, u32, u32), hi: (u32, u32, u32)) -> Entry {
    Entry {
        id,
        aabb: Aabb::new_between(Point::new(lo.0, lo.1, lo.2), Point::new(hi.0, hi.1, hi.2)),
        center: Point::new(
            lo.0 / 2 + hi.0 / 2,
            lo.1 / 2 + hi.1 / 2,
            lo.2 / 2 + hi.2 / 2,
        ),
    }
}

fn random_scene(rng: &mut ChaCha8Rng, n: usize) -> Vec<Entry> {
    let mut entries = Vec::new();
    for id in 0..n {
        let x: u32 = rng.random_range(0..1000);
        let y: u32 = rng.random_range(0..1000);
        let z: u32 = rng.random_range(0..1000);
        let w: u32 = rng.random_range(0..60);
        let h: u32 = rng.random_range(0..60);
        let d: u32 = rng.random_range(0..60);
        entries.push(entry(id, (x, y, z), (x + w, y + h, z + d)));
    }
    entries
}

fn union_of(entries: &[Entry]) -> Aabb {
    let mut b = Aabb::empty();
    for e in entries {
        b.expand(&e.aabb);
    }
    b
}

// Walks the hierarchy and returns the range below node `i`, checking on the
// way that the ranges of the children meet and that every box is tight.
fn check_node(bvh: &Bvh, i: usize, leaves: &mut Vec<(usize, usize)>) -> (usize, usize) {
    let node = &bvh.nodes[i];
    let (lo, hi) = match node.link {
        Link::Leaf { first, count } => {
            leaves.push((first, first + count));
            let kept = leaf_cost(&node.aabb, count);
            for axis in Axis::iter() {
                let mut order = bvh.arena[first..first + count].to_vec();
                order.sort_by_key(|e| e.center.axis(axis));
                for cost in split_costs(&order, 0, count, &split_cost) {
                    assert!(cost >= kept);
                }
            }
            (first, first + count)
        }
        Link::Inner { left } => {
            assert!(left > i);
            assert!(left + 1 < bvh.nodes.len());
            let (a, b) = check_node(bvh, left, leaves);
            let (c, d) = check_node(bvh, left + 1, leaves);
            assert!(a < b);
            assert_eq!(b, c);
            assert!(c < d);
            let kept = leaf_cost(&node.aabb, d - a);
            let split = split_cost(&bvh.nodes[left].aabb, b - a, &bvh.nodes[left + 1].aabb, d - c);
            assert!(split < kept);
            (a, d)
        }
    };
    assert_eq!(node.aabb, union_of(&bvh.arena[lo..hi]));
    (lo, hi)
}

fn check_hierarchy(bvh: &Bvh, n: usize) {
    assert_eq!(bvh.arena.len(), n);
    assert!(!bvh.nodes.is_empty());
    assert!(bvh.nodes.len() <= if n <= 1 { 1 } else { 2 * n - 1 });
    let mut leaves = Vec::new();
    assert_eq!(check_node(bvh, 0, &mut leaves), (0, n));
    let mut next = 0;
    for (lo, hi) in leaves {
        assert_eq!(lo, next);
        next = hi;
    }
    assert_eq!(next, n);
    let mut ids: Vec<usize> = bvh.arena.iter().map(|e| e.id).collect();
    ids.sort();
    assert_eq!(ids, (0..n).collect::<Vec<_>>());
}

fn query(bvh: &Bvh, x: u32, y: u32) -> (Option<Hit>, Option<Hit>) {
    let box_test = |b: &Aabb| b.x.min <= x && x <= b.x.max && b.y.min <= y && y <= b.y.max;
    let prim_test = |i: usize| {
        let b = &bvh.arena[i].aabb;
        if b.x.min <= x && x <= b.x.max && b.y.min <= y && y <= b.y.max {
            Some(b.z.min)
        } else {
            None
        }
    };
    let found = bvh.nearest_hit(&box_test, &prim_test);
    assert_eq!(found, bvh.hit(0, &box_test, &prim_test));
    (found, scan_range(0, bvh.arena.len(), &prim_test))
}

#[test]
fn builds_empty_scene() {
    let bvh = Bvh::new(vec![], &leaf_cost, &split_cost);
    check_hierarchy(&bvh, 0);
    assert_eq!(bvh.nodes.len(), 1);
    assert_eq!(bvh.nodes[0].aabb, Aabb::empty());
    assert_eq!(query(&bvh, 5, 5), (None, None));
}

#[test]
fn builds_single_primitive() {
    let bvh = Bvh::new(vec![entry(0, (1, 1, 1), (3, 3, 3))], &leaf_cost, &split_cost);
    check_hierarchy(&bvh, 1);
    assert_eq!(bvh.nodes.len(), 1);
    let expected = Some(Hit { primitive: 0, t: 1 });
    assert_eq!(query(&bvh, 2, 2), (expected, expected));
    assert_eq!(query(&bvh, 4, 2), (None, None));
}

#[test]
fn splits_two_distant_primitives() {
    let entries = vec![entry(0, (100, 0, 0), (110, 10, 10)), entry(1, (0, 0, 0), (10, 10, 10))];
    let bvh = Bvh::new(entries, &leaf_cost, &split_cost);
    check_hierarchy(&bvh, 2);
    assert_eq!(bvh.nodes.len(), 3);
    assert!(matches!(bvh.nodes[0].link, Link::Inner { left: 1 }));
    assert_eq!(bvh.arena[0].id, 1);
    assert_eq!(bvh.arena[1].id, 0);
    assert_eq!(query(&bvh, 105, 5).0, Some(Hit { primitive: 1, t: 0 }));
    assert_eq!(query(&bvh, 5, 5).0, Some(Hit { primitive: 0, t: 0 }));
    assert_eq!(query(&bvh, 50, 5).0, None);
}

#[test]
fn keeps_coinciding_primitives_in_one_leaf() {
    let entries = vec![
        entry(0, (0, 0, 0), (10, 10, 10)),
        entry(1, (0, 0, 0), (10, 10, 10)),
        entry(2, (0, 0, 0), (10, 10, 10)),
    ];
    let bvh = Bvh::new(entries, &leaf_cost, &split_cost);
    check_hierarchy(&bvh, 3);
    assert_eq!(bvh.nodes.len(), 1);
    assert!(matches!(bvh.nodes[0].link, Link::Leaf { first: 0, count: 3 }));
    let ids: Vec<usize> = bvh.arena.iter().map(|e| e.id).collect();
    assert_eq!(ids, vec![0, 1, 2]);
}

#[test]
fn builds_well_formed_hierarchies() {
    let mut rng = ChaCha8Rng::seed_from_u64(3);
    for n in [0usize, 1, 2, 3, 4, 5, 8, 17, 64, 200] {
        let bvh = Bvh::new(random_scene(&mut rng, n), &leaf_cost, &split_cost);
        check_hierarchy(&bvh, n);
    }
}

#[test]
fn query_equals_linear_scan() {
    let mut rng = ChaCha8Rng::seed_from_u64(9);
    for n in [0usize, 1, 2, 3, 5, 16, 50, 120] {
        let bvh = Bvh::new(random_scene(&mut rng, n), &leaf_cost, &split_cost);
        let mut hits = 0;
        for _ in 0..400 {
            let x: u32 = rng.random_range(0..1100);
            let y: u32 = rng.random_range(0..1100);
            let (found, scanned) = query(&bvh, x, y);
            assert_eq!(found, scanned);
            if found.is_some() {
                hits += 1;
            }
        }
        if n >= 50 {
            assert!(hits > 0);
        }
    }
}

#[test]
fn equally_near_hits_go_to_the_first() {
    let entries = vec![
        entry(0, (0, 0, 5), (10, 10, 6)),
        entry(1, (500, 0, 5), (520, 10, 6)),
        entry(2, (5, 0, 5), (515, 10, 6)),
    ];
    let bvh = Bvh::new(entries, &leaf_cost, &split_cost);
    check_hierarchy(&bvh, 3);
    for x in [0u32, 5, 7, 10, 11, 499, 500, 510, 515, 516, 521] {
        let (found, scanned) = query(&bvh, x, 5);
        assert_eq!(found, scanned);
    }
    let prim_test = |i: usize| if i >= 2 { Some(7u32) } else { None };
    assert_eq!(scan_range(0, 5, &prim_test), Some(Hit { primitive: 2, t: 7 }));
    let prim_test = |i: usize| Some([9u32, 4, 6, 4, 8][i]);
    assert_eq!(scan_range(0, 5, &prim_test), Some(Hit { primitive: 1, t: 4 }));
    assert_eq!(scan_range(2, 5, &prim_test), Some(Hit { primitive: 3, t: 4 }));
    assert_eq!(scan_range(2, 2, &prim_test), None);
}

#[test]
fn subtree_query_covers_its_range_only() {
    let entries = vec![entry(0, (100, 0, 3), (110, 10, 4)), entry(1, (0, 0, 8), (10, 10, 9))];
    let bvh = Bvh::new(entries, &leaf_cost, &split_cost);
    let box_test = |_: &Aabb| true;
    let prim_test = |i: usize| Some(bvh.arena[i].aabb.z.min);
    assert_eq!(bvh.hit(0, &box_test, &prim_test), Some(Hit { primitive: 1, t: 3 }));
    assert_eq!(bvh.hit(1, &box_test, &prim_test), Some(Hit { primitive: 0, t: 8 }));
    assert_eq!(bvh.hit(2, &box_test, &prim_test), Some(Hit { primitive: 1, t: 3 }));
    let box_test = |_: &Aabb| false;
    assert_eq!(bvh.hit(0, &box_test, &prim_test), None);
}

#[test]
fn range_box_is_union() {
    let entries = vec![
        entry(0, (0, 0, 0), (1, 1, 1)),
        entry(1, (5, 5, 5), (6, 7, 8)),
        entry(2, (2, 9, 1), (3, 10, 2)),
    ];
    assert_eq!(range_box(&entries, 0, 0), Aabb::empty());
    assert_eq!(range_box(&entries, 1, 2), entries[1].aabb);
    assert_eq!(
        range_box(&entries, 0, 3),
        Aabb::new(Interval::new(0, 6), Interval::new(0, 10), Interval::new(0, 8))
    );
    assert_eq!(range_box(&entries, 1, 3), union_of(&entries[1..3]));
}

#[test]
fn split_costs_cover_every_split() {
    let entries = vec![
        entry(0, (0, 0, 0), (2, 2, 2)),
        entry(1, (10, 0, 0), (12, 2, 2)),
        entry(2, (20, 0, 0), (22, 2, 2)),
        entry(3, (30, 0, 0), (32, 2, 2)),
    ];
    let costs = split_costs(&entries, 0, 4, &split_cost);
    let expected: Vec<u32> = (1..4)
        .map(|k| split_cost(&union_of(&entries[..k]), k, &union_of(&entries[k..]), 4 - k))
        .collect();
    assert_eq!(costs, expected);
    assert_eq!(costs, vec![12 + 3 * 92, 2 * 52 + 2 * 52, 3 * 92 + 12]);
    assert_eq!(split_costs(&entries, 1, 3, &split_cost), vec![24]);
    assert_eq!(split_costs(&entries, 1, 2, &split_cost), Vec::<u32>::new());
    assert_eq!(split_costs(&entries, 2, 2, &split_cost), Vec::<u32>::new());
}

#[test]
fn best_split_orders_the_range() {
    let mut arena = vec![
        entry(0, (900, 0, 0), (902, 2, 2)),
        entry(1, (30, 0, 0), (32, 2, 2)),
        entry(2, (20, 0, 0), (22, 2, 2)),
        entry(3, (10, 0, 0), (12, 2, 2)),
        entry(4, (0, 0, 0), (2, 2, 2)),
        entry(5, (950, 0, 0), (952, 2, 2)),
    ];
    let kept = leaf_cost(&range_box(&arena, 1, 5), 4);
    let split = best_split(&mut arena, 1, 5, kept, &split_cost).unwrap();
    assert_eq!(split.axis, Axis::X);
    assert_eq!(split.at, 2);
    assert_eq!(split.cost, 2 * 52 + 2 * 52);
    assert!(split.cost < kept);
    let ids: Vec<usize> = arena.iter().map(|e| e.id).collect();
    assert_eq!(ids, vec![0, 4, 3, 2, 1, 5]);
}

#[test]
fn best_split_leaves_arena_alone_without_a_split() {
    let mut arena = vec![
        entry(0, (30, 0, 0), (32, 2, 2)),
        entry(1, (20, 0, 0), (22, 2, 2)),
        entry(2, (10, 0, 0), (12, 2, 2)),
    ];
    let before = arena.clone();
    assert_eq!(best_split(&mut arena, 0, 3, 0, &split_cost), None);
    assert_eq!(arena, before);
    assert_eq!(best_split(&mut arena, 0, 1, u32::MAX, &split_cost), None);
    assert_eq!(best_split(&mut arena, 2, 2, u32::MAX, &split_cost), None);
    assert_eq!(arena, before);
}

#[test]
fn subdivide_leaves_inner_nodes_alone() {
    let entries = vec![entry(0, (100, 0, 0), (110, 10, 10)), entry(1, (0, 0, 0), (10, 10, 10))];
    let mut bvh = Bvh::new(entries, &leaf_cost, &split_cost);
    let nodes_before = bvh.nodes.len();
    let arena_before = bvh.arena.clone();
    bvh.subdivide(0, &leaf_cost, &split_cost);
    bvh.subdivide(1, &leaf_cost, &split_cost);
    assert_eq!(bvh.nodes.len(), nodes_before);
    assert_eq!(bvh.arena, arena_before);
    check_hierarchy(&bvh, 2);
}

#[test]
fn costs_along_orders_a_copy() {
    let arena = vec![
        entry(0, (900, 7, 0), (902, 9, 2)),
        entry(1, (30, 5, 0), (32, 7, 2)),
        entry(2, (20, 9, 0), (22, 11, 2)),
        entry(3, (30, 1, 0), (32, 3, 2)),
        entry(4, (0, 3, 0), (2, 5, 2)),
    ];
    let before = arena.clone();
    let (order, costs) = costs_along(&arena, 1, 5, Axis::X, &split_cost);
    assert_eq!(arena, before);
    let ids: Vec<usize> = order.iter().map(|e| e.id).collect();
    assert_eq!(ids, vec![4, 2, 1, 3]);
    assert_eq!(costs, split_costs(&order, 0, 4, &split_cost));
    assert_eq!(costs.len(), 3);
    let (order, _) = costs_along(&arena, 1, 5, Axis::Y, &split_cost);
    let ids: Vec<usize> = order.iter().map(|e| e.id).collect();
    assert_eq!(ids, vec![3, 4, 1, 2]);
    let (order, costs) = costs_along(&arena, 2, 2, Axis::Z, &split_cost);
    assert!(order.is_empty() && costs.is_empty());
}

#[test]
fn ranges_are_copied_and_stored() {
    let mut arena = vec![
        entry(0, (0, 0, 0), (1, 1, 1)),
        entry(1, (2, 2, 2), (3, 3, 3)),
        entry(2, (4, 4, 4), (5, 5, 5)),
        entry(3, (6, 6, 6), (7, 7, 7)),
    ];
    let copy = copy_range(&arena, 1, 3);
    assert_eq!(copy, arena[1..3].to_vec());
    assert_eq!(copy_range(&arena, 4, 4), vec![]);
    let swapped = vec![arena[2], arena[1]];
    store_range(&mut arena, 1, &swapped);
    let ids: Vec<usize> = arena.iter().map(|e| e.id).collect();
    assert_eq!(ids, vec![0, 2, 1, 3]);
    store_range(&mut arena, 4, &vec![]);
    assert_eq!(arena.len(), 4);
}
