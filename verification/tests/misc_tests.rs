use pathtracer::material::{dielectric_bounce, Bounce};
use pathtracer::interval::Interval;
use pathtracer::noise::{Lattice, POINT_COUNT};
use pathtracer::primitive::{is_interior, nearest_root};
use pathtracer::sampler::{path_step, samples_per_worker, PathStep};
use pathtracer::texture::checker;
use rand::SeedableRng;
use rand_chacha::ChaCha8Rng;

#[test]
fn samples_are_shared_evenly() {
    assert_eq!(samples_per_worker(100, 4), 25);
    assert_eq!(samples_per_worker(100, 8), 12);
    assert_eq!(samples_per_worker(100, 1), 100);
    assert_eq!(samples_per_worker(3, 8), 0);
    assert_eq!(samples_per_worker(0, 8), 0);
    assert_eq!(samples_per_worker(u32::MAX, 1), u32::MAX);
    assert_eq!(samples_per_worker(u32::MAX, usize::MAX), 0);
}

#[test]
fn shares_never_exceed_budget() {
    for samples in [0u32, 1, 7, 100, 101, 4096] {
        for workers in [1usize, 2, 3, 8, 16, 5000] {
            let share = samples_per_worker(samples, workers) as u64;
            let taken = share * workers as u64;
            assert!(taken <= samples as u64);
            assert!(samples as u64 - taken < workers as u64);
            assert_eq!(taken == samples as u64, samples as u64 % workers as u64 == 0);
        }
    }
}

#[test]
fn path_is_cut_off_at_depth_zero() {
    assert_eq!(path_step(0, true), PathStep::Exhausted);
    assert_eq!(path_step(0, false), PathStep::Exhausted);
    assert_eq!(path_step(1, false), PathStep::Background);
    assert_eq!(path_step(1, true), PathStep::Scatter { depth: 0 });
    assert_eq!(path_step(50, true), PathStep::Scatter { depth: 49 });
    assert_eq!(path_step(u32::MAX, true), PathStep::Scatter { depth: u32::MAX - 1 });
}

#[test]
fn path_scatters_at_most_depth_times() {
    let mut depth = 5u32;
    let mut scatters = 0;
    loop {
        match path_step(depth, true) {
            PathStep::Scatter { depth: left } => {
                scatters += 1;
                depth = left;
            }
            other => {
                assert_eq!(other, PathStep::Exhausted);
                break;
            }
        }
    }
    assert_eq!(scatters, 5);
}

#[test]
fn total_internal_reflection_ignores_draw() {
    for reflectance in [0u32, 1, 500, u32::MAX] {
        for draw in [0u32, 1, 500, u32::MAX] {
            assert_eq!(dielectric_bounce(1001, 1000, reflectance, draw), Bounce::Reflect);
        }
    }
}

#[test]
fn dielectric_follows_draw_when_it_can_refract() {
    assert_eq!(dielectric_bounce(1000, 1000, 40, 39), Bounce::Reflect);
    assert_eq!(dielectric_bounce(1000, 1000, 40, 40), Bounce::Refract);
    assert_eq!(dielectric_bounce(3, 1000, 40, 41), Bounce::Refract);
    assert_eq!(dielectric_bounce(3, 1000, 0, 0), Bounce::Refract);
}

#[test]
fn checker_alternates() {
    assert!(checker(0, 0, 0));
    assert!(!checker(1, 0, 0));
    assert!(!checker(0, 1, 0));
    assert!(!checker(0, 0, 1));
    assert!(checker(1, 1, 0));
    assert!(!checker(-1, 0, 0));
    assert!(checker(-1, -1, 0));
    assert!(!checker(-3, 0, 0));
    assert!(checker(-2, 0, 0));
    assert!(!checker(i32::MAX, i32::MAX, i32::MAX));
    assert!(checker(i32::MIN, i32::MIN, i32::MIN));
    assert!(checker(i32::MAX, i32::MAX, 0));
}

fn is_permutation(table: &[usize]) -> bool {
    let mut sorted = table.to_vec();
    sorted.sort();
    sorted == (0..POINT_COUNT).collect::<Vec<_>>()
}

#[test]
fn lattice_tables_are_shuffled() {
    let mut rng = ChaCha8Rng::seed_from_u64(42);
    let lattice = Lattice::new(&mut rng);
    let identity: Vec<usize> = (0..POINT_COUNT).collect();
    assert!(is_permutation(&lattice.perm_x));
    assert!(is_permutation(&lattice.perm_y));
    assert!(is_permutation(&lattice.perm_z));
    assert_ne!(lattice.perm_x, identity);
    assert_ne!(lattice.perm_y, lattice.perm_x);
    assert_ne!(lattice.perm_z, lattice.perm_y);
}

#[test]
fn lattice_repeats_for_one_seed() {
    let a = Lattice::new(&mut ChaCha8Rng::seed_from_u64(5));
    let b = Lattice::new(&mut ChaCha8Rng::seed_from_u64(5));
    assert_eq!(a.perm_x, b.perm_x);
    assert_eq!(a.perm_y, b.perm_y);
    assert_eq!(a.perm_z, b.perm_z);
}

#[test]
fn lattice_corner_stays_in_range() {
    let mut rng = ChaCha8Rng::seed_from_u64(1);
    let lattice = Lattice::new(&mut rng);
    for (i, j, k) in [(0, 0, 0), (1, 2, 3), (-1, -2, -3), (255, 256, 257), (i32::MAX, i32::MIN, -256)] {
        let at = lattice.corner(i, j, k);
        assert!(at < POINT_COUNT);
        let expected = lattice.perm_x[(i as usize) & 255]
            ^ lattice.perm_y[(j as usize) & 255]
            ^ lattice.perm_z[(k as usize) & 255];
        assert_eq!(at, expected);
    }
    assert_eq!(lattice.corner(-1, 0, 0), lattice.corner(255, 256, -256));
}

#[test]
fn nearer_root_is_preferred() {
    let range = Interval::new(10, 100);
    assert_eq!(nearest_root(&range, 20, 50), Some(20));
    assert_eq!(nearest_root(&range, 5, 50), Some(50));
    assert_eq!(nearest_root(&range, 10, 50), Some(50));
    assert_eq!(nearest_root(&range, 10, 100), None);
    assert_eq!(nearest_root(&range, 5, 200), None);
    assert_eq!(nearest_root(&range, 11, 99), Some(11));
    assert_eq!(nearest_root(&range, 120, 150), None);
    assert_eq!(nearest_root(&range, 50, 50), Some(50));
}

#[test]
fn interior_includes_the_edges() {
    assert!(is_interior(5, 5, 0, 10));
    assert!(is_interior(0, 10, 0, 10));
    assert!(is_interior(10, 0, 0, 10));
    assert!(!is_interior(11, 5, 0, 10));
    assert!(!is_interior(5, 11, 0, 10));
    assert!(!is_interior(3, 5, 4, 10));
}
