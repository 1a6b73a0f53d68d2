use pathtracer::axis::Axis;
use rand::SeedableRng;

#[test]
fn axes_come_in_order() {
    let axes = Axis::iter();
    assert_eq!(axes, [Axis::X, Axis::Y, Axis::Z]);
}

#[test]
fn axis_index_round_trip() {
    for axis in Axis::iter() {
        let i = axis.to_index();
        assert!(i < 3);
        assert_eq!(Axis::from_draw(i as u8), axis);
        assert_eq!(Axis::iter()[i], axis);
    }
}

#[test]
fn draws_beyond_two_are_z() {
    assert_eq!(Axis::from_draw(0), Axis::X);
    assert_eq!(Axis::from_draw(1), Axis::Y);
    assert_eq!(Axis::from_draw(2), Axis::Z);
    assert_eq!(Axis::from_draw(3), Axis::Z);
    assert_eq!(Axis::from_draw(255), Axis::Z);
}

#[test]
fn sampled_axes_cover_all_three() {
    let mut rng = rand_chacha::ChaCha8Rng::seed_from_u64(7);
    let mut seen = [0usize; 3];
    for _ in 0..300 {
        let axis = Axis::sample(&mut rng);
        seen[axis.to_index()] += 1;
    }
    assert!(seen[0] > 0);
    assert!(seen[1] > 0);
    assert!(seen[2] > 0);
    assert_eq!(seen[0] + seen[1] + seen[2], 300);
}

#[test]
fn sampled_axes_repeat_for_one_seed() {
    let mut a = rand_chacha::ChaCha8Rng::seed_from_u64(11);
    let mut b = rand_chacha::ChaCha8Rng::seed_from_u64(11);
    for _ in 0..50 {
        assert_eq!(Axis::sample(&mut a), Axis::sample(&mut b));
    }
}
