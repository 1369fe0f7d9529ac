use roll_dice::rng::{fake, BasicRng, Rng, INCREMENT};

#[test]
fn fake_clamps_its_value() {
    assert_eq!(fake(Some(3)).range(10), 3);
    assert_eq!(fake(Some(9)).range(10), 9);
    assert_eq!(fake(Some(10)).range(10), 9);
    assert_eq!(fake(Some(u64::MAX)).range(10), 9);
    assert_eq!(fake(Some(0)).range(1), 0);
    assert_eq!(fake(Some(7)).range(1), 0);
    assert_eq!(fake(Some(u64::MAX)).range(u64::MAX), u64::MAX - 1);
}

#[test]
fn fake_without_a_value_returns_the_center() {
    assert_eq!(fake(None).range(1), 0);
    assert_eq!(fake(None).range(2), 1);
    assert_eq!(fake(None).range(5), 2);
    assert_eq!(fake(None).range(100), 50);
    assert_eq!(fake(None).range(u64::MAX), u64::MAX / 2);
}

#[test]
fn fake_stays_as_it_is() {
    let mut rng = fake(Some(4));
    for _ in 0..5 {
        assert_eq!(rng.range(6), 4);
    }
    assert_eq!(rng.value, Some(4));
}

#[test]
fn basic_values_for_known_seeds() {
    let bounds = [20, 20, 6, 1, 1000, i64::MAX as u64, u64::MAX];
    let expected: [(u64, [u64; 7], u64); 4] = [
        (0, [1, 16, 2, 0, 484, 4878747650026550670, 16290690066647324712], 7150253579921374537),
        (1, [16, 7, 3, 0, 6, 8156786635460884833, 13912677109757878368], 7150253579921374538),
        (1423, [11, 17, 4, 0, 187, 2540335048543268437, 15404610829678851244], 7150253579921375960),
        (
            u64::MAX,
            [14, 6, 1, 0, 847, 1312056072061624377, 9445471174443888850],
            7150253579921374536,
        ),
    ];
    for (seed, values, state) in expected {
        let mut rng = BasicRng::new(seed);
        for (bound, value) in bounds.iter().zip(values) {
            assert_eq!(rng.range(*bound), value);
        }
        assert_eq!(rng.state, state);
    }
}

#[test]
fn basic_counter_grows_by_the_increment() {
    let mut rng = BasicRng::new(0);
    assert_eq!(rng.range(u64::MAX), 1233057930238600589);
    assert_eq!(rng.state, INCREMENT);
    let mut rng = BasicRng::new(u64::MAX);
    rng.range(1);
    assert_eq!(rng.state, INCREMENT - 1);
}

#[test]
fn basic_stays_below_the_bound() {
    for seed in [0u64, 1, 2, 0xdead_beef, u64::MAX] {
        let mut rng = BasicRng::new(seed);
        for bound in [1u64, 2, 3, 6, 20, 100, 1 << 32, (1 << 63) + 1, u64::MAX] {
            for _ in 0..200 {
                assert!(rng.range(bound) < bound);
            }
        }
    }
}

#[test]
fn basic_is_reproducible() {
    let mut a = BasicRng::new(77);
    let mut b = BasicRng::new(77);
    for bound in 1..500u64 {
        assert_eq!(a.range(bound), b.range(bound));
    }
    assert_eq!(a.state, b.state);
}

#[test]
fn basic_draws_again_where_a_draw_is_biased() {
    // With a bound above half the range almost every second draw is
    // rejected, so the counter moves on by more than one step for some seed.
    let bound = (1u64 << 63) + (1u64 << 62);
    let mut more_than_one = false;
    for seed in 0..64u64 {
        let mut rng = BasicRng::new(seed);
        let value = rng.range(bound);
        assert!(value < bound);
        let steps = rng.state.wrapping_sub(seed).wrapping_mul(inverse_of_increment());
        assert!(steps >= 1);
        more_than_one |= steps > 1;
    }
    assert!(more_than_one);
}

fn inverse_of_increment() -> u64 {
    // Newton's iteration for the inverse of an odd number modulo 2^64.
    let mut x: u64 = INCREMENT;
    for _ in 0..6 {
        x = x.wrapping_mul(2u64.wrapping_sub(INCREMENT.wrapping_mul(x)));
    }
    assert_eq!(x.wrapping_mul(INCREMENT), 1);
    x
}

#[test]
fn basic_covers_a_small_range_evenly() {
    let mut rng = BasicRng::new(2024);
    let mut counts = [0u32; 6];
    for _ in 0..60_000 {
        counts[rng.range(6) as usize] += 1;
    }
    for count in counts {
        assert!((9_000..11_000).contains(&count), "{counts:?}");
    }
}
