use qualetize_gui::rng::{RandomShuffle, Rng, ShuffleMode};

fn draw(count: usize, mode: ShuffleMode, draws: usize) -> Vec<usize> {
    let mut shuffle = RandomShuffle::new(count, mode);
    (0..draws).map(|_| shuffle.next()).collect()
}

#[test]
fn the_fixed_mode_hands_out_the_natural_order() {
    assert_eq!(draw(4, ShuffleMode::Fixed, 9), [0, 1, 2, 3, 0, 1, 2, 3, 0]);
}

#[test]
fn a_seeded_shuffle_is_a_permutation_of_every_index() {
    let mut drawn = draw(64, ShuffleMode::Seeded(7), 64);
    drawn.sort_unstable();
    assert_eq!(drawn, (0..64).collect::<Vec<_>>());
}

#[test]
fn the_same_seed_draws_the_same_order_and_other_seeds_do_not() {
    let first = draw(64, ShuffleMode::Seeded(1), 128);
    assert_eq!(first, draw(64, ShuffleMode::Seeded(1), 128));
    assert_ne!(first, draw(64, ShuffleMode::Seeded(2), 128));
    assert_ne!(first, draw(64, ShuffleMode::Fixed, 128));
}

#[test]
fn a_seeded_shuffle_consumes_one_random_number_per_value() {
    // Eight draws over four values reshuffle twice, four numbers each.
    let mut shuffle = RandomShuffle::new(4, ShuffleMode::Seeded(3));
    for _ in 0..8 {
        shuffle.next();
    }
    let mut expected = Rng::new(3);
    for _ in 0..8 {
        expected.next_u32();
    }
    assert_eq!(shuffle.generator().unwrap().next_u32(), expected.next_u32());
}

#[test]
fn the_swap_partner_never_comes_from_before_the_position() {
    // Position `i` can only take a value from `i..len`, so with two values the
    // first draw after a reshuffle is 0 or 1 and both are handed out.
    let mut drawn = draw(2, ShuffleMode::Seeded(11), 2);
    drawn.sort_unstable();
    assert_eq!(drawn, [0, 1]);
}

#[test]
fn an_empty_shuffle_does_not_panic() {
    assert_eq!(draw(0, ShuffleMode::Seeded(5), 3), [0, 0, 0]);
}

/// The offset a draw picks is the double precision `floor(u / 2^32 * n)`.
#[test]
fn the_pick_matches_double_precision() {
    let mut rng = Rng::new(42);
    for n in [1u32, 2, 3, 7, 100, 1 << 20, (1 << 22) + 3, 3_000_001, 16_777_215, u32::MAX] {
        for _ in 0..2000 {
            let u = rng.next_u32();
            let expected = ((f64::from(u) / 4294967296.0) * f64::from(n)).floor() as u32;
            assert_eq!(qualetize_gui::rng::pick(u, n), expected, "u={u} n={n}");
        }
    }
    for u in [0u32, 1, u32::MAX, u32::MAX - 1, 1 << 31] {
        for n in [1u32, 5, u32::MAX, u32::MAX - 2, 1 << 31] {
            let expected = ((f64::from(u) / 4294967296.0) * f64::from(n)).floor() as u32;
            assert_eq!(qualetize_gui::rng::pick(u, n), expected, "u={u} n={n}");
        }
    }
}

/// xoshiro128** seeded through splitmix64 gives its published values.
#[test]
fn the_generator_is_xoshiro128_starstar() {
    // splitmix64 from 0: 0xE220A8397B1DCDAF, 0x6E789E6AA1B965F4.
    let mut rng = Rng::new(0);
    let first = rng.next_u32();
    let expected = (0xE220A839u32.wrapping_mul(5)).rotate_left(7).wrapping_mul(9);
    assert_eq!(first, expected);
}

#[test]
fn every_block_of_draws_is_an_order_of_all_indices() {
    let n = 37;
    let mut a = RandomShuffle::new(n, ShuffleMode::Seeded(99));
    let mut b = RandomShuffle::new(n, ShuffleMode::Seeded(99));
    for _ in 0..5 {
        let mut block: Vec<usize> = (0..n).map(|_| a.next()).collect();
        let again: Vec<usize> = (0..n).map(|_| b.next()).collect();
        assert_eq!(block, again, "the same seed draws the same order");
        block.sort_unstable();
        assert_eq!(block, (0..n).collect::<Vec<_>>());
    }
}

#[test]
fn the_generator_moves_once_per_index_on_each_block_start() {
    let n = 11;
    let mut shuffle = RandomShuffle::new(n, ShuffleMode::Seeded(5));
    let mut expected = Rng::new(5);
    for draw in 0..3 * n {
        shuffle.next();
        if draw % n == 0 {
            for _ in 0..n {
                expected.next_u32();
            }
        }
        let mut from_shuffle = shuffle.generator().expect("seeded");
        let mut copy = expected;
        assert_eq!(from_shuffle.next_u32(), copy.next_u32(), "after draw {draw}");
    }
}
