use squirrel3_rs::{squirrel3, Rng};

/// A seed under which the first draw is the largest value, `u32::MAX`.
const SEED_WITH_LARGEST_FIRST_DRAW: u32 = 4025555330;

#[test]
fn first_draw_of_seed_one() {
    let mut rng = Rng::new(1);
    let draw = rng.draw();
    assert_eq!(draw, squirrel3(1, 1));
    assert_eq!(draw, 3586333332);
    let unit = draw as f32 / u32::MAX as f32;
    assert_eq!(unit, 3586333332u32 as f32 / u32::MAX as f32);
}

#[test]
fn draws_follow_positions() {
    let mut rng = Rng::new(42);
    let expected = [607966935u32, 2629819403, 409600899, 2489475396, 3109866852];
    for value in expected {
        assert_eq!(rng.draw(), value);
    }
}

#[test]
fn same_seed_same_stream() {
    let mut a = Rng::new(2024);
    let mut b = Rng::new(2024);
    for _ in 0..10_000 {
        assert_eq!(a.draw(), b.draw());
        assert_eq!(a.range_u32(3, 900), b.range_u32(3, 900));
        assert_eq!(a.bool(), b.bool());
    }
}

#[test]
fn position_counts_draws() {
    let mut rng = Rng::new(11);
    for _ in 0..1000 {
        rng.draw();
    }
    assert_eq!(rng.draw(), squirrel3(1001, 11));
    assert_eq!(squirrel3(1001, 11), 2714789159);
}

#[test]
fn every_drawing_method_advances_once() {
    let mut rng = Rng::new(5);
    rng.bool();
    rng.range_i32(-3, 3);
    rng.range_u8(1, 9);
    rng.range_usize(1, 9);
    rng.range_u32(1, 9);
    rng.u8(9);
    rng.usize(9);
    rng.u32(9);
    assert_eq!(rng.draw(), squirrel3(9, 5));
}

#[test]
fn range_u32_stays_in_range() {
    for (seed, min, max) in [(0u32, 0u32, 1u32), (1, 10, 20), (7, 0, u32::MAX), (9, 5, 6), (3, 1000, 1_000_000)] {
        let mut rng = Rng::new(seed);
        for _ in 0..100_000 {
            let value = rng.range_u32(min, max);
            assert!(min <= value && value < max);
        }
    }
}

#[test]
fn range_u32_exact_values() {
    let mut rng = Rng::new(5);
    assert_eq!(rng.range_u32(7, 1_000_000), 328913);
    assert_eq!(rng.range_u32(7, 1_000_000), 967872);
    assert_eq!(rng.range_u32(7, 1_000_000), 773293);
}

#[test]
fn range_u32_largest_draw_reaches_max() {
    let mut rng = Rng::new(SEED_WITH_LARGEST_FIRST_DRAW);
    assert_eq!(rng.range_u32(10, 20), 20);
}

#[test]
fn range_u32_reversed_bounds_give_min() {
    let mut rng = Rng::new(42);
    assert_eq!(rng.range_u32(20, 10), 20);
    assert_eq!(rng.draw(), squirrel3(2, 42));
}

#[test]
fn range_u32_equal_bounds() {
    let mut rng = Rng::new(42);
    for _ in 0..100 {
        assert_eq!(rng.range_u32(77, 77), 77);
    }
}

#[test]
fn range_i32_exact_values() {
    let mut rng = Rng::new(42);
    assert_eq!(rng.range_i32(-100, 100), -72);
    assert_eq!(rng.range_i32(-100, 100), 22);
    assert_eq!(rng.range_i32(-100, 100), -81);
}

#[test]
fn range_i32_reversed_bounds_truncate_toward_zero() {
    let mut rng = Rng::new(42);
    assert_eq!(rng.range_i32(100, -100), 72);
    assert_eq!(rng.range_i32(100, -100), -22);
    assert_eq!(rng.range_i32(100, -100), 81);
}

#[test]
fn range_i32_full_width() {
    let mut rng = Rng::new(9);
    assert_eq!(rng.range_i32(i32::MIN, i32::MAX), -998464051);
    assert_eq!(rng.range_i32(i32::MIN, i32::MAX), 1967896187);
    assert_eq!(rng.range_i32(i32::MIN, i32::MAX), 1904603796);
}

#[test]
fn range_u8_exact_values() {
    let mut rng = Rng::new(42);
    assert_eq!(rng.range_u8(10, 200), 36);
    assert_eq!(rng.range_u8(10, 200), 126);
    assert_eq!(rng.range_u8(10, 200), 28);
    assert_eq!(rng.range_u8(200, 10), 200);
}

#[test]
fn range_usize_exact_values() {
    let mut rng = Rng::new(42);
    assert_eq!(rng.range_usize(1000, 2000), 1141);
    assert_eq!(rng.range_usize(1000, 2000), 1612);
    assert_eq!(rng.range_usize(1000, 2000), 1095);
}

#[test]
fn range_usize_widest_span() {
    if usize::BITS == 64 {
        let mut rng = Rng::new(42);
        assert_eq!(rng.range_usize(0, usize::MAX) as u64, 2611198103482324695);
        assert_eq!(rng.range_usize(0, usize::MAX) as u64, 11294988332901063691);
        assert_eq!(rng.range_usize(0, usize::MAX) as u64, 1759222466026800003);
    }
}

#[test]
fn bounded_draws_exact_values() {
    let mut a = Rng::new(3);
    assert_eq!(a.u32(1000), 221);
    assert_eq!(a.u32(1000), 73);
    assert_eq!(a.u32(1000), 663);
    let mut b = Rng::new(3);
    assert_eq!(b.u8(255), 56);
    assert_eq!(b.u8(255), 18);
    assert_eq!(b.u8(255), 169);
    let mut c = Rng::new(3);
    assert_eq!(c.usize(6), 1);
    assert_eq!(c.usize(6), 0);
    assert_eq!(c.usize(6), 3);
}

#[test]
fn bounded_draw_of_zero_is_zero() {
    let mut rng = Rng::new(8);
    for _ in 0..100 {
        assert_eq!(rng.u32(0), 0);
        assert_eq!(rng.u8(0), 0);
        assert_eq!(rng.usize(0), 0);
    }
}

#[test]
fn bool_exact_values() {
    let mut rng = Rng::new(42);
    let expected = [true, false, true, false, false, true, false, true];
    for value in expected {
        assert_eq!(rng.bool(), value);
    }
}

#[test]
fn reseed_keeps_position() {
    let mut rng = Rng::new(100);
    assert_eq!(rng.draw(), squirrel3(1, 100));
    rng.seed(200);
    assert_eq!(rng.draw(), squirrel3(2, 200));
    assert_eq!(rng.draw(), squirrel3(3, 200));
}

#[test]
fn shuffle_exact_result() {
    let mut rng = Rng::new(42);
    let mut values: Vec<u32> = (0..10).collect();
    rng.shuffle(&mut values);
    assert_eq!(values, vec![6, 2, 8, 1, 5, 7, 3, 0, 9, 4]);
    assert_eq!(rng.draw(), squirrel3(10, 42));
}

#[test]
fn shuffle_of_strings() {
    let mut rng = Rng::new(7);
    let mut values: Vec<String> = ["a", "b", "c", "d", "e", "f"].iter().map(|s| s.to_string()).collect();
    rng.shuffle(&mut values);
    assert_eq!(values, vec!["b", "e", "a", "f", "c", "d"]);
}

#[test]
fn shuffle_is_a_permutation() {
    let mut rng = Rng::new(99);
    let original: Vec<u32> = vec![5, 1, 5, 9, 2, 2, 2, 8, 0, 7, 7];
    for _ in 0..50 {
        let mut values = original.clone();
        rng.shuffle(&mut values);
        let mut sorted = values.clone();
        sorted.sort();
        let mut expected = original.clone();
        expected.sort();
        assert_eq!(sorted, expected);
    }
}

#[test]
fn shuffle_short_slices_draw_nothing() {
    let mut rng = Rng::new(13);
    let mut empty: Vec<u8> = Vec::new();
    rng.shuffle(&mut empty);
    assert!(empty.is_empty());
    let mut single = vec![4u8];
    rng.shuffle(&mut single);
    assert_eq!(single, vec![4]);
    assert_eq!(rng.draw(), squirrel3(1, 13));
}

#[test]
fn shuffle_largest_draw_keeps_index() {
    let mut rng = Rng::new(SEED_WITH_LARGEST_FIRST_DRAW);
    let mut values = vec![1u8, 2];
    rng.shuffle(&mut values);
    assert_eq!(values, vec![1, 2]);
}

#[test]
fn shuffle_largest_draw_swaps_with_next_index() {
    let mut rng = Rng::new(SEED_WITH_LARGEST_FIRST_DRAW);
    let mut values = vec![0u8, 1, 2];
    rng.shuffle(&mut values);
    assert_eq!(values, vec![1, 2, 0]);
    let mut rng = Rng::new(SEED_WITH_LARGEST_FIRST_DRAW);
    let mut values = vec![0u8, 1, 2, 3];
    rng.shuffle(&mut values);
    assert_eq!(values, vec![3, 2, 0, 1]);
}

#[test]
fn same_seed_same_stream_with_reseeds() {
    let mut a = Rng::new(77);
    let mut b = Rng::new(77);
    for i in 0..10_000u32 {
        if i % 97 == 0 {
            a.seed(i);
            b.seed(i);
        }
        assert_eq!(a.draw(), b.draw());
        assert_eq!(a.range_i32(-50, 50), b.range_i32(-50, 50));
    }
}
