//! The hash, the random stream and the shuffle.

use vector_emancipation::{hash_u32, Rng};

#[test]
fn hash_values() {
    assert_eq!(hash_u32(0), 0);
    assert_eq!(hash_u32(1), 73243494);
    assert_eq!(hash_u32(2), 146486989);
    assert_eq!(hash_u32(0xdeadbeef), 12070286);
    assert_eq!(hash_u32(u32::MAX), 1623548101);
}

#[test]
fn hash_inverts_with_inverse_multiplier() {
    let unhash = |y: u32| {
        let a = y ^ (y >> 16);
        let b = a.wrapping_mul(0x119de1f3);
        b ^ (b >> 16)
    };
    for i in 0..20_000u32 {
        let x = i.wrapping_mul(2654435761);
        assert_eq!(unhash(hash_u32(x)), x);
        assert_eq!(hash_u32(unhash(x)), x);
    }
}

#[test]
fn hash_has_no_collisions_on_small_inputs() {
    let mut seen: Vec<u32> = (0..50_000).map(hash_u32).collect();
    seen.sort();
    seen.dedup();
    assert_eq!(seen.len(), 50_000);
}

#[test]
fn stream_of_seed_zero() {
    let mut rng = Rng::new(0);
    assert_eq!(rng.next_u32(), 1252149356);
    assert_eq!(rng.next_u32(), 424375647);
    assert_eq!(rng.next_u32(), 3624192378);
    assert_eq!(rng.next_u32(), 659008562);
}

#[test]
fn stream_of_largest_seed_wraps() {
    // The seed is incremented with wrap-around before it is hashed.
    let mut rng = Rng::new(u32::MAX);
    assert_eq!(rng.next_u32(), hash_u32(0x9E3779B9));
}

#[test]
fn ranges_coins_and_fractions_of_seed_seven() {
    let mut rng = Rng::new(7);
    let ranges: Vec<i32> = (0..8).map(|_| rng.range(1, 4)).collect();
    assert_eq!(ranges, vec![1, 1, 2, 2, 1, 3, 4, 4]);
    let coins: Vec<bool> = (0..6).map(|_| rng.bool()).collect();
    assert_eq!(coins, vec![true, true, false, true, true, false]);
    assert_eq!(rng.unit_numerator(), 12694137);
}

#[test]
fn range_stays_within_both_ends() {
    let mut rng = Rng::new(99);
    let mut low = false;
    let mut high = false;
    for _ in 0..1_000 {
        let r = rng.range(-3, 5);
        assert!(r >= -3 && r <= 5);
        low = low || r == -3;
        high = high || r == 5;
    }
    assert!(low && high);
    assert_eq!(rng.range(8, 8), 8);
    assert_eq!(rng.range(i32::MIN, i32::MIN), i32::MIN);
}

#[test]
fn fraction_is_below_one() {
    let mut rng = Rng::new(3);
    for _ in 0..1_000 {
        let n = rng.unit_numerator();
        assert!(n < 1 << 24);
        let unit = n as f32 / (1u32 << 24) as f32;
        assert!(unit >= 0.0 && unit < 1.0);
    }
}

#[test]
fn shuffle_of_ten_numbers() {
    let mut rng = Rng::new(42);
    let mut list: Vec<u32> = (0..10).collect();
    rng.shuffle(&mut list);
    assert_eq!(list, vec![3, 9, 4, 0, 6, 8, 1, 7, 2, 5]);
    assert_eq!(rng.next_u32(), 2440560972);
}

#[test]
fn shuffle_of_short_slices_draws_nothing() {
    let mut rng = Rng::new(42);
    let mut fresh = Rng::new(42);
    let mut none: Vec<u32> = Vec::new();
    let mut one = vec![17u32];
    rng.shuffle(&mut none);
    rng.shuffle(&mut one);
    assert_eq!(one, vec![17]);
    assert_eq!(rng.next_u32(), fresh.next_u32());
}

#[test]
fn shuffle_draws_once_per_element_but_one() {
    for n in 1..30u32 {
        let mut rng = Rng::new(n);
        let mut plain = Rng::new(n);
        let mut list: Vec<u32> = (0..n).collect();
        rng.shuffle(&mut list);
        for _ in 1..n {
            plain.next_u32();
        }
        assert_eq!(rng.next_u32(), plain.next_u32());
    }
}

#[test]
fn shuffle_keeps_the_elements() {
    let mut rng = Rng::new(5);
    for n in 0..60 {
        let mut list: Vec<u32> = (0..n).collect();
        rng.shuffle(&mut list);
        list.sort();
        assert_eq!(list, (0..n).collect::<Vec<u32>>());
    }
}

#[test]
fn shuffle_moves_by_position_alone() {
    let mut first = Rng::new(11);
    let mut second = Rng::new(11);
    let mut numbers: Vec<u32> = (0..25).collect();
    let mut words: Vec<String> = (0..25).map(|i| format!("w{}", i)).collect();
    first.shuffle(&mut numbers);
    second.shuffle(&mut words);
    let renamed: Vec<String> = numbers.iter().map(|i| format!("w{}", i)).collect();
    assert_eq!(words, renamed);
}
