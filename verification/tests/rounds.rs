use crypto_primality::biguint::BigUint;
use crypto_primality::miller_rabin::{decompose, survives_base};

fn n(value: u64) -> BigUint<4> {
    BigUint::<4>::from_u64(value)
}

fn round(p: u64, a: u64) -> bool {
    let (s, q) = decompose(&n(p - 1));
    survives_base(&n(p), &s, &q, &n(a))
}

#[test]
fn decompose_splits_off_the_twos() {
    assert_eq!(decompose(&n(560)), (n(4), n(35)));
    assert_eq!(decompose(&n(9972)), (n(2), n(2493)));
    assert_eq!(decompose(&n(6)), (n(1), n(3)));
}

#[test]
fn decompose_of_an_odd_number_is_itself() {
    assert_eq!(decompose(&n(1)), (n(0), n(1)));
    assert_eq!(decompose(&n(35)), (n(0), n(35)));
}

#[test]
fn decompose_of_a_power_of_two_leaves_one() {
    assert_eq!(decompose(&n(1 << 40)), (n(40), n(1)));
    assert_eq!(decompose(&n(4)), (n(2), n(1)));
}

#[test]
fn decompose_works_across_words() {
    // 2^64 * 12 = 2^66 * 3
    let value = BigUint::<4>::from_words([0, 12, 0, 0]);
    assert_eq!(decompose(&value), (n(66), n(3)));
}

#[test]
fn bottom_rung_one_leaves_standing() {
    // 2^3 = 8 = 1 mod 7
    assert!(round(7, 2));
    // 4^3 = 64 = 1 mod 7
    assert!(round(7, 4));
}

#[test]
fn bottom_rung_minus_one_leaves_standing() {
    // 3^3 = 27 = 6 mod 7, and 7 - 1 = 2 * 3 has no further rung
    assert!(round(7, 3));
    assert!(round(7, 5));
    // 8 = -1 mod 9
    assert!(round(9, 8));
}

#[test]
fn a_later_rung_leaves_standing() {
    // 13 - 1 = 4 * 3; 2^3 = 8, 8^2 = 64 = 12 mod 13
    assert!(round(13, 2));
    // 17 - 1 = 16 * 1; 3, 9, 81 = 13, 169 = 16 mod 17
    assert!(round(17, 3));
}

#[test]
fn a_ladder_without_one_or_minus_one_brings_down() {
    // 9 - 1 = 8 * 1; rungs of 2: 2, 4, 7
    assert!(!round(9, 2));
    // 15 - 1 = 2 * 7; 2^7 = 128 = 8 mod 15
    assert!(!round(15, 2));
}

#[test]
fn the_top_rung_is_not_looked_at() {
    // 561 - 1 = 16 * 35; rungs of 2: 263, 166, 67, 1, and then 1 again for
    // 2^560.  The 1 sits on rung 3 and is seen.
    assert!(round(561, 2));
    // 341 - 1 = 4 * 85; rungs of 2: 32, 1.
    assert!(round(341, 2));
    // 91 - 1 = 2 * 45; 3^45 = 27 mod 91, though 3^90 = 1 mod 91.
    assert!(!round(91, 3));
}

#[test]
fn every_base_leaves_a_prime_standing() {
    for p in [5u64, 7, 11, 13, 97, 101, 257, 7919] {
        for a in 1..p {
            assert!(round(p, a), "p {} a {}", p, a);
        }
    }
}

#[test]
fn most_bases_bring_a_composite_down() {
    for p in [9u64, 15, 21, 25, 27, 33, 35, 49, 9999] {
        let mut down = 0;
        for a in 2..p - 1 {
            if !round(p, a) {
                down += 1;
            }
        }
        assert!(2 * down > p - 3, "p {} down {}", p, down);
    }
}

#[test]
fn a_divisor_brings_its_multiple_down() {
    for (p, d) in [(9u64, 3u64), (15, 3), (15, 5), (91, 7), (561, 3), (561, 11), (1729, 13), (9999, 101)] {
        assert!(!round(p, d), "p {} d {}", p, d);
    }
}

#[test]
fn carmichael_numbers_have_many_bases_that_show_nothing() {
    // Every base that shares no factor with 1729 leaves it standing: it can
    // only fall to a base that does.
    for a in 2..1728u64 {
        let shares = a % 7 == 0 || a % 13 == 0 || a % 19 == 0;
        assert_eq!(round(1729, a), !shares, "a {}", a);
    }
}
