use crypto_bigint::rand_core::{Error, OsRng, RngCore};
use crypto_primality::biguint::BigUint;
use crypto_primality::miller_rabin::{
    generate_probable_prime, is_composite, search_from, PrimalityError, Verdict, MAX_REDRAWS,
};

/// A reproducible generator (SplitMix64) that counts what it hands out.
struct Seeded {
    state: u64,
    calls: u64,
}

impl Seeded {
    fn new(seed: u64) -> Self {
        Seeded { state: seed, calls: 0 }
    }
}

impl RngCore for Seeded {
    fn next_u32(&mut self) -> u32 {
        (self.next_u64() >> 32) as u32
    }

    fn next_u64(&mut self) -> u64 {
        self.calls += 1;
        self.state = self.state.wrapping_add(0x9e37_79b9_7f4a_7c15);
        let mut z = self.state;
        z = (z ^ (z >> 30)).wrapping_mul(0xbf58_476d_1ce4_e5b9);
        z = (z ^ (z >> 27)).wrapping_mul(0x94d0_49bb_1331_11eb);
        z ^ (z >> 31)
    }

    fn fill_bytes(&mut self, dest: &mut [u8]) {
        for chunk in dest.chunks_mut(8) {
            let bytes = self.next_u64().to_le_bytes();
            chunk.copy_from_slice(&bytes[..chunk.len()]);
        }
    }

    fn try_fill_bytes(&mut self, dest: &mut [u8]) -> Result<(), Error> {
        self.fill_bytes(dest);
        Ok(())
    }
}

/// A generator whose bytes are all zero: every draw of bits is even.
struct Zeros {
    fills: u64,
}

impl RngCore for Zeros {
    fn next_u32(&mut self) -> u32 {
        0
    }

    fn next_u64(&mut self) -> u64 {
        0
    }

    fn fill_bytes(&mut self, dest: &mut [u8]) {
        self.fills += 1;
        for byte in dest.iter_mut() {
            *byte = 0;
        }
    }

    fn try_fill_bytes(&mut self, dest: &mut [u8]) -> Result<(), Error> {
        self.fill_bytes(dest);
        Ok(())
    }
}

fn n(value: u64) -> BigUint<2> {
    BigUint::<2>::from_u64(value)
}

fn bit_length(words: &[u64]) -> u32 {
    let mut bits = 0;
    for (i, word) in words.iter().enumerate() {
        if *word != 0 {
            bits = 64 * i as u32 + (64 - word.leading_zeros());
        }
    }
    bits
}

#[test]
fn more_bits_than_the_width_holds_is_an_error() {
    let mut rng = Seeded::new(1);
    assert_eq!(
        generate_probable_prime::<1, Seeded>(65, 10, &mut rng),
        Err(PrimalityError::CapacityTooSmall)
    );
    assert_eq!(
        generate_probable_prime::<4, Seeded>(257, 10, &mut rng),
        Err(PrimalityError::CapacityTooSmall)
    );
    assert_eq!(
        generate_probable_prime::<4, Seeded>(u32::MAX, 10, &mut rng),
        Err(PrimalityError::CapacityTooSmall)
    );
    assert_eq!(rng.calls, 0);
}

#[test]
fn the_width_is_checked_before_the_rounds() {
    let mut rng = Seeded::new(2);
    assert_eq!(
        generate_probable_prime::<1, Seeded>(65, 0, &mut rng),
        Err(PrimalityError::CapacityTooSmall)
    );
    assert_eq!(rng.calls, 0);
}

#[test]
fn zero_rounds_stop_the_generator_before_a_draw() {
    let mut rng = Seeded::new(3);
    assert_eq!(
        generate_probable_prime::<4, Seeded>(64, 0, &mut rng),
        Err(PrimalityError::InvalidArgument)
    );
    assert_eq!(
        generate_probable_prime::<4, Seeded>(256, 0, &mut rng),
        Err(PrimalityError::InvalidArgument)
    );
    assert_eq!(rng.calls, 0);
}

#[test]
fn all_the_bits_of_the_width_may_be_asked_for() {
    let mut rng = Seeded::new(4);
    let p = generate_probable_prime::<1, Seeded>(64, 10, &mut rng).unwrap();
    assert_eq!(p.to_words()[0] % 2, 1);
    let p = generate_probable_prime::<2, Seeded>(128, 10, &mut rng).unwrap();
    assert_eq!(p.to_words()[0] % 2, 1);
}

#[test]
fn what_is_generated_is_odd_and_passes_again() {
    // Forty rounds, so that no composite of a few bits slips through.
    let mut rng = OsRng;
    for bits in [2u32, 3, 8, 16, 31, 64, 100, 128] {
        for _ in 0..5 {
            let p = generate_probable_prime::<4, OsRng>(bits, 40, &mut rng).unwrap();
            let words = p.to_words();
            assert_eq!(words[0] % 2, 1, "bits {}", bits);
            assert!(p != BigUint::<4>::from_u64(1));
            assert_eq!(is_composite(p, 40, &mut rng), Ok(Verdict::ProbablyPrime));
        }
    }
}

#[test]
fn what_is_generated_has_the_bits_asked_for_or_one_more() {
    // The search starts below 2^bits and walks upwards, so it may cross
    // 2^bits; it cannot pass 2^(bits + 1), for a prime lies between.
    let mut rng = Seeded::new(5);
    for bits in [2u32, 3, 4, 8, 16, 32, 64, 96] {
        for _ in 0..10 {
            let p = generate_probable_prime::<4, Seeded>(bits, 10, &mut rng).unwrap();
            assert!(bit_length(&p.to_words()) <= bits + 1, "bits {}", bits);
        }
    }
}

#[test]
fn wide_requests_stay_within_their_bits() {
    let mut rng = Seeded::new(6);
    for _ in 0..5 {
        let p = generate_probable_prime::<4, Seeded>(200, 10, &mut rng).unwrap();
        assert!(bit_length(&p.to_words()) <= 200);
        assert_eq!(p.to_words()[3] >> 8, 0);
    }
}

#[test]
fn one_bit_yields_three() {
    // The only odd number of one bit is 1, which is stepped over.
    let mut rng = Seeded::new(7);
    for _ in 0..10 {
        let p = generate_probable_prime::<1, Seeded>(1, 10, &mut rng).unwrap();
        assert_eq!(p, BigUint::<1>::from_u64(3));
    }
}

#[test]
fn two_bits_yield_three() {
    // The odd numbers of two bits are 1 and 3.
    let mut rng = Seeded::new(8);
    for _ in 0..20 {
        let p = generate_probable_prime::<1, Seeded>(2, 10, &mut rng).unwrap();
        assert_eq!(p, BigUint::<1>::from_u64(3));
    }
}

#[test]
fn three_bits_yield_three_five_or_seven() {
    let mut rng = Seeded::new(9);
    let mut seen = [false; 8];
    for _ in 0..200 {
        let p = generate_probable_prime::<1, Seeded>(3, 10, &mut rng).unwrap();
        let value = p.to_words()[0];
        assert!(value == 3 || value == 5 || value == 7, "value {}", value);
        seen[value as usize] = true;
    }
    assert!(seen[3] && seen[5] && seen[7]);
}

#[test]
fn even_draws_are_drawn_again() {
    // With four bits a draw is even half of the time; in 200 calls the
    // generator has to draw again many times.
    let mut rng = Seeded::new(10);
    for _ in 0..200 {
        let p = generate_probable_prime::<1, Seeded>(4, 10, &mut rng).unwrap();
        assert_eq!(p.to_words()[0] % 2, 1);
    }
}

#[test]
fn a_stream_of_even_draws_ends() {
    let mut rng = Zeros { fills: 0 };
    let p = generate_probable_prime::<1, Zeros>(16, 1, &mut rng);
    // Every draw is zero; after the last one the start is made odd, and the
    // walk from 1 goes on to 3.
    assert_eq!(p, Ok(BigUint::<1>::from_u64(3)));
    assert_eq!(rng.fills, MAX_REDRAWS as u64 + 1);
}

#[test]
fn the_same_stream_gives_the_same_prime() {
    for seed in 0..5u64 {
        let mut first = Seeded::new(seed);
        let mut second = Seeded::new(seed);
        let a = generate_probable_prime::<4, Seeded>(128, 5, &mut first).unwrap();
        let b = generate_probable_prime::<4, Seeded>(128, 5, &mut second).unwrap();
        assert_eq!(a, b);
        assert_eq!(first.calls, second.calls);
    }
}

#[test]
fn different_streams_give_different_primes() {
    let mut first = Seeded::new(100);
    let mut second = Seeded::new(200);
    let a = generate_probable_prime::<4, Seeded>(128, 5, &mut first).unwrap();
    let b = generate_probable_prime::<4, Seeded>(128, 5, &mut second).unwrap();
    assert_ne!(a, b);
}

#[test]
fn the_search_returns_a_prime_start() {
    let mut rng = Seeded::new(11);
    for p in [3u64, 5, 7, 89, 7919] {
        assert_eq!(search_from(n(p), 20, &mut rng), Ok(n(p)));
    }
}

#[test]
fn the_search_walks_up_to_the_next_prime() {
    let mut rng = Seeded::new(12);
    assert_eq!(search_from(n(9), 20, &mut rng), Ok(n(11)));
    assert_eq!(search_from(n(15), 20, &mut rng), Ok(n(17)));
    assert_eq!(search_from(n(25), 20, &mut rng), Ok(n(29)));
    assert_eq!(search_from(n(91), 20, &mut rng), Ok(n(97)));
    // 1327 is followed by the gap up to 1361.
    assert_eq!(search_from(n(1329), 20, &mut rng), Ok(n(1361)));
}

#[test]
fn the_search_steps_over_one() {
    let mut rng = Seeded::new(13);
    assert_eq!(search_from(n(1), 20, &mut rng), Ok(n(3)));
    assert_eq!(rng.calls, 0);
}

#[test]
fn the_search_crosses_a_word() {
    // 2^64 - 59 is the last prime below 2^64, 2^64 + 13 the first above.
    let mut rng = Seeded::new(14);
    let start = n(u64::MAX - 56);
    assert_eq!(search_from(start, 20, &mut rng), Ok(BigUint::<2>::from_words([13, 1])));
}

#[test]
fn the_search_ends_at_the_top_of_the_width() {
    // No prime lies between 2^64 - 59 and 2^64.
    let mut rng = Seeded::new(15);
    let start = BigUint::<1>::from_u64(u64::MAX - 56);
    assert_eq!(search_from(start, 20, &mut rng), Err(PrimalityError::CapacityTooSmall));
    let start = BigUint::<1>::from_u64(u64::MAX);
    assert_eq!(search_from(start, 20, &mut rng), Err(PrimalityError::CapacityTooSmall));
}

#[test]
fn the_search_finds_the_last_prime_of_the_width() {
    let mut rng = Seeded::new(16);
    let start = BigUint::<1>::from_u64(u64::MAX - 60);
    assert_eq!(search_from(start, 20, &mut rng), Ok(BigUint::<1>::from_u64(u64::MAX - 58)));
}
