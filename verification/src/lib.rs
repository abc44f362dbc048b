//! Miller-Rabin compositeness testing and probable-prime generation on
//! fixed-capacity integers.

pub mod biguint;
pub mod miller_rabin;
pub mod number_theory;
pub mod primes;

