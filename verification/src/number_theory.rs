//! The arithmetic that a Miller-Rabin round is stated in: the splitting of a
//! number into a power of two and an odd part, and the ladder of repeated
//! squares of a base.

use vstd::arithmetic::div_mod::lemma_mul_mod_noop_general;
use vstd::arithmetic::power::{lemma_pow_adds, pow};
use vstd::arithmetic::power2::{lemma_pow2_pos, lemma_pow2_unfold, pow2};
use vstd::prelude::*;

verus! {

/// How often two divides `n`; zero for `n == 0`.
pub open spec fn twos_in(n: nat) -> nat
    decreases n,
{
    if n == 0 || n % 2 == 1 {
        0
    } else {
        1 + twos_in(n / 2)
    }
}

/// What is left of `n` once every factor two is taken out.
pub open spec fn odd_part(n: nat) -> nat
    decreases n,
{
    if n == 0 || n % 2 == 1 {
        n
    } else {
        odd_part(n / 2)
    }
}

/// A positive number is its odd part times two to the count of its twos.
pub proof fn lemma_split(n: nat)
    requires
        n > 0,
    ensures
        n == pow2(twos_in(n)) * odd_part(n),
        odd_part(n) % 2 == 1,
    decreases n,
{
    if n % 2 == 1 {
        assert(pow2(0) == 1) by {
            vstd::arithmetic::power2::lemma2_to64();
        }
        assert(1 * n == n);
    } else {
        let h = n / 2;
        lemma_split(h);
        lemma_pow2_unfold(twos_in(n));
        assert(pow2(twos_in(n)) * odd_part(n) == 2 * h) by (nonlinear_arith)
            requires
                pow2(twos_in(n)) == 2 * pow2(twos_in(h)),
                odd_part(n) == odd_part(h),
                h == pow2(twos_in(h)) * odd_part(h),
        ;
    }
}

/// The splitting is the only one: an odd `q` with `n == 2^s * q` is the odd
/// part of `n`, and `s` the count of its twos.
pub proof fn lemma_split_unique(n: nat, s: nat, q: nat)
    requires
        n == pow2(s) * q,
        q % 2 == 1,
    ensures
        s == twos_in(n),
        q == odd_part(n),
    decreases s,
{
    if s == 0 {
        assert(pow2(0) == 1) by {
            vstd::arithmetic::power2::lemma2_to64();
        }
    } else {
        lemma_pow2_unfold(s);
        lemma_pow2_pos((s - 1) as nat);
        let h = pow2((s - 1) as nat) * q;
        assert(pow2(s) * q == 2 * h) by (nonlinear_arith)
            requires
                pow2(s) == 2 * pow2((s - 1) as nat),
                h == pow2((s - 1) as nat) * q,
        ;
        assert(h > 0) by (nonlinear_arith)
            requires
                h == pow2((s - 1) as nat) * q,
                pow2((s - 1) as nat) > 0,
                q > 0,
        ;
        lemma_split_unique(h, (s - 1) as nat, q);
    }
}

/// Two to the `k` exceeds `k`.
pub proof fn lemma_pow2_exceeds(k: nat)
    ensures
        k < pow2(k),
    decreases k,
{
    if k == 0 {
        vstd::arithmetic::power2::lemma2_to64();
    } else {
        lemma_pow2_exceeds((k - 1) as nat);
        lemma_pow2_unfold(k);
    }
}

/// Rung `j` of the ladder of base `a` modulo `p` over the odd exponent `q`:
/// `a^(q * 2^j) mod p`.
pub open spec fn rung(p: nat, q: nat, a: nat, j: nat) -> int {
    pow(a as int, q * pow2(j)) % (p as int)
}

/// Each rung is the square of the one below it, reduced modulo `p`.
pub proof fn lemma_rung_step(p: nat, q: nat, a: nat, j: nat)
    requires
        p > 0,
    ensures
        rung(p, q, a, j + 1) == (rung(p, q, a, j) * rung(p, q, a, j)) % (p as int),
{
    let e = q * pow2(j);
    lemma_pow2_unfold(j + 1);
    assert(q * pow2(j + 1) == e + e) by (nonlinear_arith)
        requires
            pow2(j + 1) == 2 * pow2(j),
            e == q * pow2(j),
    ;
    lemma_pow_adds(a as int, e, e);
    lemma_mul_mod_noop_general(pow(a as int, e), pow(a as int, e), p as int);
}

/// Whether one round with base `a` leaves `p` standing, where
/// `p - 1 == 2^s * q`: one of the rungs `0 ..= s - 1` is 1 or `p - 1`.
pub open spec fn survives_round(p: nat, s: nat, q: nat, a: nat) -> bool {
    exists|j: nat| j < s && (#[trigger] rung(p, q, a, j) == 1 || rung(p, q, a, j) == p - 1)
}

/// Whether one round with base `a` leaves the odd number `p` standing.
pub open spec fn survives(p: nat, a: nat) -> bool {
    survives_round(p, twos_in((p - 1) as nat), odd_part((p - 1) as nat), a)
}

} // verus!
