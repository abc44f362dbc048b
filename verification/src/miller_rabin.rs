//! The Miller-Rabin compositeness test and the search for a probable prime
//! that is built on it.
//!
//! The test draws its bases from a random number generator, so what it
//! returns is not a function of its arguments.  Its contract therefore names
//! the bases: whatever comes back, there is a sequence of bases in range that
//! accounts for it round by round.  What one round decides for a given base
//! is [`survives_base`], which is exact.

use crate::biguint::BigUint;
use crate::number_theory::{
    lemma_pow2_exceeds, lemma_rung_step, lemma_split, lemma_split_unique, odd_part, rung,
    survives, survives_round, twos_in,
};
use crate::primes::{divides, is_prime, lemma_divisor_falls, lemma_prime_survives};
use crypto_bigint::rand_core::RngCore;
use vstd::arithmetic::power2::{lemma_pow2_strictly_increases, lemma_pow2_unfold, pow2};
use vstd::pervasive::unreached;
use vstd::prelude::*;

verus! {

/// What the test found out about a candidate.  `Composite` is final;
/// `ProbablyPrime` only says that no round gave evidence against it.
#[derive(Clone, Copy, Debug, PartialEq, Eq, Structural)]
pub enum Verdict {
    Composite,
    ProbablyPrime,
}

impl Verdict {
    /// The verdict as a truth value: `true` for `Composite`.
    pub fn proves_composite(&self) -> (r: bool)
        ensures
            r == (*self == Verdict::Composite),
    {
        match self {
            Verdict::Composite => true,
            Verdict::ProbablyPrime => false,
        }
    }
}

/// Why a call was turned away.
#[derive(Clone, Copy, Debug, PartialEq, Eq, Structural)]
pub enum PrimalityError {
    /// The number of rounds asked for was zero.
    InvalidArgument,
    /// The integer width cannot hold what was asked for.
    CapacityTooSmall,
}

/// How often the generator draws again after an even draw before it makes
/// the last draw odd by adding one.  A fair generator gets there once in
/// 2^128 calls; the bound is what lets the drawing be shown to end.
pub const MAX_REDRAWS: u32 = 128;

/// The verdict on the numbers that need no round: 2 and 3 stand, every
/// other even number falls.  `None` for the odd numbers that rounds decide.
pub open spec fn settled(p: nat) -> Option<Verdict> {
    if p == 2 || p == 3 {
        Some(Verdict::ProbablyPrime)
    } else if p % 2 == 0 {
        Some(Verdict::Composite)
    } else {
        None
    }
}

/// `bases` accounts for `verdict` on `p` in a test of `t` rounds: the bases
/// lie in `2 ..= p - 2`, all but the last leave `p` standing, and either the
/// last one brings `p` down, or there are `t` of them and the last leaves it
/// standing too.
pub open spec fn rounds_explain(p: nat, t: nat, bases: Seq<nat>, verdict: Verdict) -> bool {
    &&& 1 <= bases.len() <= t
    &&& forall|i: int| 0 <= i < bases.len() ==> 2 <= #[trigger] bases[i] <= p - 2
    &&& forall|i: int| 0 <= i < bases.len() - 1 ==> survives(p, #[trigger] bases[i])
    &&& match verdict {
        Verdict::Composite => !survives(p, bases.last()),
        Verdict::ProbablyPrime => bases.len() == t && survives(p, bases.last()),
    }
}

/// `verdict` is one that a test of `t` rounds can return on `p`.
pub open spec fn possible_verdict(p: nat, t: nat, verdict: Verdict) -> bool {
    match settled(p) {
        Some(v) => verdict == v,
        None => exists|bases: Seq<nat>| rounds_explain(p, t, bases, verdict),
    }
}

/// The search may step over `c`: it is 1, or a test of `t` rounds can call
/// it composite.
pub open spec fn passed_over(c: nat, t: nat) -> bool {
    c == 1 || possible_verdict(c, t, Verdict::Composite)
}

/// `found` is what a search through the odd numbers from `start` upwards,
/// below `limit`, can end with: a number that a test of `t` rounds can let
/// through, with every odd number before it stepped over; or nothing, with
/// every odd number up to the limit stepped over.
pub open spec fn search_outcome(start: nat, t: nat, limit: nat, found: Option<nat>) -> bool {
    match found {
        Some(c) => {
            &&& start <= c < limit
            &&& c % 2 == 1
            &&& possible_verdict(c, t, Verdict::ProbablyPrime)
            &&& forall|d: nat| start <= d < c && d % 2 == 1 ==> #[trigger] passed_over(d, t)
        },
        None => forall|d: nat| start <= d < limit && d % 2 == 1 ==> #[trigger] passed_over(d, t),
    }
}

/// The number that a search ended with, if it ended with one.
pub open spec fn found_number<const LIMBS: usize>(
    r: Result<BigUint<LIMBS>, PrimalityError>,
) -> Option<nat> {
    match r {
        Ok(c) => Some(c@),
        Err(_) => None,
    }
}

/// Two runs on one candidate that draw one sequence of bases end alike: the
/// candidate and the bases decide, and nothing else does.
pub proof fn lemma_verdict_determined(p: nat, t: nat, bases: Seq<nat>, v1: Verdict, v2: Verdict)
    requires
        rounds_explain(p, t, bases, v1),
        rounds_explain(p, t, bases, v2),
    ensures
        v1 == v2,
{
}

/// A composite verdict is final: no test can call a prime composite.
pub proof fn lemma_composite_is_final(p: nat, t: nat)
    requires
        possible_verdict(p, t, Verdict::Composite),
    ensures
        !is_prime(p),
{
    if is_prime(p) {
        if p % 2 == 0 {
            assert(divides(2, p));
        } else {
            let bases = choose|bases: Seq<nat>| rounds_explain(p, t, bases, Verdict::Composite);
            lemma_prime_survives(p, bases.last());
        }
    }
}

/// Every number that is no prime can be called composite: an even one is
/// without a round, and an odd one falls to a base that divides it.  With
/// [`lemma_composite_is_final`], the numbers that a test can call composite
/// are those that are no primes.
pub proof fn lemma_nonprime_can_fall(p: nat, t: nat)
    requires
        p != 1,
        t >= 1,
        !is_prime(p),
    ensures
        possible_verdict(p, t, Verdict::Composite),
{
    if p % 2 == 1 {
        let d = choose|d: nat| 1 < d < p && #[trigger] divides(d, p);
        assert(d != p - 1) by {
            if d == p - 1 {
                vstd::arithmetic::div_mod::lemma_fundamental_div_mod(p as int, d as int);
                assert(p == d * (p / d)) by (nonlinear_arith)
                    requires
                        p == d * (p / d) + 0,
                ;
                assert(false) by (nonlinear_arith)
                    requires
                        p == d * (p / d),
                        d == p - 1,
                        p >= 4,
                ;
            }
        }
        let n = (p - 1) as nat;
        lemma_split(n);
        lemma_divisor_falls(p, twos_in(n), odd_part(n), d);
        let bases = seq![d];
        assert(rounds_explain(p, t, bases, Verdict::Composite));
    }
}

/// The search steps over no prime: no odd number between its start and its
/// find is a prime, and none from its start up to the limit if it found
/// nothing.
pub proof fn lemma_search_skips_no_prime(
    start: nat,
    t: nat,
    limit: nat,
    found: Option<nat>,
    d: nat,
)
    requires
        search_outcome(start, t, limit, found),
        d % 2 == 1,
        start <= d,
        match found {
            Some(c) => d < c,
            None => d < limit,
        },
    ensures
        !is_prime(d),
{
    assert(passed_over(d, t));
    if d != 1 {
        lemma_composite_is_final(d, t);
    }
}

/// Splits a positive `n` into `2^s * q` with `q` odd, by halving while the
/// value is even.  Returns `(s, q)`.
pub fn decompose<const LIMBS: usize>(n: &BigUint<LIMBS>) -> (r: (BigUint<LIMBS>, BigUint<LIMBS>))
    requires
        n@ > 0,
    ensures
        n@ == pow2(r.0@) * r.1@,
        r.1@ % 2 == 1,
        r.0@ == twos_in(n@),
        r.1@ == odd_part(n@),
{
    proof {
        n.lemma_fits();
        assert(pow2(0) == 1) by {
            vstd::arithmetic::power2::lemma2_to64();
        }
    }
    let one = BigUint::<LIMBS>::from_u64(1);
    let two = BigUint::<LIMBS>::from_u64(2);
    let mut s = BigUint::<LIMBS>::from_u64(0);
    let mut q = *n;
    while q.is_even()
        invariant
            q@ > 0,
            n@ == pow2(s@) * q@,
            one@ == 1,
            two@ == 2,
        decreases q@,
    {
        let half = q.divide(&two);
        let next = s.checked_add(&one);
        proof {
            n.lemma_fits();
            lemma_pow2_unfold(s@ + 1);
            lemma_pow2_exceeds(s@ + 1);
            assert(pow2(s@) * q@ == pow2(s@ + 1) * half@) by (nonlinear_arith)
                requires
                    q@ == 2 * half@,
                    pow2(s@ + 1) == 2 * pow2(s@),
            ;
            assert(pow2(s@ + 1) * half@ >= pow2(s@ + 1)) by (nonlinear_arith)
                requires
                    half@ >= 1,
            ;
        }
        // The count stays below `n`, so it always fits.
        s =
        match next {
            Some(v) => v,
            None => unreached(),
        };
        q = half;
    }
    proof {
        lemma_split_unique(n@, s@, q@);
    }
    (s, q)
}

/// One round on the odd number `p` with base `a`, where `p - 1 == 2^s * q`
/// with `q` odd.  Raises `a` to `q` modulo `p`, then squares up to `s - 1`
/// times.  A value of 1 or `p - 1`, at the start or after a squaring, leaves
/// `p` standing; a ladder that never shows either brings it down.  Returns
/// whether `p` is left standing.
pub fn survives_base<const LIMBS: usize>(
    p: &BigUint<LIMBS>,
    s: &BigUint<LIMBS>,
    q: &BigUint<LIMBS>,
    a: &BigUint<LIMBS>,
) -> (r: bool)
    requires
        p@ >= 3,
        p@ % 2 == 1,
        p@ - 1 == pow2(s@) * q@,
        q@ % 2 == 1,
    ensures
        r == survives_round(p@, s@, q@, a@),
        r == survives(p@, a@),
{
    proof {
        p.lemma_fits();
        assert(pow2(0) == 1) by {
            vstd::arithmetic::power2::lemma2_to64();
        }
        lemma_split_unique((p@ - 1) as nat, s@, q@);
    }
    let zero = BigUint::<LIMBS>::from_u64(0);
    let one = BigUint::<LIMBS>::from_u64(1);
    let p_minus_1 = p.subtract(&one);
    let mut x = a.pow_mod(q, p);
    if x.equals(&one) || x.equals(&p_minus_1) {
        assert(0 < s@ && (rung(p@, q@, a@, 0) == 1 || rung(p@, q@, a@, 0) == p@ - 1));
        return true;
    }
    let mut remaining = s.subtract(&one);
    let ghost mut j: nat = 0;
    while !remaining.equals(&zero)
        invariant
            p@ >= 3,
            p@ % 2 == 1,
            zero@ == 0,
            one@ == 1,
            p_minus_1@ == p@ - 1,
            s@ == twos_in((p@ - 1) as nat),
            q@ == odd_part((p@ - 1) as nat),
            x@ == rung(p@, q@, a@, j),
            j + remaining@ + 1 == s@,
            forall|k: nat|
                k <= j ==> #[trigger] rung(p@, q@, a@, k) != 1 && rung(p@, q@, a@, k) != p@ - 1,
        decreases remaining@,
    {
        proof {
            lemma_rung_step(p@, q@, a@, j);
        }
        x = x.square_mod(p);
        proof {
            j = j + 1;
        }
        if x.equals(&p_minus_1) || x.equals(&one) {
            return true;
        }
        remaining = remaining.subtract(&one);
    }
    false
}

/// Tests `p` for compositeness with up to `t` rounds, each with a base drawn
/// from `rng`.
///
/// Zero rounds are an error, found before anything is drawn.  The numbers 2
/// and 3 are let through and the other even numbers called composite without
/// a draw.  For an odd `p` from 5 on, each round draws a base in
/// `2 ..= p - 2`; the first base that brings `p` down ends the test with
/// `Composite`, and `t` bases that leave it standing end it with
/// `ProbablyPrime`.  A prime is never called composite.
///
/// The number 1 is neither prime nor composite and is not a candidate.
pub fn is_composite<const LIMBS: usize, R: RngCore>(
    p: BigUint<LIMBS>,
    t: u32,
    rng: &mut R,
) -> (r: Result<Verdict, PrimalityError>)
    requires
        p@ != 1,
    ensures
        t == 0 ==> r == Err::<Verdict, PrimalityError>(PrimalityError::InvalidArgument),
        t > 0 ==> (r matches Ok(verdict) && possible_verdict(p@, t as nat, verdict)),
        t > 0 && (p@ == 2 || p@ == 3) ==> r == Ok::<Verdict, PrimalityError>(
            Verdict::ProbablyPrime,
        ),
        t > 0 && p@ % 2 == 0 && p@ != 2 ==> r == Ok::<Verdict, PrimalityError>(Verdict::Composite),
        t > 0 && is_prime(p@) ==> r == Ok::<Verdict, PrimalityError>(Verdict::ProbablyPrime),
        t == 0 || p@ % 2 == 0 || p@ == 3 ==> *final(rng) == *old(rng),
{
    if t == 0 {
        return Err(PrimalityError::InvalidArgument);
    }
    proof {
        p.lemma_fits();
        assert(pow2(0) == 1) by {
            vstd::arithmetic::power2::lemma2_to64();
        }
    }
    if LIMBS == 0 {
        return Ok(Verdict::Composite);
    }
    let one = BigUint::<LIMBS>::from_u64(1);
    let two = BigUint::<LIMBS>::from_u64(2);
    let three = BigUint::<LIMBS>::from_u64(3);
    if p.equals(&two) || p.equals(&three) {
        return Ok(Verdict::ProbablyPrime);
    }
    if p.is_even() {
        proof {
            if is_prime(p@) {
                assert(divides(2, p@));
            }
        }
        return Ok(Verdict::Composite);
    }
    let p_minus_1 = p.subtract(&one);
    let p_minus_3 = p_minus_1.subtract(&two);
    let (s, q) = decompose(&p_minus_1);
    let ghost mut bases: Seq<nat> = Seq::empty();
    let mut i: u32 = 0;
    while i < t
        invariant
            i <= t,
            p@ >= 5,
            p@ % 2 == 1,
            two@ == 2,
            p_minus_3@ == p@ - 3,
            p@ - 1 == pow2(s@) * q@,
            q@ % 2 == 1,
            bases.len() == i,
            forall|k: int| 0 <= k < bases.len() ==> 2 <= #[trigger] bases[k] <= p@ - 2,
            forall|k: int| 0 <= k < bases.len() ==> survives(p@, #[trigger] bases[k]),
        decreases t - i,
    {
        let drawn = BigUint::random_below(rng, &p_minus_3);
        // The draw lies below `p - 3`, so the base is at most `p - 2` and fits.
        proof {
            p.lemma_fits();
        }
        let a = match drawn.checked_add(&two) {
            Some(a) => a,
            None => unreached(),
        };
        let survived = survives_base(&p, &s, &q, &a);
        proof {
            bases = bases.push(a@);
        }
        if !survived {
            assert(rounds_explain(p@, t as nat, bases, Verdict::Composite));
            proof {
                if is_prime(p@) {
                    lemma_prime_survives(p@, a@);
                }
            }
            return Ok(Verdict::Composite);
        }
        i += 1;
    }
    assert(rounds_explain(p@, t as nat, bases, Verdict::ProbablyPrime));
    Ok(Verdict::ProbablyPrime)
}

/// Walks the odd numbers from `start` upwards and returns the first that a
/// test of `t` rounds lets through.  The number 1 is stepped over untested.
/// A walk that reaches the top of the capacity without a find ends with
/// `CapacityTooSmall`.
pub fn search_from<const LIMBS: usize, R: RngCore>(
    start: BigUint<LIMBS>,
    t: u32,
    rng: &mut R,
) -> (r: Result<BigUint<LIMBS>, PrimalityError>)
    requires
        start@ % 2 == 1,
        t > 0,
    ensures
        r is Err ==> r == Err::<BigUint<LIMBS>, PrimalityError>(PrimalityError::CapacityTooSmall),
        search_outcome(
            start@,
            t as nat,
            pow2(BigUint::<LIMBS>::capacity_bits()),
            found_number(r),
        ),
{
    proof {
        start.lemma_fits();
        assert(pow2(0) == 1) by {
            vstd::arithmetic::power2::lemma2_to64();
        }
    }
    let one = BigUint::<LIMBS>::from_u64(1);
    let two = BigUint::<LIMBS>::from_u64(2);
    let mut candidate = start;
    loop
        invariant
            t > 0,
            one@ == 1,
            two@ == 2,
            candidate@ % 2 == 1,
            start@ <= candidate@,
            candidate@ < pow2(BigUint::<LIMBS>::capacity_bits()),
            forall|d: nat|
                start@ <= d < candidate@ && d % 2 == 1 ==> #[trigger] passed_over(d, t as nat),
        decreases pow2(BigUint::<LIMBS>::capacity_bits()) - candidate@,
    {
        if !candidate.equals(&one) {
            match is_composite(candidate, t, rng) {
                Ok(Verdict::ProbablyPrime) => {
                    return Ok(candidate);
                },
                _ => {},
            }
        }
        match candidate.checked_add(&two) {
            Some(next) => {
                proof {
                    next.lemma_fits();
                }
                candidate = next;
            },
            None => {
                return Err(PrimalityError::CapacityTooSmall);
            },
        }
    }
}

/// Searches for a probable prime, starting from a random odd number below
/// 2^`bits`.
///
/// A width that cannot hold `bits` bits is an error, and so are zero rounds;
/// both are found before anything is drawn.  Otherwise the start is drawn
/// from `rng`, and drawn again while it comes out even; should
/// [`MAX_REDRAWS`] draws in a row come out even, the last is made odd by
/// adding one.  The odd numbers from the start upwards are then tested with
/// `t` rounds each until one is let through, as [`search_from`] does it.
///
/// The walk is not held below 2^`bits`: it ends at the first number that is
/// let through, and since it steps over no prime, it ends below 2^`bits`
/// whenever a prime lies between the start and 2^`bits`.  No margin is kept
/// between `bits` and the width either: a walk that runs into the top of the
/// capacity ends with `CapacityTooSmall`.
///
/// No odd number has zero bits, so `bits` is at least 1.
pub fn generate_probable_prime<const LIMBS: usize, R: RngCore>(
    bits: u32,
    t: u32,
    rng: &mut R,
) -> (r: Result<BigUint<LIMBS>, PrimalityError>)
    requires
        bits >= 1,
    ensures
        bits > BigUint::<LIMBS>::capacity_bits() ==> r == Err::<BigUint<LIMBS>, PrimalityError>(
            PrimalityError::CapacityTooSmall,
        ),
        bits <= BigUint::<LIMBS>::capacity_bits() && t == 0 ==> r == Err::<
            BigUint<LIMBS>,
            PrimalityError,
        >(PrimalityError::InvalidArgument),
        bits > BigUint::<LIMBS>::capacity_bits() || t == 0 ==> *final(rng) == *old(rng),
        bits <= BigUint::<LIMBS>::capacity_bits() && t > 0 ==> {
            &&& r is Err ==> r == Err::<BigUint<LIMBS>, PrimalityError>(
                PrimalityError::CapacityTooSmall,
            )
            &&& exists|start: nat|
                start % 2 == 1 && start < pow2(bits as nat) && #[trigger] search_outcome(
                    start,
                    t as nat,
                    pow2(BigUint::<LIMBS>::capacity_bits()),
                    found_number(r),
                )
        },
{
    let needed: u64 = (bits as u64 + 63) / 64;
    if needed > LIMBS as u64 {
        return Err(PrimalityError::CapacityTooSmall);
    }
    if t == 0 {
        return Err(PrimalityError::InvalidArgument);
    }
    let mut start = BigUint::<LIMBS>::random_bits(rng, bits);
    let mut redraws: u32 = 0;
    while start.is_even() && redraws < MAX_REDRAWS
        invariant
            bits <= BigUint::<LIMBS>::capacity_bits(),
            start@ < pow2(bits as nat),
            redraws <= MAX_REDRAWS,
        decreases MAX_REDRAWS - redraws,
    {
        start = BigUint::<LIMBS>::random_bits(rng, bits);
        redraws += 1;
    }
    if start.is_even() {
        let one = BigUint::<LIMBS>::from_u64(1);
        proof {
            lemma_pow2_unfold(bits as nat);
            if bits < BigUint::<LIMBS>::capacity_bits() {
                lemma_pow2_strictly_increases(bits as nat, BigUint::<LIMBS>::capacity_bits());
            }
        }
        // An even number below 2^bits has its successor below 2^bits too.
        start =
        match start.checked_add(&one) {
            Some(odd) => odd,
            None => unreached(),
        };
    }
    search_from(start, t, rng)
}

} // verus!
