//! Fixed-capacity unsigned integers.
//!
//! A [`BigUint<LIMBS>`] holds `LIMBS` 64-bit words, least significant first,
//! and stands for the natural number they spell in base 2^64: that number is
//! its view.  The type itself is plain data.  Its arithmetic is done by
//! `crypto_bigint`, whose `Uint<LIMBS>` keeps its limbs in the same order (on
//! a 64-bit target its `Word` is `u64`).
//!
//! Every call into that crate sits in one of the crate-private functions at
//! the end of this module.  Each hands the words over with `from_words`,
//! makes the call and takes the words back with `to_words`.  Their contracts
//! are stated over the view and are not verified: they say what the crate is
//! relied on to do.

use crypto_bigint::modular::{MontyForm, MontyParams};
use crypto_bigint::rand_core::RngCore;
use crypto_bigint::{CheckedAdd, Integer, Odd, RandomBits, RandomMod, Uint};
use vstd::arithmetic::power::pow;
use vstd::arithmetic::power2::{lemma_pow2_adds, lemma_pow2_pos, pow2};
use vstd::prelude::*;

verus! {

/// The number that `words` spells in base 2^64, least significant word first.
pub open spec fn le_value(words: Seq<u64>) -> nat
    decreases words.len(),
{
    if words.len() == 0 {
        0
    } else {
        words[0] as nat + pow2(64) * le_value(words.drop_first())
    }
}

/// A word sequence of length `n` spells a number below 2^(64 n).
pub proof fn lemma_le_value_bound(words: Seq<u64>)
    ensures
        le_value(words) < pow2(64 * words.len()),
    decreases words.len(),
{
    if words.len() == 0 {
        lemma_pow2_pos(0);
    } else {
        let rest = words.drop_first();
        lemma_le_value_bound(rest);
        lemma_pow2_adds(64, 64 * rest.len());
        vstd::arithmetic::power2::lemma2_to64();
        let hi = le_value(rest);
        let top = pow2(64 * rest.len());
        assert(pow2(64) * hi <= pow2(64) * (top - 1)) by (nonlinear_arith)
            requires
                hi <= top - 1,
        ;
    }
}

/// A sequence whose words after the first are all zero spells its first word.
pub proof fn lemma_le_value_single(words: Seq<u64>)
    requires
        forall|i: int| 1 <= i < words.len() ==> words[i] == 0,
    ensures
        le_value(words) == if words.len() == 0 {
            0
        } else {
            words[0] as nat
        },
    decreases words.len(),
{
    if words.len() > 0 {
        let rest = words.drop_first();
        if rest.len() > 0 {
            assert forall|i: int| 1 <= i < rest.len() implies rest[i] == 0 by {}
            lemma_le_value_single(rest);
        }
        assert(le_value(rest) == 0);
        assert(pow2(64) * 0 == 0);
    }
}

/// Two word sequences of one length that spell the same number are the same
/// sequence: a number has one spelling in each width.
pub proof fn lemma_le_value_injective(a: Seq<u64>, b: Seq<u64>)
    requires
        a.len() == b.len(),
        le_value(a) == le_value(b),
    ensures
        a == b,
    decreases a.len(),
{
    if a.len() > 0 {
        vstd::arithmetic::power2::lemma2_to64();
        let ra = a.drop_first();
        let rb = b.drop_first();
        assert(le_value(ra) == le_value(rb) && a[0] == b[0]) by (nonlinear_arith)
            requires
                a[0] + pow2(64) * le_value(ra) == b[0] + pow2(64) * le_value(rb),
                a[0] < pow2(64),
                b[0] < pow2(64),
        ;
        lemma_le_value_injective(ra, rb);
        assert(a =~= seq![a[0]] + ra);
        assert(b =~= seq![b[0]] + rb);
    } else {
        assert(a =~= b);
    }
}

/// An unsigned integer of at most `64 * LIMBS` bits.
#[derive(Clone, Copy, Debug, PartialEq, Eq)]
pub struct BigUint<const LIMBS: usize> {
    words: [u64; LIMBS],
}

impl<const LIMBS: usize> View for BigUint<LIMBS> {
    type V = nat;

    closed spec fn view(&self) -> nat {
        le_value(self.words@)
    }
}

impl<const LIMBS: usize> BigUint<LIMBS> {
    /// The number of bits a value of this width can hold.
    pub open spec fn capacity_bits() -> nat {
        64 * (LIMBS as nat)
    }

    /// Every value lies below 2 to the capacity.
    pub proof fn lemma_fits(&self)
        ensures
            self@ < pow2(Self::capacity_bits()),
    {
        lemma_le_value_bound(self.words@);
    }

    /// The integer spelled by `words`, least significant word first.
    pub fn from_words(words: [u64; LIMBS]) -> (r: Self)
        ensures
            r@ == le_value(words@),
    {
        BigUint { words }
    }

    /// The words of `self`, least significant first.
    pub fn to_words(&self) -> (r: [u64; LIMBS])
        ensures
            le_value(r@) == self@,
    {
        self.words
    }

    /// The integer `value`, widened to `LIMBS` words.
    pub fn from_u64(value: u64) -> (r: Self)
        requires
            LIMBS >= 1,
        ensures
            r@ == value,
    {
        let mut words = [0u64; LIMBS];
        words[0] = value;
        proof {
            lemma_le_value_single(words@);
        }
        BigUint { words }
    }

    /// Calls `Uint::checked_add`.  Relied on: the result is the sum of the
    /// two values if that fits in `LIMBS` words, and `None` if it does not.
    #[verifier::external_body]
    pub(crate) fn checked_add(&self, rhs: &Self) -> (r: Option<Self>)
        ensures
            match r {
                Some(sum) => sum@ == self@ + rhs@,
                None => self@ + rhs@ >= pow2(Self::capacity_bits()),
            },
    {
        let sum: Option<Uint<LIMBS>> =
            Uint::from_words(self.words).checked_add(&Uint::from_words(rhs.words)).into();
        match sum {
            Some(v) => Some(BigUint { words: v.to_words() }),
            None => None,
        }
    }

    /// Calls `Uint - Uint`.  Relied on: the result is the difference.  The
    /// crate panics when the right side is the larger, which the
    /// precondition rules out.
    #[verifier::external_body]
    pub(crate) fn subtract(&self, rhs: &Self) -> (r: Self)
        requires
            rhs@ <= self@,
        ensures
            r@ == self@ - rhs@,
    {
        BigUint { words: (Uint::from_words(self.words) - Uint::from_words(rhs.words)).to_words() }
    }

    /// Calls `Uint / Uint`.  Relied on: the result is the quotient, rounded
    /// down.  The crate panics on a zero divisor, which the precondition
    /// rules out.
    #[verifier::external_body]
    pub(crate) fn divide(&self, rhs: &Self) -> (r: Self)
        requires
            rhs@ != 0,
        ensures
            r@ == self@ / rhs@,
    {
        BigUint { words: (Uint::from_words(self.words) / Uint::from_words(rhs.words)).to_words() }
    }

    /// Calls `Integer::is_even`.  Relied on: the result says whether the
    /// value is a multiple of two.
    #[verifier::external_body]
    pub(crate) fn is_even(&self) -> (r: bool)
        ensures
            r == (self@ % 2 == 0),
    {
        Uint::from_words(self.words).is_even().into()
    }

    /// Calls `Uint == Uint`.  Relied on: the result says whether the two
    /// values are the same number.
    #[verifier::external_body]
    pub(crate) fn equals(&self, rhs: &Self) -> (r: bool)
        ensures
            r == (self@ == rhs@),
    {
        Uint::from_words(self.words) == Uint::from_words(rhs.words)
    }

    /// Calls `RandomMod::random_mod`.  Relied on: the result lies below
    /// `modulus`.  Nothing else is claimed of it, and nothing of the state
    /// that `rng` is left in.  The crate draws until a draw lies below the
    /// modulus, and needs the modulus to be nonzero.
    #[verifier::external_body]
    pub(crate) fn random_below<R: RngCore>(rng: &mut R, modulus: &Self) -> (r: Self)
        requires
            modulus@ != 0,
        ensures
            r@ < modulus@,
    {
        let modulus = Uint::from_words(modulus.words).to_nz().unwrap();
        BigUint { words: Uint::random_mod(rng, &modulus).to_words() }
    }

    /// Calls `RandomBits::random_bits`.  Relied on: the result lies below
    /// 2^`bits`.  Nothing else is claimed of it, and nothing of the state
    /// that `rng` is left in.  The crate panics when `bits` exceeds the
    /// capacity, which the precondition rules out, and when `rng` fails.
    #[verifier::external_body]
    pub(crate) fn random_bits<R: RngCore>(rng: &mut R, bits: u32) -> (r: Self)
        requires
            bits <= Self::capacity_bits(),
        ensures
            r@ < pow2(bits as nat),
    {
        BigUint { words: Uint::<LIMBS>::random_bits(rng, bits).to_words() }
    }

    /// Calls `MontyForm::pow_bounded_exp`, between `MontyForm::new` and
    /// `MontyForm::retrieve`.  Relied on: the result is `self` to the power
    /// `exponent`, reduced modulo `modulus`.  The exponent is read over its
    /// own bit length, `Uint::bits_vartime`.  The crate needs the modulus to
    /// be odd.
    #[verifier::external_body]
    pub(crate) fn pow_mod(&self, exponent: &Self, modulus: &Self) -> (r: Self)
        requires
            modulus@ % 2 == 1,
            modulus@ >= 3,
        ensures
            r@ == pow(self@ as int, exponent@) % (modulus@ as int),
    {
        let params = MontyParams::new_vartime(Odd::new(Uint::from_words(modulus.words)).unwrap());
        let base = MontyForm::new(&Uint::from_words(self.words), params);
        let exponent = Uint::<LIMBS>::from_words(exponent.words);
        let power = base.pow_bounded_exp(&exponent, exponent.bits_vartime());
        BigUint { words: power.retrieve().to_words() }
    }

    /// Calls `MontyForm::square`, between `MontyForm::new` and
    /// `MontyForm::retrieve`.  Relied on: the result is the square of
    /// `self`, reduced modulo `modulus`.  The crate needs the modulus to be
    /// odd.
    #[verifier::external_body]
    pub(crate) fn square_mod(&self, modulus: &Self) -> (r: Self)
        requires
            modulus@ % 2 == 1,
            modulus@ >= 3,
        ensures
            r@ == (self@ * self@) % modulus@,
    {
        let params = MontyParams::new_vartime(Odd::new(Uint::from_words(modulus.words)).unwrap());
        let square = MontyForm::new(&Uint::from_words(self.words), params).square();
        BigUint { words: square.retrieve().to_words() }
    }
}

} // verus!
