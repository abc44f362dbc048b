//! Which numbers a round can bring down: never a prime, and every odd
//! number that is none.
//!
//! For the primes, the chain runs from the definition to the statement that
//! every base leaves a prime standing.  A nonzero residue modulo a prime has
//! an inverse; hence a prime that divides a product divides a factor, and 1
//! has no square roots but 1 and -1; hence multiplying the residues `1 .. p`
//! by a base only reorders them, which gives Fermat's little theorem.  The
//! top of the ladder of a prime is then 1, and the rung below it a square
//! root of 1.
//!
//! For the others, a proper divisor taken as the base shows nothing but
//! multiples of itself on the ladder.

use crate::number_theory::{
    lemma_rung_step, lemma_split, odd_part, rung, survives, survives_round, twos_in,
};
use vstd::arithmetic::div_mod::{
    lemma_fundamental_div_mod, lemma_mod_bound, lemma_mod_multiples_basic,
    lemma_mod_multiples_vanish, lemma_mod_pos_bound, lemma_small_mod,
};
use vstd::arithmetic::power::{lemma_pow0, lemma_pow1, lemma_pow_adds, pow};
use vstd::arithmetic::power2::{lemma_pow2_pos, pow2};
use vstd::prelude::*;
use vstd::seq_lib::{commutative_foldr, lemma_fold_right_permutation};

verus! {

/// `d` divides `n`.
pub open spec fn divides(d: nat, n: nat) -> bool {
    d != 0 && n % d == 0
}

/// `p` is a prime: at least 2, and divided by no number strictly between 1
/// and itself.
pub open spec fn is_prime(p: nat) -> bool {
    p >= 2 && forall|d: nat| 1 < d < p ==> !#[trigger] divides(d, p)
}

/// A multiple of `p` plus a residue below `p` has that residue.
pub proof fn lemma_residue(p: int, z: int, r: int)
    requires
        0 <= r < p,
    ensures
        (p * z + r) % p == r,
{
    lemma_mod_multiples_vanish(z, r, p);
    lemma_small_mod(r as nat, p as nat);
}

/// Modulo a prime `p`, every `a` in `1 .. p` has an inverse in `1 .. p`.
pub proof fn lemma_inverse(p: nat, a: nat) -> (b: nat)
    requires
        is_prime(p),
        0 < a < p,
    ensures
        0 < b < p,
        (a * b) % p == 1,
    decreases a,
{
    if a == 1 {
        lemma_small_mod(1, p);
        1
    } else {
        let k = p / a;
        let r = p % a;
        lemma_fundamental_div_mod(p as int, a as int);
        assert(r != 0) by {
            assert(!divides(a, p));
        }
        let c = lemma_inverse(p, r);
        let m = (r * c) / p;
        lemma_fundamental_div_mod((r * c) as int, p as int);
        let n = (k * c) / p;
        let e = (k * c) % p;
        lemma_fundamental_div_mod((k * c) as int, p as int);
        // a * (k * c) == p * (c - m) - 1
        assert(a * (k * c) == p * (c - m) - 1) by (nonlinear_arith)
            requires
                p == a * k + r,
                r * c == p * m + 1,
        ;
        // a * e == p * (c - m - a * n) - 1
        assert(a * e == p * (c - m - a * n) - 1) by (nonlinear_arith)
            requires
                a * (k * c) == p * (c - m) - 1,
                k * c == p * n + e,
        ;
        assert(e != 0) by (nonlinear_arith)
            requires
                a * e == p * (c - m - a * n) - 1,
                p >= 2,
        ;
        let b = (p - e) as nat;
        assert(a * b == p * (a - c + m + a * n) + 1) by (nonlinear_arith)
            requires
                a * e == p * (c - m - a * n) - 1,
                b == p - e,
        ;
        lemma_residue(p as int, a - c + m + a * n, 1);
        b
    }
}

/// A prime that divides a product divides one of the factors.
pub proof fn lemma_prime_divides_factor(p: nat, x: int, y: int)
    requires
        is_prime(p),
        (x * y) % (p as int) == 0,
    ensures
        x % (p as int) == 0 || y % (p as int) == 0,
{
    let a = x % (p as int);
    if a != 0 {
        let b = lemma_inverse(p, a as nat);
        let u = x / (p as int);
        lemma_fundamental_div_mod(x, p as int);
        let m = (a * b) / (p as int);
        let w = (x * y) / (p as int);
        lemma_fundamental_div_mod(x * y, p as int);
        assert(y == p * (w * b - u * b * y - m * y)) by (nonlinear_arith)
            requires
                x == p * u + a,
                a * b == p * m + 1,
                x * y == p * w + 0,
        ;
        lemma_residue(p as int, w * b - u * b * y - m * y, 0);
    }
}

/// Modulo a prime `p`, the only square roots of 1 are 1 and `p - 1`.
pub proof fn lemma_square_root_of_one(p: nat, x: nat)
    requires
        is_prime(p),
        x < p,
        (x * x) % p == 1,
    ensures
        x == 1 || x == p - 1,
{
    let m = (x * x) / p;
    lemma_fundamental_div_mod((x * x) as int, p as int);
    assert((x - 1) * (x + 1) == p * m + 0) by (nonlinear_arith)
        requires
            x * x == p * m + 1,
    ;
    lemma_residue(p as int, m as int, 0);
    lemma_prime_divides_factor(p, x - 1, (x + 1) as int);
    if (x - 1) % (p as int) == 0 {
        if x != 0 {
            lemma_small_mod((x - 1) as nat, p);
        }
    } else if x + 1 < p {
        lemma_small_mod((x + 1) as nat, p);
    }
}

/// The residues `1 .. p` in rising order.
spec fn residues(p: nat) -> Seq<int> {
    Seq::new((p - 1) as nat, |i: int| i + 1)
}

/// The residues `1 .. p`, each multiplied by `a` and reduced modulo `p`.
spec fn scaled_residues(p: nat, a: nat) -> Seq<int> {
    Seq::new((p - 1) as nat, |i: int| (a * (i + 1)) % (p as int))
}

/// Multiplication, as the step of a fold.
spec fn times() -> spec_fn(int, int) -> int {
    |x: int, acc: int| x * acc
}

/// The product of the members of `s`.
spec fn product(s: Seq<int>) -> int {
    s.fold_right(times(), 1int)
}

/// Multiplication may be folded in any order.
proof fn lemma_times_commutes()
    ensures
        commutative_foldr(times()),
{
    let f = times();
    assert forall|x: int, y: int, v: int| #[trigger] f(x, f(y, v)) == f(y, f(x, v)) by {
        assert(x * (y * v) == y * (x * v)) by (nonlinear_arith);
    }
}

/// The product of a sequence with `x` appended is `x` times its product.
proof fn lemma_product_push(s: Seq<int>, x: int)
    ensures
        product(s.push(x)) == x * product(s),
{
    lemma_times_commutes();
    assert(s.push(x).drop_last() =~= s);
    s.lemma_fold_right_commute_one(x, times(), 1int);
}

/// A nonzero residue times a nonzero residue is a nonzero residue.
proof fn lemma_scaled_nonzero(p: nat, a: nat, i: nat)
    requires
        is_prime(p),
        0 < a < p,
        0 < i < p,
    ensures
        0 < (a * i) % p < p,
{
    lemma_mod_pos_bound((a * i) as int, p as int);
    if (a * i) % p == 0 {
        lemma_prime_divides_factor(p, a as int, i as int);
        lemma_small_mod(a, p);
        lemma_small_mod(i, p);
    }
}

/// Two different residues stay different when multiplied by `a`.
proof fn lemma_scaled_injective(p: nat, a: nat, i: nat, j: nat)
    requires
        is_prime(p),
        0 < a < p,
        0 < i < j < p,
    ensures
        (a * i) % p != (a * j) % p,
{
    if (a * i) % p == (a * j) % p {
        let r = (a * i) % p;
        let u = (a * i) / p;
        let v = (a * j) / p;
        lemma_fundamental_div_mod((a * i) as int, p as int);
        lemma_fundamental_div_mod((a * j) as int, p as int);
        assert(a * (j - i) == p * (v - u) + 0) by (nonlinear_arith)
            requires
                a * i == p * u + r,
                a * j == p * v + r,
        ;
        lemma_residue(p as int, v - u, 0);
        lemma_prime_divides_factor(p, a as int, j - i);
        lemma_small_mod(a, p);
        lemma_small_mod((j - i) as nat, p);
    }
}

/// Every nonzero residue is `a` times a nonzero residue.
proof fn lemma_scaled_onto(p: nat, a: nat, v: nat) -> (i: nat)
    requires
        is_prime(p),
        0 < a < p,
        0 < v < p,
    ensures
        0 < i < p,
        (a * i) % p == v,
{
    let b = lemma_inverse(p, a);
    let i = (b * v) % p;
    lemma_scaled_nonzero(p, b, v);
    let m = (a * b) / p;
    lemma_fundamental_div_mod((a * b) as int, p as int);
    let n = (b * v) / p;
    lemma_fundamental_div_mod((b * v) as int, p as int);
    assert(a * i == p * (m * v - a * n) + v) by (nonlinear_arith)
        requires
            a * b == p * m + 1,
            b * v == p * n + i,
    ;
    lemma_residue(p as int, m * v - a * n, v as int);
    i
}

/// Multiplying the residues `1 .. p` by `a` only reorders them.
proof fn lemma_scaling_permutes(p: nat, a: nat)
    requires
        is_prime(p),
        0 < a < p,
    ensures
        scaled_residues(p, a).to_multiset() == residues(p).to_multiset(),
{
    let s = scaled_residues(p, a);
    let r = residues(p);
    assert(s.no_duplicates()) by {
        assert forall|i: int, j: int| 0 <= i < s.len() && 0 <= j < s.len() && i != j implies s[i]
            != s[j] by {
            if i < j {
                lemma_scaled_injective(p, a, (i + 1) as nat, (j + 1) as nat);
            } else {
                lemma_scaled_injective(p, a, (j + 1) as nat, (i + 1) as nat);
            }
        }
    }
    r.lemma_multiset_has_no_duplicates();
    s.lemma_multiset_has_no_duplicates();
    r.to_multiset_ensures();
    s.to_multiset_ensures();
    assert forall|v: int| s.to_multiset().count(v) == r.to_multiset().count(v) by {
        if 0 < v < p {
            let i = lemma_scaled_onto(p, a, v as nat);
            assert(s[i - 1] == v);
            assert(r[v - 1] == v);
        } else {
            if s.contains(v) {
                let k = choose|k: int| 0 <= k < s.len() && s[k] == v;
                lemma_scaled_nonzero(p, a, (k + 1) as nat);
            }
            if r.contains(v) {
                let k = choose|k: int| 0 <= k < r.len() && r[k] == v;
            }
        }
    }
}

/// The product of the first `k` scaled residues is `a^k` times the product
/// of the first `k` residues, up to a multiple of `p`, which is returned.
proof fn lemma_scaled_product(p: nat, a: nat, k: nat) -> (t: int)
    requires
        is_prime(p),
        0 < a < p,
        k <= p - 1,
    ensures
        product(scaled_residues(p, a).take(k as int)) == pow(a as int, k) * product(
            residues(p).take(k as int),
        ) + p * t,
    decreases k,
{
    let s = scaled_residues(p, a);
    let r = residues(p);
    if k == 0 {
        lemma_pow0(a as int);
        0
    } else {
        let t0 = lemma_scaled_product(p, a, (k - 1) as nat);
        let s0 = s.take(k - 1);
        let r0 = r.take(k - 1);
        assert(s.take(k as int) =~= s0.push(s[k - 1]));
        assert(r.take(k as int) =~= r0.push(r[k - 1]));
        lemma_product_push(s0, s[k - 1]);
        lemma_product_push(r0, r[k - 1]);
        let n = (a * k) / p;
        lemma_fundamental_div_mod((a * k) as int, p as int);
        lemma_pow_adds(a as int, 1, (k - 1) as nat);
        lemma_pow1(a as int);
        let big = pow(a as int, k);
        let big0 = pow(a as int, (k - 1) as nat);
        let f0 = product(r0);
        let p0 = product(s0);
        let x = s[k - 1];
        let ak = a * k;
        let t = ak * t0 - n * p0;
        assert(x * p0 == ak * p0 - p * (n * p0)) by (nonlinear_arith)
            requires
                ak == p * n + x,
        ;
        assert(ak * p0 == ak * (big0 * f0) + p * (ak * t0)) by (nonlinear_arith)
            requires
                p0 == big0 * f0 + p * t0,
        ;
        assert(ak * (big0 * f0) == big * (k * f0)) by (nonlinear_arith)
            requires
                ak == a * k,
                big == a * big0,
        ;
        assert(p * t == p * (ak * t0) - p * (n * p0)) by (nonlinear_arith)
            requires
                t == ak * t0 - n * p0,
        ;
        t
    }
}

/// The prime `p` does not divide the product of residues below it.
proof fn lemma_residue_product_nonzero(p: nat, k: nat)
    requires
        is_prime(p),
        k <= p - 1,
    ensures
        product(residues(p).take(k as int)) % (p as int) != 0,
    decreases k,
{
    let r = residues(p);
    if k == 0 {
        lemma_small_mod(1, p);
    } else {
        lemma_residue_product_nonzero(p, (k - 1) as nat);
        let r0 = r.take(k - 1);
        assert(r.take(k as int) =~= r0.push(r[k - 1]));
        lemma_product_push(r0, r[k - 1]);
        if (k * product(r0)) % (p as int) == 0 {
            lemma_prime_divides_factor(p, k as int, product(r0));
            lemma_small_mod(k, p);
        }
    }
}

/// Fermat's little theorem: for a prime `p` and `a` in `1 .. p`,
/// `a^(p - 1) mod p` is 1.
pub proof fn lemma_fermat(p: nat, a: nat)
    requires
        is_prime(p),
        0 < a < p,
    ensures
        pow(a as int, (p - 1) as nat) % (p as int) == 1,
{
    let n = (p - 1) as nat;
    let s = scaled_residues(p, a);
    let r = residues(p);
    lemma_scaling_permutes(p, a);
    lemma_times_commutes();
    lemma_fold_right_permutation(s, r, times(), 1int);
    let t = lemma_scaled_product(p, a, n);
    lemma_residue_product_nonzero(p, n);
    let f = product(r);
    let big = pow(a as int, n);
    assert(f * (big - 1) == p * (-t) + 0) by (nonlinear_arith)
        requires
            f == big * f + p * t,
    ;
    lemma_residue(p as int, -t, 0);
    lemma_prime_divides_factor(p, f, big - 1);
    let z = (big - 1) / (p as int);
    lemma_fundamental_div_mod(big - 1, p as int);
    lemma_residue(p as int, z, 1);
}

/// Every base in `1 .. p` leaves a prime `p` standing, where
/// `p - 1 == 2^s * q` with `s >= 1`: the top of the ladder is 1 by Fermat's
/// little theorem, so the rung below it is a square root of 1.
pub proof fn lemma_prime_survives_round(p: nat, s: nat, q: nat, a: nat)
    requires
        is_prime(p),
        p - 1 == pow2(s) * q,
        s >= 1,
        0 < a < p,
    ensures
        survives_round(p, s, q, a),
{
    lemma_fermat(p, a);
    assert(q * pow2(s) == pow2(s) * q) by (nonlinear_arith);
    let below = (s - 1) as nat;
    let x = rung(p, q, a, below);
    lemma_mod_bound(pow(a as int, q * pow2(below)), p as int);
    lemma_rung_step(p, q, a, below);
    lemma_square_root_of_one(p, x as nat);
}

/// Every base in `1 .. p` leaves an odd prime `p` standing.
pub proof fn lemma_prime_survives(p: nat, a: nat)
    requires
        is_prime(p),
        p % 2 == 1,
        0 < a < p,
    ensures
        survives(p, a),
{
    let n = (p - 1) as nat;
    lemma_split(n);
    if twos_in(n) == 0 {
        assert(pow2(0) == 1);
    }
    lemma_prime_survives_round(p, twos_in(n), odd_part(n), a);
}

/// A proper divisor of `p`, taken as the base, brings `p` down: every rung
/// of its ladder is a multiple of the divisor, and neither 1 nor `p - 1` is
/// one.
pub proof fn lemma_divisor_falls(p: nat, s: nat, q: nat, d: nat)
    requires
        1 < d < p,
        divides(d, p),
        q >= 1,
    ensures
        !survives_round(p, s, q, d),
{
    let m = p / d;
    lemma_fundamental_div_mod(p as int, d as int);
    assert forall|j: nat| j < s implies !(#[trigger] rung(p, q, d, j) == 1 || rung(p, q, d, j) == p
        - 1) by {
        let e = q * pow2(j);
        lemma_pow2_pos(j);
        assert(e >= 1) by (nonlinear_arith)
            requires
                e == q * pow2(j),
                q >= 1,
                pow2(j) >= 1,
        ;
        lemma_pow_adds(d as int, 1, (e - 1) as nat);
        lemma_pow1(d as int);
        let w = pow(d as int, (e - 1) as nat);
        let x = pow(d as int, e);
        let k = x / (p as int);
        lemma_fundamental_div_mod(x, p as int);
        assert(x % (p as int) == (w - m * k) * d) by (nonlinear_arith)
            requires
                x == d * w,
                x == p * k + x % (p as int),
                p == d * m,
        ;
        lemma_mod_multiples_basic(w - m * k, d as int);
        lemma_small_mod(1, d);
        lemma_residue(d as int, m - 1, d - 1);
        assert(d * (m - 1) + (d - 1) == p - 1) by (nonlinear_arith)
            requires
                p == d * m,
        ;
    }
}

} // verus!
