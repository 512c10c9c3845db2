//! Proved algebraic laws of the modular operations.
//!
//! Each law is stated over the same model functions (`mod_add`, `mod_mul`,
//! ...) that the contracts in [`crate::algebra`] use, so it applies
//! directly to the values those operations return.

use vstd::prelude::*;

verus! {

use vstd::arithmetic::div_mod::*;
use vstd::arithmetic::power::*;
use crate::arith::gcd;
use crate::arith::mod_add;
use crate::arith::mod_mul;
use crate::arith::mod_neg;
use crate::arith::mod_pow;
use crate::arith::mod_sub;
use crate::arith::xgcd_spec;
use crate::arith::lemma_xgcd_spec;

/// Closure: the sum, difference, and product of residues are again
/// residues reduced into `[0, p)`.
pub proof fn law_closure(p: int, a: int, b: int)
    requires
        1 <= p,
    ensures
        0 <= mod_add(p, a, b) < p,
        0 <= mod_sub(p, a, b) < p,
        0 <= mod_mul(p, a, b) < p,
{
    lemma_mod_bound(a + b, p);
    lemma_mod_bound(a - b, p);
    lemma_mod_bound(a * b, p);
}

/// Adding the additive identity leaves any reduced element unchanged, and
/// adding an element's additive inverse yields the additive identity.
pub proof fn law_additive_identity_inverse(p: int, a: int)
    requires
        1 <= p,
        0 <= a < p,
    ensures
        mod_add(p, a, 0) == a,
        mod_add(p, a, mod_neg(p, a)) == 0,
{
    lemma_small_mod(a as nat, p as nat);
    lemma_small_mod(0nat, p as nat);
    if a != 0 {
        // (0 - a) % p == p - a
        lemma_mod_add_multiples_vanish(-a, p);
        lemma_small_mod((p - a) as nat, p as nat);
        assert(mod_neg(p, a) == p - a);
        lemma_mod_self_0(p);
        assert(mod_add(p, a, p - a) == p % p);
    }
}

/// Multiplying any reduced element by the multiplicative identity (the
/// reduced residue of one) leaves it unchanged.
pub proof fn law_multiplicative_identity(p: int, a: int)
    requires
        1 <= p,
        0 <= a < p,
    ensures
        mod_mul(p, a, 1int % p) == a,
{
    lemma_mod_bound(1, p);
    lemma_mul_mod_noop_right(a, 1, p);
    assert(a * 1 == a) by (nonlinear_arith);
    lemma_small_mod(a as nat, p as nat);
}

/// Multiplying an element by its multiplicative inverse yields the
/// multiplicative identity on either side: the product is commutative.
pub proof fn law_multiplicative_inverse(p: int, a: int, v: int)
    requires
        1 <= p,
        mod_mul(p, v, a) == 1int % p,
    ensures
        mod_mul(p, a, v) == 1int % p,
{
    assert(a * v == v * a) by (nonlinear_arith);
}

/// A residue coprime to the modulus has a multiplicative inverse among
/// the residues: the Bezout coefficient of the extended Euclidean
/// algorithm, reduced.
pub proof fn lemma_inverse_exists(p: int, b: int)
    requires
        1 <= p,
        0 <= b < p,
        gcd(p as nat, b as nat) == 1,
    ensures
        exists|t: int| 0 <= t < p && mod_mul(p, b, t) == 1int % p,
{
    lemma_xgcd_spec(p, b);
    let (d, x, y) = xgcd_spec(p, b);
    assert(p * x + b * y == 1);
    let t = y % p;
    lemma_mod_bound(y, p);
    lemma_mul_mod_noop_right(b, y, p);
    assert(b * y == p * (-x) + 1) by (nonlinear_arith)
        requires
            p * x + b * y == 1,
    ;
    lemma_mod_multiples_vanish(-x, 1, p);
    assert(mod_mul(p, b, t) == 1int % p);
}

/// One cancellation step: multiplying a reduced product `q * b (mod p)` by
/// an inverse `t` of `b` gives back `q`.
proof fn lemma_cancel_inverse(p: int, b: int, t: int, q: int)
    requires
        1 <= p,
        0 <= q < p,
        mod_mul(p, b, t) == 1int % p,
    ensures
        (mod_mul(p, q, b) * t) % p == q,
{
    lemma_mul_mod_noop_left(q * b, t, p);
    assert((q * b) * t == q * (b * t)) by (nonlinear_arith);
    lemma_mul_mod_noop_right(q, b * t, p);
    lemma_mul_mod_noop_right(q, 1, p);
    assert(q * 1 == q) by (nonlinear_arith);
    lemma_small_mod(q as nat, p as nat);
}

/// Division is uniquely determined: with a divisor coprime to the modulus
/// there is exactly one reduced quotient whose product with the divisor
/// gives back the dividend.  In particular the quotient that `divide`
/// returns is the one element that `multiply` carries back to the
/// dividend.
pub proof fn law_division_unique(p: int, b: int, q1: int, q2: int)
    requires
        1 <= p,
        0 <= b < p,
        0 <= q1 < p,
        0 <= q2 < p,
        gcd(p as nat, b as nat) == 1,
        mod_mul(p, q1, b) == mod_mul(p, q2, b),
    ensures
        q1 == q2,
{
    lemma_inverse_exists(p, b);
    let t = choose|t: int| 0 <= t < p && mod_mul(p, b, t) == 1int % p;
    lemma_cancel_inverse(p, b, t, q1);
    lemma_cancel_inverse(p, b, t, q2);
}

/// The zero exponent yields the multiplicative identity (for the zero
/// base too); the exponent one yields the base itself.
pub proof fn law_pow_zero_one(p: int, b: int)
    requires
        1 <= p,
        0 <= b < p,
    ensures
        mod_pow(p, b, 0) == 1int % p,
        mod_pow(p, b, 1) == b,
{
    lemma_pow0(b);
    lemma_pow1(b);
    lemma_small_mod(b as nat, p as nat);
}

/// Raising to a successor exponent multiplies one more factor of the base
/// onto the previous power: `pow` agrees with repeated multiplication.
pub proof fn law_pow_succ(p: int, b: int, k: nat)
    requires
        1 <= p,
        0 <= b < p,
    ensures
        mod_pow(p, b, (k + 1) as nat) == mod_mul(p, mod_pow(p, b, k), b),
{
    lemma_pow_adds(b, k, 1);
    lemma_pow1(b);
    lemma_mul_mod_noop_left(pow(b, k), b, p);
}

/// With a modulus of at least two, the zero residue — the only residue
/// that is a multiple of the modulus — is not coprime to it, so `divide`
/// and `inverse` reject it as a divisor.
pub proof fn law_zero_not_invertible(p: int)
    requires
        2 <= p,
    ensures
        gcd(p as nat, 0) != 1,
{
    assert(gcd(p as nat, 0) == p as nat);
}

} // verus!
