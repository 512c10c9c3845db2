//! Overflow-safe modular arithmetic on `u128` residues, together with the
//! mathematical model (`gcd`, `mod_add`, ...) that the public contracts of
//! this crate are stated over.

use vstd::prelude::*;

verus! {

use vstd::arithmetic::div_mod::*;
use vstd::arithmetic::power::*;
use vstd::math::abs;
use vstd::math::max;

/// Greatest common divisor, by the Euclidean recurrence.
pub open spec fn gcd(a: nat, b: nat) -> nat
    decreases b,
{
    if b == 0 {
        a
    } else {
        gcd(b, a % b)
    }
}

/// The `(d, x, y)` triple of the classic extended Euclidean recurrence on
/// non-negative inputs: `d` is the greatest common divisor and `x`, `y` are
/// Bezout coefficients, `a * x + b * y == d`.
pub open spec fn xgcd_spec(a: int, b: int) -> (int, int, int)
    recommends
        0 <= a,
        0 <= b,
    decreases b,
{
    if b <= 0 {
        (a, 1, 0)
    } else {
        let (d, x, y) = xgcd_spec(b, a % b);
        (d, y, x - (a / b) * y)
    }
}

/// The extended Euclidean recurrence on arbitrary signs: the triple of the
/// non-negative recurrence on the magnitudes, each coefficient's sign
/// following its input's.
pub open spec fn xgcd_signed(a: int, b: int) -> (int, int, int) {
    let (d, x, y) = xgcd_spec(abs(a) as int, abs(b) as int);
    (
        d,
        if a < 0 {
            -x
        } else {
            x
        },
        if b < 0 {
            -y
        } else {
            y
        },
    )
}

/// What the extended Euclidean recurrence returns on non-negative inputs:
/// the gcd of its inputs, together with Bezout coefficients bounded by the
/// inputs themselves.
pub proof fn lemma_xgcd_spec(a: int, b: int)
    requires
        0 <= a,
        0 <= b,
    ensures
        ({
            let (d, x, y) = xgcd_spec(a, b);
            &&& a * x + b * y == d
            &&& d == gcd(a as nat, b as nat)
            &&& d <= max(a, b)
            &&& -max(1, b) <= x <= max(1, b)
            &&& -max(1, a) <= y <= max(1, a)
            &&& (b == 0 ==> d == a && x == 1 && y == 0)
        }),
    decreases b,
{
    let (d, x, y) = xgcd_spec(a, b);
    if b == 0 {
        assert(a * 1 + b * 0 == a) by (nonlinear_arith);
    } else {
        let q = a / b;
        let r = a % b;
        lemma_mod_bound(a, b);
        lemma_xgcd_spec(b, r);
        let (d2, x2, y2) = xgcd_spec(b, r);
        assert(d == d2 && x == y2 && y == x2 - q * y2);
        lemma_fundamental_div_mod(a, b);
        lemma_div_pos_is_pos(a, b);
        assert(a * y2 + b * (x2 - q * y2) == b * x2 + r * y2) by (nonlinear_arith)
            requires
                a == b * q + r,
        ;
        assert(gcd(a as nat, b as nat) == gcd(b as nat, r as nat));
        if r == 0 {
            assert(x2 == 1 && y2 == 0);
            assert(q * y2 == 0) by (nonlinear_arith)
                requires
                    y2 == 0,
            ;
            assert(y == 1);
        } else {
            // q * b == a - r, so the new coefficient is bounded by a.
            assert(-(a - r) <= q * y2 <= a - r) by (nonlinear_arith)
                requires
                    0 <= q,
                    1 <= b,
                    q * b == a - r,
                    -b <= y2 <= b,
            ;
            assert(-max(1, a) <= y <= max(1, a));
        }
    }
}

/// Extended Euclid on non-negative machine integers; the Bezout
/// coefficients stay well inside `i128` because they are bounded by the
/// inputs.
fn xgcd_mag(a: u64, b: u64) -> (res: (u64, i128, i128))
    ensures
        (res.0 as int, res.1 as int, res.2 as int) == xgcd_spec(a as int, b as int),
    decreases b,
{
    if b == 0 {
        (a, 1, 0)
    } else {
        let q = a / b;
        let r = a % b;
        proof {
            lemma_mod_bound(a as int, b as int);
        }
        let (d, x, y) = xgcd_mag(b, r);
        proof {
            lemma_xgcd_spec(b as int, r as int);
            lemma_fundamental_div_mod(a as int, b as int);
            assert(-(a as int) <= (q as int) * y <= a as int) by (nonlinear_arith)
                requires
                    0 <= q,
                    1 <= b,
                    (q as int) * (b as int) == a - r,
                    0 <= r,
                    -(b as int) <= y <= b as int,
            ;
        }
        (d, y, x - (q as i128) * y)
    }
}

/// Extended greatest common divisor.
///
/// Returns `(d, x, y)` with `d == gcd(|a|, |b|)` and `a * x + b * y == d`
/// (Bezout's identity), computed by the classic Euclidean recurrence on the
/// magnitudes; in particular `xgcd(0, 0) == (0, 1, 0)`.  The coefficient of
/// a divisor coprime to a positive modulus is its multiplicative inverse
/// modulo that modulus.
pub fn xgcd(a: i64, b: i64) -> (res: (i64, i64, i64))
    requires
        a != i64::MIN,
        b != i64::MIN,
    ensures
        (res.0 as int, res.1 as int, res.2 as int) == xgcd_signed(a as int, b as int),
        a * res.1 + b * res.2 == res.0,
        res.0 == gcd(abs(a as int), abs(b as int)),
        -max(1, abs(b as int) as int) <= res.1 <= max(1, abs(b as int) as int),
        -max(1, abs(a as int) as int) <= res.2 <= max(1, abs(a as int) as int),
{
    let ua: u64 = if a < 0 {
        (-a) as u64
    } else {
        a as u64
    };
    let ub: u64 = if b < 0 {
        (-b) as u64
    } else {
        b as u64
    };
    let (d, x, y) = xgcd_mag(ua, ub);
    proof {
        lemma_xgcd_spec(ua as int, ub as int);
        assert((a as int) * (if a < 0 { -(x as int) } else { x as int }) == (ua as int) * x) by (nonlinear_arith)
            requires
                ua == abs(a as int),
        ;
        assert((b as int) * (if b < 0 { -(y as int) } else { y as int }) == (ub as int) * y) by (nonlinear_arith)
            requires
                ub == abs(b as int),
        ;
    }
    let xs: i64 = if a < 0 {
        -(x as i64)
    } else {
        x as i64
    };
    let ys: i64 = if b < 0 {
        -(y as i64)
    } else {
        y as i64
    };
    (d as i64, xs, ys)
}

/// Sum of two residues modulo `p`.
pub open spec fn mod_add(p: int, a: int, b: int) -> int {
    (a + b) % p
}

/// Difference of two residues modulo `p`, normalized non-negative.
pub open spec fn mod_sub(p: int, a: int, b: int) -> int {
    (a - b) % p
}

/// Additive inverse of a residue modulo `p`, normalized non-negative.
pub open spec fn mod_neg(p: int, a: int) -> int {
    (0 - a) % p
}

/// Product of two residues modulo `p`.
pub open spec fn mod_mul(p: int, a: int, b: int) -> int {
    (a * b) % p
}

/// `b` raised to the `e`-th power, modulo `p`.
pub open spec fn mod_pow(p: int, b: int, e: nat) -> int {
    pow(b, e) % p
}

/// `(a + b) % p` without overflowing the `u128` intermediate sum.
pub fn add_mod(a: u128, b: u128, p: u128) -> (r: u128)
    requires
        1 <= p,
        a < p,
        b < p,
    ensures
        r == mod_add(p as int, a as int, b as int),
        r < p,
{
    if b == 0 {
        proof {
            lemma_small_mod(a as nat, p as nat);
        }
        a
    } else if a >= p - b {
        // a + b lies in [p, 2p); subtracting one multiple of p reduces it.
        let r = a - (p - b);
        proof {
            lemma_mod_add_multiples_vanish(
                a + b - p,
                p as int,
            );
            lemma_small_mod((a + b - p) as nat, p as nat);
        }
        r
    } else {
        proof {
            lemma_small_mod((a + b) as nat, p as nat);
        }
        a + b
    }
}

/// `(a - b) % p`, normalized non-negative, without underflowing `u128`.
pub fn sub_mod(a: u128, b: u128, p: u128) -> (r: u128)
    requires
        1 <= p,
        a < p,
        b < p,
    ensures
        r == mod_sub(p as int, a as int, b as int),
        r < p,
{
    if a >= b {
        proof {
            lemma_small_mod((a - b) as nat, p as nat);
        }
        a - b
    } else {
        // a - b is negative; adding one multiple of p normalizes it.
        let r = a + (p - b);
        proof {
            lemma_mod_add_multiples_vanish(
                a - b,
                p as int,
            );
            lemma_small_mod((a + p - b) as nat, p as nat);
        }
        r
    }
}

/// `(a * b) % p` by binary decomposition of `b`, so that no intermediate
/// value ever exceeds `u128` even when products approach `modulus`^2.
pub fn mul_mod(a: u128, b: u128, p: u128) -> (r: u128)
    requires
        1 <= p,
        a < p,
    ensures
        r == mod_mul(p as int, a as int, b as int),
        r < p,
{
    let mut res: u128 = 0;
    let mut cur: u128 = a;
    let mut n: u128 = b;
    while n > 0
        invariant
            1 <= p,
            res < p,
            cur < p,
            (res + cur * n) % (p as int) == (a * b) % (p as int),
        decreases n,
    {
        let ghost res0 = res as int;
        let ghost cur0 = cur as int;
        let ghost n0 = n as int;
        let bit = n % 2;
        if bit == 1 {
            res = add_mod(res, cur, p);
        }
        cur = add_mod(cur, cur, p);
        n = n / 2;
        proof {
            let pi = p as int;
            let x = res0 + cur0 * (n0 % 2);
            let z = (cur0 + cur0) * (n0 / 2);
            lemma_fundamental_div_mod(n0, 2);
            assert(cur0 * n0 == cur0 * (n0 % 2) + z) by (nonlinear_arith)
                requires
                    n0 == 2 * (n0 / 2) + n0 % 2,
                    z == (cur0 + cur0) * (n0 / 2),
            ;
            assert(cur0 * (n0 % 2) == (if n0 % 2 == 1 { cur0 } else { 0int }))
                by (nonlinear_arith)
                requires 0 <= n0 % 2 < 2,
            ;
            if bit != 1 {
                lemma_small_mod(res0 as nat, p as nat);
            }
            assert(res == x % pi);
            // Strip the reductions that add_mod introduced, one at a time.
            lemma_mul_mod_noop_left(cur0 + cur0, n0 / 2, pi);
            assert((cur * n) % pi == z % pi);
            lemma_add_mod_noop_right(x % pi, cur * n, pi);
            lemma_add_mod_noop_right(x % pi, z, pi);
            lemma_add_mod_noop(x, z, pi);
            assert((res + cur * n) % pi == (x + z) % pi);
            assert((res + cur * n) % pi == (a * b) % pi);
        }
    }
    proof {
        lemma_small_mod(res as nat, p as nat);
    }
    res
}

/// `b^e % p` by square-and-multiply: the accumulator takes the current
/// power of `b` whenever the low exponent bit is set, and the base is
/// squared as the exponent is halved.
pub fn pow_mod(b: u128, e: u128, p: u128) -> (r: u128)
    requires
        1 <= p,
        b < p,
    ensures
        r == mod_pow(p as int, b as int, e as nat),
        r < p,
{
    let mut res: u128 = 1 % p;
    let mut cur: u128 = b;
    let mut n: u128 = e;
    proof {
        lemma_mul_mod_noop_general(
            1,
            pow(b as int, e as nat),
            p as int,
        );
    }
    while n > 0
        invariant
            1 <= p,
            res < p,
            cur < p,
            (res * pow(cur as int, n as nat)) % (p as int)
                == pow(b as int, e as nat) % (p as int),
        decreases n,
    {
        let ghost res0 = res as int;
        let ghost cur0 = cur as int;
        let ghost n0 = n as nat;
        let bit = n % 2;
        if bit == 1 {
            res = mul_mod(res, cur, p);
        }
        cur = mul_mod(cur, cur, p);
        n = n / 2;
        proof {
            let pi = p as int;
            let k = n as nat;
            lemma_fundamental_div_mod(n0 as int, 2);
            assert(n0 == (bit as nat) + 2 * k);
            // pow(cur0, n0) == pow(cur0, bit) * pow(cur0 * cur0, k)
            lemma_pow_adds(cur0, bit as nat, 2 * k);
            lemma_pow_multiplies(cur0, 2, k);
            lemma_square_is_pow2(cur0);
            let a = res0 * pow(cur0, bit as nat);
            let z = pow(cur0 * cur0, k);
            if bit == 1 {
                lemma_pow1(cur0);
            } else {
                lemma_pow0(cur0);
                lemma_small_mod(res0 as nat, p as nat);
            }
            assert(res == a % pi);
            // pow of the reduced square agrees with pow of the square, mod p.
            lemma_pow_mod_noop(cur0 * cur0, k, pi);
            assert(pow(cur as int, k) % pi == z % pi);
            lemma_mul_mod_noop_general(a, pow(cur as int, k), pi);
            lemma_mul_mod_noop_general(a, z, pi);
            assert((res * pow(cur as int, k)) % pi == (a * z) % pi);
            assert(a * z == res0 * pow(cur0, n0)) by (nonlinear_arith)
                requires
                    pow(cur0, n0) == pow(cur0, bit as nat) * z,
                    a == res0 * pow(cur0, bit as nat),
            ;
            lemma_mul_mod_noop_general(res0, pow(cur0, n0), pi);
        }
    }
    proof {
        lemma_pow0(cur as int);
        lemma_small_mod(res as nat, p as nat);
    }
    res
}

/// Multiplicative inverse of `v` modulo `p`, when one exists.
///
/// Runs the extended Euclidean algorithm on `(p, v)`, tracking only the
/// Bezout coefficient of `v`, reduced modulo `p` at every step.  `Some(t)`
/// with `v * t == 1 (mod p)` is returned exactly when `v` and `p` are
/// coprime; otherwise their common divisor makes `v` non-invertible and
/// `None` is returned.
pub fn inv_mod(v: u128, p: u128) -> (r: Option<u128>)
    requires
        1 <= p,
        v < p,
    ensures
        r is Some <==> gcd(p as nat, v as nat) == 1,
        r matches Some(t) ==> t < p && mod_mul(p as int, v as int, t as int) == 1int % (p as int),
{
    let mut r0: u128 = p;
    let mut r1: u128 = v;
    let mut t0: u128 = 0;
    let mut t1: u128 = 1 % p;
    proof {
        let pi = p as int;
        lemma_mod_self_0(pi);
        lemma_small_mod(v as nat, p as nat);
        lemma_small_mod(0nat, p as nat);
        lemma_mod_bound(1, pi);
        lemma_mul_mod_noop_right(v as int, 1, pi);
        assert((v as int) * 0 == 0 && (v as int) * 1 == v as int) by (nonlinear_arith);
        assert((v * t1) % pi == (r1 as int) % pi);
    }
    while r1 != 0
        invariant
            1 <= p,
            1 <= r0 <= p,
            r1 < r0,
            t0 < p,
            t1 < p,
            (v * t0) % (p as int) == (r0 as int) % (p as int),
            (v * t1) % (p as int) == (r1 as int) % (p as int),
            gcd(r0 as nat, r1 as nat) == gcd(p as nat, v as nat),
        decreases r1,
    {
        let ghost or0 = r0 as int;
        let ghost or1 = r1 as int;
        let ghost ot0 = t0 as int;
        let ghost ot1 = t1 as int;
        let q = r0 / r1;
        let r2 = r0 % r1;
        let t2 = sub_mod(t0, mul_mod(t1, q, p), p);
        r0 = r1;
        r1 = r2;
        t0 = t1;
        t1 = t2;
        proof {
            let pi = p as int;
            lemma_fundamental_div_mod(or0, or1);
            assert(or0 - or1 * q == r1);
            // t1 == (ot0 - ot1 * q) % p, with the inner reduction stripped.
            lemma_sub_mod_noop_right(ot0, ot1 * q, pi);
            assert(t1 == (ot0 - ot1 * q) % pi);
            // v * t1 == v * ot0 - (v * ot1) * q  (mod p)
            lemma_mul_mod_noop_right(v as int, ot0 - ot1 * q, pi);
            assert(v * (ot0 - ot1 * q) == v * ot0 - (v * ot1) * q) by (nonlinear_arith);
            assert((v * t1) % pi == (v * ot0 - (v * ot1) * q) % pi);
            // Replace v * ot1 by or1 and v * ot0 by or0, both mod p.
            lemma_mul_mod_noop_left(v * ot1, q as int, pi);
            lemma_mul_mod_noop_left(or1, q as int, pi);
            assert(((v * ot1) * q) % pi == (or1 * q) % pi);
            lemma_sub_mod_noop_right(v * ot0, (v * ot1) * q, pi);
            lemma_sub_mod_noop_right(v * ot0, or1 * q, pi);
            assert((v * t1) % pi == (v * ot0 - or1 * q) % pi);
            lemma_sub_mod_noop(v * ot0, or1 * q, pi);
            lemma_sub_mod_noop(or0, or1 * q, pi);
            assert((v * t1) % pi == (or0 - or1 * q) % pi);
            lemma_small_mod(r1 as nat, p as nat);
            assert((v * t1) % pi == (r1 as int) % pi);
            // One Euclidean step keeps the gcd.
            assert(gcd(or0 as nat, or1 as nat) == gcd(or1 as nat, (or0 as nat) % (or1 as nat)));
            assert(gcd(r0 as nat, r1 as nat) == gcd(p as nat, v as nat));
        }
    }
    proof {
        assert(gcd(r0 as nat, 0) == r0 as nat);
    }
    if r0 == 1 {
        Some(t0)
    } else {
        None
    }
}

} // verus!
