//! A prime field and its elements.
//!
//! [`Field`] owns a modulus and all the arithmetic rules; [`FieldElement`]
//! is a residue tagged with the field it belongs to.  Every operation
//! returns an element whose value is reduced into `[0, modulus)`.  An
//! operation on elements of different fields fails with
//! [`FieldError::CrossFieldOperation`]; division by an element that shares
//! a factor with the modulus fails with [`FieldError::NotInvertible`].

use vstd::prelude::*;

verus! {

use vstd::arithmetic::div_mod::*;
use vstd::arithmetic::power2::pow2;
use crate::arith::add_mod;
use crate::arith::gcd;
use crate::arith::inv_mod;
use crate::arith::mod_add;
use crate::arith::mod_mul;
use crate::arith::mod_neg;
use crate::arith::mod_pow;
use crate::arith::mod_sub;
use crate::arith::mul_mod;
use crate::arith::pow_mod;
use crate::arith::sub_mod;

/// The well-known large prime `407 * 2^119 + 1`, the default modulus of
/// [`Field::init`].  Its square does not fit any machine integer, so all
/// element arithmetic reduces eagerly instead of widening.
pub const STARK_MODULUS: u128 = 270497897142230380135924736767050121217;

/// A typed error of a field operation.
#[derive(Clone, Copy, PartialEq, Eq, Structural, Debug)]
pub enum FieldError {
    /// The divisor (carried for diagnostics) shares a nontrivial factor
    /// with the modulus, so it has no multiplicative inverse.  With a prime
    /// modulus this is exactly the divisor-is-zero case.
    NotInvertible(u128),
    /// The operands belong to fields with different moduli.
    CrossFieldOperation,
}

/// The field `Z/pZ`: a modulus together with the modular arithmetic rules.
///
/// The modulus must be positive; that it is prime is the caller's
/// responsibility and is not checked.
#[derive(Clone, Copy, PartialEq, Eq, Structural, Debug)]
pub struct Field {
    modulus: u128,
}

/// A residue value tagged with the [`Field`] it belongs to.  Its value is
/// always reduced into `[0, modulus)`.
#[derive(Clone, Copy, PartialEq, Eq, Structural, Debug)]
pub struct FieldElement {
    value: u128,
    field: Field,
}

impl Field {
    /// The modulus, as a mathematical integer.
    pub closed spec fn spec_modulus(self) -> int {
        self.modulus as int
    }

    /// The field's invariant: a positive modulus.
    pub open spec fn wf(self) -> bool {
        1 <= self.spec_modulus()
    }

    /// The field of the well-known prime [`STARK_MODULUS`].
    pub fn init() -> (f: Field)
        ensures
            f.wf(),
            f.spec_modulus() == STARK_MODULUS as int,
            f.spec_modulus() == 407 * pow2(119) + 1,
    {
        proof {
            vstd::arithmetic::power2::lemma_pow2_adds(64, 55);
            vstd::arithmetic::power2::lemma2_to64();
            vstd::arithmetic::power2::lemma2_to64_rest();
            assert(pow2(119) == 664613997892457936451903530140172288);
            assert(407 * pow2(119) + 1 == STARK_MODULUS as int);
        }
        Field { modulus: STARK_MODULUS }
    }

    /// A field with the caller-supplied positive modulus `p`.
    pub fn new(p: u128) -> (f: Field)
        requires
            1 <= p,
        ensures
            f.wf(),
            f.spec_modulus() == p,
    {
        Field { modulus: p }
    }

    /// The modulus this field reduces by.
    pub fn modulus(&self) -> (m: u128)
        ensures
            m == self.spec_modulus(),
    {
        self.modulus
    }

    /// The additive identity of this field.
    pub fn zero(&self) -> (z: FieldElement)
        requires
            self.wf(),
        ensures
            z.wf(),
            z.in_field(*self),
            z.spec_value() == 0,
    {
        FieldElement { value: 0, field: *self }
    }

    /// The multiplicative identity of this field (reduced, so it is `0` in
    /// the degenerate one-element field of modulus `1`).
    pub fn one(&self) -> (o: FieldElement)
        requires
            self.wf(),
        ensures
            o.wf(),
            o.in_field(*self),
            o.spec_value() == 1int % self.spec_modulus(),
    {
        proof {
            lemma_mod_bound(1, self.spec_modulus());
        }
        FieldElement { value: 1 % self.modulus, field: *self }
    }

    /// The sum `(left + right) % modulus` of two elements of this field.
    pub fn add(&self, left: FieldElement, right: FieldElement) -> (r: Result<
        FieldElement,
        FieldError,
    >)
        requires
            self.wf(),
            left.wf(),
            right.wf(),
        ensures
            left.in_field(*self) && right.in_field(*self) ==> (r matches Ok(v) && v.wf()
                && v.in_field(*self) && v.spec_value() == mod_add(
                self.spec_modulus(),
                left.spec_value(),
                right.spec_value(),
            )),
            !(left.in_field(*self) && right.in_field(*self)) ==> r == Err::<
                FieldElement,
                FieldError,
            >(FieldError::CrossFieldOperation),
    {
        if !(left.field == *self && right.field == *self) {
            return Err(FieldError::CrossFieldOperation);
        }
        Ok(FieldElement { value: add_mod(left.value, right.value, self.modulus), field: *self })
    }

    /// The difference `(left - right) % modulus`, normalized non-negative.
    pub fn subtract(&self, left: FieldElement, right: FieldElement) -> (r: Result<
        FieldElement,
        FieldError,
    >)
        requires
            self.wf(),
            left.wf(),
            right.wf(),
        ensures
            left.in_field(*self) && right.in_field(*self) ==> (r matches Ok(v) && v.wf()
                && v.in_field(*self) && v.spec_value() == mod_sub(
                self.spec_modulus(),
                left.spec_value(),
                right.spec_value(),
            )),
            !(left.in_field(*self) && right.in_field(*self)) ==> r == Err::<
                FieldElement,
                FieldError,
            >(FieldError::CrossFieldOperation),
    {
        if !(left.field == *self && right.field == *self) {
            return Err(FieldError::CrossFieldOperation);
        }
        Ok(FieldElement { value: sub_mod(left.value, right.value, self.modulus), field: *self })
    }

    /// The product `(left * right) % modulus` of two elements of this
    /// field; the reduction never overflows even though such products
    /// approach `modulus^2`.
    pub fn multiply(&self, left: FieldElement, right: FieldElement) -> (r: Result<
        FieldElement,
        FieldError,
    >)
        requires
            self.wf(),
            left.wf(),
            right.wf(),
        ensures
            left.in_field(*self) && right.in_field(*self) ==> (r matches Ok(v) && v.wf()
                && v.in_field(*self) && v.spec_value() == mod_mul(
                self.spec_modulus(),
                left.spec_value(),
                right.spec_value(),
            )),
            !(left.in_field(*self) && right.in_field(*self)) ==> r == Err::<
                FieldElement,
                FieldError,
            >(FieldError::CrossFieldOperation),
    {
        if !(left.field == *self && right.field == *self) {
            return Err(FieldError::CrossFieldOperation);
        }
        Ok(FieldElement { value: mul_mod(left.value, right.value, self.modulus), field: *self })
    }

    /// The additive inverse `(-operand) % modulus`, normalized
    /// non-negative.
    pub fn negate(&self, operand: FieldElement) -> (r: Result<FieldElement, FieldError>)
        requires
            self.wf(),
            operand.wf(),
        ensures
            operand.in_field(*self) ==> (r matches Ok(v) && v.wf() && v.in_field(*self)
                && v.spec_value() == mod_neg(self.spec_modulus(), operand.spec_value())),
            !operand.in_field(*self) ==> r == Err::<FieldElement, FieldError>(
                FieldError::CrossFieldOperation,
            ),
    {
        if !(operand.field == *self) {
            return Err(FieldError::CrossFieldOperation);
        }
        Ok(FieldElement { value: sub_mod(0, operand.value, self.modulus), field: *self })
    }

    /// The quotient of `left` by `right`: the unique element `v` with
    /// `v * right == left (mod modulus)`, obtained by multiplying `left`
    /// with `right`'s multiplicative inverse.  Fails with
    /// [`FieldError::NotInvertible`] exactly when `right` and the modulus
    /// are not coprime (for a prime modulus: exactly when `right` is zero).
    pub fn divide(&self, left: FieldElement, right: FieldElement) -> (r: Result<
        FieldElement,
        FieldError,
    >)
        requires
            self.wf(),
            left.wf(),
            right.wf(),
        ensures
            left.in_field(*self) && right.in_field(*self) && gcd(
                self.spec_modulus() as nat,
                right.spec_value() as nat,
            ) == 1 ==> (r matches Ok(v) && v.wf() && v.in_field(*self) && mod_mul(
                self.spec_modulus(),
                v.spec_value(),
                right.spec_value(),
            ) == left.spec_value()),
            left.in_field(*self) && right.in_field(*self) && gcd(
                self.spec_modulus() as nat,
                right.spec_value() as nat,
            ) != 1 ==> r == Err::<FieldElement, FieldError>(
                FieldError::NotInvertible(right.spec_value() as u128),
            ),
            !(left.in_field(*self) && right.in_field(*self)) ==> r == Err::<
                FieldElement,
                FieldError,
            >(FieldError::CrossFieldOperation),
    {
        if !(left.field == *self && right.field == *self) {
            return Err(FieldError::CrossFieldOperation);
        }
        match inv_mod(right.value, self.modulus) {
            None => Err(FieldError::NotInvertible(right.value)),
            Some(t) => {
                let w = mul_mod(left.value, t, self.modulus);
                proof {
                    let pi = self.spec_modulus();
                    let lv = left.spec_value();
                    let rv = right.spec_value();
                    let ti = t as int;
                    // (((lv*t) % p) * rv) % p == (lv * (rv*t)) % p == lv
                    lemma_mul_mod_noop_left(lv * ti, rv, pi);
                    assert((lv * ti) * rv == lv * (rv * ti)) by (nonlinear_arith);
                    lemma_mul_mod_noop_right(lv, rv * ti, pi);
                    lemma_mul_mod_noop_right(lv, 1, pi);
                    assert(lv * 1 == lv) by (nonlinear_arith);
                    lemma_small_mod(lv as nat, pi as nat);
                    assert((w as int * rv) % pi == lv);
                }
                Ok(FieldElement { value: w, field: *self })
            },
        }
    }

    /// The multiplicative inverse of `operand`: the unique element `v`
    /// with `v * operand == 1 (mod modulus)`.  Fails with
    /// [`FieldError::NotInvertible`] exactly when `operand` and the modulus
    /// are not coprime (for a prime modulus: exactly when `operand` is
    /// zero).
    pub fn inverse(&self, operand: FieldElement) -> (r: Result<FieldElement, FieldError>)
        requires
            self.wf(),
            operand.wf(),
        ensures
            operand.in_field(*self) && gcd(self.spec_modulus() as nat, operand.spec_value() as nat)
                == 1 ==> (r matches Ok(v) && v.wf() && v.in_field(*self) && mod_mul(
                self.spec_modulus(),
                v.spec_value(),
                operand.spec_value(),
            ) == 1int % self.spec_modulus()),
            operand.in_field(*self) && gcd(self.spec_modulus() as nat, operand.spec_value() as nat)
                != 1 ==> r == Err::<FieldElement, FieldError>(
                FieldError::NotInvertible(operand.spec_value() as u128),
            ),
            !operand.in_field(*self) ==> r == Err::<FieldElement, FieldError>(
                FieldError::CrossFieldOperation,
            ),
    {
        self.divide(self.one(), operand)
    }

    /// `left` raised to the non-negative exponent `right`, by
    /// square-and-multiply; the exponent `0` yields the multiplicative
    /// identity, for the zero base too.
    pub fn pow(&self, left: FieldElement, right: i128) -> (r: Result<FieldElement, FieldError>)
        requires
            self.wf(),
            left.wf(),
            0 <= right,
        ensures
            left.in_field(*self) ==> (r matches Ok(v) && v.wf() && v.in_field(*self)
                && v.spec_value() == mod_pow(self.spec_modulus(), left.spec_value(), right as nat)),
            !left.in_field(*self) ==> r == Err::<FieldElement, FieldError>(
                FieldError::CrossFieldOperation,
            ),
    {
        if !(left.field == *self) {
            return Err(FieldError::CrossFieldOperation);
        }
        Ok(FieldElement { value: pow_mod(left.value, right as u128, self.modulus), field: *self })
    }
}

impl FieldElement {
    /// The residue value, as a mathematical integer.
    pub closed spec fn spec_value(self) -> int {
        self.value as int
    }

    /// The field this element belongs to.
    pub closed spec fn spec_field(self) -> Field {
        self.field
    }

    /// The element's invariant: its field is well-formed and its value is
    /// reduced into `[0, modulus)`.
    pub open spec fn wf(self) -> bool {
        self.spec_field().wf() && 0 <= self.spec_value() < self.spec_field().spec_modulus()
    }

    /// Whether this element belongs to the field `f`.
    pub open spec fn in_field(self, f: Field) -> bool {
        self.spec_field() == f
    }

    /// An element of `field` holding `value` reduced into `[0, modulus)`;
    /// a negative `value` is normalized non-negative, as the Euclidean
    /// remainder is.
    pub fn new(value: i128, field: Field) -> (e: FieldElement)
        requires
            field.wf(),
        ensures
            e.wf(),
            e.in_field(field),
            e.spec_value() == (value as int) % field.spec_modulus(),
    {
        let p = field.modulus;
        if value >= 0 {
            proof {
                lemma_mod_bound(value as int, p as int);
            }
            FieldElement { value: (value as u128) % p, field }
        } else {
            // The magnitude is computed as -(value + 1) + 1 so that the
            // smallest i128 does not overflow on negation.
            let mag: u128 = (-(value + 1)) as u128 + 1;
            let m = mag % p;
            proof {
                let pi = p as int;
                lemma_mod_bound(mag as int, pi);
                lemma_fundamental_div_mod(mag as int, pi);
                // value == pi * (-(mag / pi)) + (-m), so value % pi == (-m) % pi
                lemma_mod_multiples_vanish(-((mag as int) / pi), -(m as int), pi);
                assert(pi * (-((mag as int) / pi)) == -(pi * ((mag as int) / pi)))
                    by (nonlinear_arith);
                assert(value as int == pi * (-((mag as int) / pi)) + (-(m as int)));
                assert((value as int) % pi == (-(m as int)) % pi);
                if m == 0 {
                    lemma_small_mod(0nat, p as nat);
                } else {
                    lemma_mod_add_multiples_vanish(-(m as int), pi);
                    lemma_small_mod((p - m) as nat, p as nat);
                }
            }
            if m == 0 {
                FieldElement { value: 0, field }
            } else {
                FieldElement { value: p - m, field }
            }
        }
    }

    /// The residue value of this element.
    pub fn value(&self) -> (v: u128)
        ensures
            v == self.spec_value(),
    {
        self.value
    }

    /// The sum of this element and `right`, in this element's field.
    pub fn _add(self, right: FieldElement) -> (r: Result<FieldElement, FieldError>)
        requires
            self.wf(),
            right.wf(),
        ensures
            right.in_field(self.spec_field()) ==> (r matches Ok(v) && v.wf() && v.in_field(
                self.spec_field(),
            ) && v.spec_value() == mod_add(
                self.spec_field().spec_modulus(),
                self.spec_value(),
                right.spec_value(),
            )),
            !right.in_field(self.spec_field()) ==> r == Err::<FieldElement, FieldError>(
                FieldError::CrossFieldOperation,
            ),
    {
        let f = self.field;
        f.add(self, right)
    }

    /// The product of this element and `right`, in this element's field.
    pub fn _mul(self, right: FieldElement) -> (r: Result<FieldElement, FieldError>)
        requires
            self.wf(),
            right.wf(),
        ensures
            right.in_field(self.spec_field()) ==> (r matches Ok(v) && v.wf() && v.in_field(
                self.spec_field(),
            ) && v.spec_value() == mod_mul(
                self.spec_field().spec_modulus(),
                self.spec_value(),
                right.spec_value(),
            )),
            !right.in_field(self.spec_field()) ==> r == Err::<FieldElement, FieldError>(
                FieldError::CrossFieldOperation,
            ),
    {
        let f = self.field;
        f.multiply(self, right)
    }

    /// The difference of this element and `right`, in this element's
    /// field.
    pub fn _sub(self, right: FieldElement) -> (r: Result<FieldElement, FieldError>)
        requires
            self.wf(),
            right.wf(),
        ensures
            right.in_field(self.spec_field()) ==> (r matches Ok(v) && v.wf() && v.in_field(
                self.spec_field(),
            ) && v.spec_value() == mod_sub(
                self.spec_field().spec_modulus(),
                self.spec_value(),
                right.spec_value(),
            )),
            !right.in_field(self.spec_field()) ==> r == Err::<FieldElement, FieldError>(
                FieldError::CrossFieldOperation,
            ),
    {
        let f = self.field;
        f.subtract(self, right)
    }

    /// The multiplicative inverse of this element in its field.  Fails
    /// with [`FieldError::NotInvertible`] exactly when this element and
    /// the modulus are not coprime.
    pub fn _inv(self) -> (r: Result<FieldElement, FieldError>)
        requires
            self.wf(),
        ensures
            gcd(self.spec_field().spec_modulus() as nat, self.spec_value() as nat) == 1 ==> (
            r matches Ok(v) && v.wf() && v.in_field(self.spec_field()) && mod_mul(
                self.spec_field().spec_modulus(),
                v.spec_value(),
                self.spec_value(),
            ) == 1int % self.spec_field().spec_modulus()),
            gcd(self.spec_field().spec_modulus() as nat, self.spec_value() as nat) != 1 ==> r
                == Err::<FieldElement, FieldError>(
                FieldError::NotInvertible(self.spec_value() as u128),
            ),
    {
        let f = self.field;
        f.inverse(self)
    }
}

} // verus!
