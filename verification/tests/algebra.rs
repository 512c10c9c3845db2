use prime_field::algebra::Field;
use prime_field::algebra::FieldElement;
use prime_field::algebra::FieldError;
use prime_field::algebra::STARK_MODULUS;

#[test]
fn scenario_modulus_17() {
    let f = Field::new(17);
    let a = FieldElement::new(5, f);
    let b = FieldElement::new(3, f);
    assert_eq!(f.add(a, b).unwrap(), FieldElement::new(8, f));
    assert_eq!(f.subtract(a, b).unwrap(), FieldElement::new(2, f));
    assert_eq!(f.multiply(a, b).unwrap(), FieldElement::new(15, f));
    assert_eq!(f.inverse(b).unwrap(), FieldElement::new(6, f));
    assert_eq!(f.divide(a, b).unwrap(), FieldElement::new(13, f));
}

#[test]
fn element_methods_delegate() {
    let f = Field::new(17);
    let a = FieldElement::new(5, f);
    let b = FieldElement::new(3, f);
    assert_eq!(a._add(b).unwrap(), f.add(a, b).unwrap());
    assert_eq!(a._sub(b).unwrap(), f.subtract(a, b).unwrap());
    assert_eq!(a._mul(b).unwrap(), f.multiply(a, b).unwrap());
    assert_eq!(b._inv().unwrap(), f.inverse(b).unwrap());
    assert_eq!(b._inv().unwrap().value(), 6);
}

#[test]
fn new_reduces_into_range() {
    let f = Field::new(17);
    assert_eq!(FieldElement::new(40, f), FieldElement::new(6, f));
    assert_eq!(FieldElement::new(40, f).value(), 6);
    assert_eq!(FieldElement::new(-5, f), FieldElement::new(12, f));
    assert_eq!(FieldElement::new(17, f), f.zero());
    assert_eq!(FieldElement::new(-17, f), f.zero());
    assert_eq!(FieldElement::new(-1, f).value(), 16);
    // -(2^127) == -9 == 8 (mod 17): the extreme negative input reduces too.
    assert_eq!(FieldElement::new(i128::MIN, f), FieldElement::new(8, f));
    // Against the large preset modulus, i128::MAX is already reduced.
    let g = Field::init();
    assert_eq!(FieldElement::new(i128::MAX, g).value(), 170141183460469231731687303715884105727);
}

#[test]
fn fermat_little_theorem_modulus_17() {
    let f = Field::new(17);
    for a in 1i128..17 {
        let x = FieldElement::new(a, f);
        assert_eq!(f.pow(x, 16).unwrap(), f.one());
    }
}

#[test]
fn closure_stays_in_range() {
    let f = Field::new(17);
    for a in 0i128..17 {
        for b in 0i128..17 {
            let x = FieldElement::new(a, f);
            let y = FieldElement::new(b, f);
            assert!(f.add(x, y).unwrap().value() < 17);
            assert!(f.subtract(x, y).unwrap().value() < 17);
            assert!(f.multiply(x, y).unwrap().value() < 17);
        }
    }
}

#[test]
fn additive_identity_and_inverse() {
    let f = Field::new(17);
    for a in 0i128..17 {
        let x = FieldElement::new(a, f);
        assert_eq!(f.add(x, f.zero()).unwrap(), x);
        let n = f.negate(x).unwrap();
        assert_eq!(f.add(x, n).unwrap(), f.zero());
    }
}

#[test]
fn multiplicative_identity_and_inverse() {
    let f = Field::new(17);
    for a in 0i128..17 {
        let x = FieldElement::new(a, f);
        assert_eq!(f.multiply(x, f.one()).unwrap(), x);
    }
    for a in 1i128..17 {
        let x = FieldElement::new(a, f);
        let v = f.inverse(x).unwrap();
        assert_eq!(f.multiply(x, v).unwrap(), f.one());
    }
}

#[test]
fn division_multiplication_round_trip() {
    let f = Field::new(17);
    for a in 0i128..17 {
        for b in 1i128..17 {
            let x = FieldElement::new(a, f);
            let y = FieldElement::new(b, f);
            let q = f.divide(x, y).unwrap();
            assert_eq!(f.multiply(q, y).unwrap(), x);
        }
    }
}

#[test]
fn pow_agrees_with_repeated_multiplication() {
    let f = Field::new(17);
    assert_eq!(f.pow(FieldElement::new(3, f), 4).unwrap(), FieldElement::new(13, f));
    for a in 0i128..17 {
        let x = FieldElement::new(a, f);
        assert_eq!(f.pow(x, 0).unwrap(), f.one());
        assert_eq!(f.pow(x, 1).unwrap(), x);
        let mut acc = f.one();
        for k in 1i128..8 {
            acc = f.multiply(acc, x).unwrap();
            assert_eq!(f.pow(x, k).unwrap(), acc);
        }
    }
}

#[test]
fn zero_divisor_is_not_invertible() {
    let f = Field::new(17);
    let a = FieldElement::new(5, f);
    assert_eq!(f.inverse(f.zero()), Err(FieldError::NotInvertible(0)));
    assert_eq!(f.divide(a, f.zero()), Err(FieldError::NotInvertible(0)));
    assert_eq!(f.zero()._inv(), Err(FieldError::NotInvertible(0)));
}

#[test]
fn composite_modulus_shares_factors() {
    let f = Field::new(12);
    let a = FieldElement::new(7, f);
    let four = FieldElement::new(4, f);
    let five = FieldElement::new(5, f);
    assert_eq!(f.divide(a, four), Err(FieldError::NotInvertible(4)));
    assert_eq!(f.inverse(four), Err(FieldError::NotInvertible(4)));
    // 5 * 5 == 25 == 1 (mod 12), so 5 is its own inverse.
    assert_eq!(f.inverse(five).unwrap(), five);
}

#[test]
fn cross_field_operations_fail() {
    let f = Field::new(17);
    let g = Field::new(19);
    let a = FieldElement::new(5, f);
    let c = FieldElement::new(5, g);
    assert_eq!(f.add(a, c), Err(FieldError::CrossFieldOperation));
    assert_eq!(f.subtract(c, a), Err(FieldError::CrossFieldOperation));
    assert_eq!(f.multiply(a, c), Err(FieldError::CrossFieldOperation));
    assert_eq!(f.divide(a, c), Err(FieldError::CrossFieldOperation));
    assert_eq!(f.negate(c), Err(FieldError::CrossFieldOperation));
    assert_eq!(f.inverse(c), Err(FieldError::CrossFieldOperation));
    assert_eq!(f.pow(c, 3), Err(FieldError::CrossFieldOperation));
    assert_eq!(a._add(c), Err(FieldError::CrossFieldOperation));
    assert_eq!(a._mul(c), Err(FieldError::CrossFieldOperation));
}

#[test]
fn preset_field_uses_the_well_known_prime() {
    let f = Field::init();
    assert_eq!(f.modulus(), 270497897142230380135924736767050121217);
    assert_eq!(f.modulus(), STARK_MODULUS);
    assert_eq!(Field::new(STARK_MODULUS), f);
}

#[test]
fn preset_field_arithmetic_near_the_modulus() {
    let f = Field::init();
    // minus_one holds the largest residue, STARK_MODULUS - 1.
    let minus_one = f.subtract(f.zero(), f.one()).unwrap();
    assert_eq!(minus_one.value(), STARK_MODULUS - 1);
    assert_eq!(FieldElement::new(-1, f), minus_one);
    assert_eq!(f.negate(f.one()).unwrap(), minus_one);
    // (p - 1)^2 == 1 (mod p): the widest possible product reduces exactly.
    assert_eq!(f.multiply(minus_one, minus_one).unwrap(), f.one());
    assert_eq!(f.pow(minus_one, 2).unwrap(), f.one());
    assert_eq!(f.pow(minus_one, 3).unwrap(), minus_one);
    assert_eq!(f.inverse(minus_one).unwrap(), minus_one);
    assert_eq!(f.divide(f.one(), minus_one).unwrap(), minus_one);
    // (p - 1) + (p - 1) == p - 2 (mod p).
    let sum = f.add(minus_one, minus_one).unwrap();
    assert_eq!(sum.value(), STARK_MODULUS - 2);
}

#[test]
fn degenerate_modulus_one_field() {
    let f = Field::new(1);
    assert_eq!(f.one(), f.zero());
    assert_eq!(f.one().value(), 0);
    // gcd(1, 0) == 1, so in the one-element field even zero is invertible.
    assert_eq!(f.inverse(f.zero()).unwrap(), f.zero());
}
