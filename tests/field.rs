use bf_vm::crypto::field::{FieldElement, MODULUS};
use std::ops::Mul;

#[test]
fn test_field_element_add() {
    let a = FieldElement(101);
    let b = FieldElement(18446744069414584320);
    // (101 + 18446744069414584320) % p
    let c = FieldElement(100);
    assert_eq!(a + b, c);
}

#[test]
fn test_field_element_sub() {
    let a = FieldElement(10);
    let b = FieldElement(11);
    // (10 + p - 11) % p
    let c = FieldElement(18446744069414584320);
    assert_eq!(a - b, c);
}

#[test]
fn test_field_element_mul() {
    let a = FieldElement(100000000000000);
    let b = FieldElement(200000000000000);
    // (100000000000000 * 200000000000000) % p
    let c = FieldElement(13612588910694654788);

    assert_eq!(a * b, c);
}

#[test]
fn test_field_element_div() {
    let a = FieldElement(10);
    let b = FieldElement(11);
    let c = FieldElement(10061860401498864176);

    assert_eq!(a / b, c);
}

#[test]
fn test_field_element_inverse() {
    let a = FieldElement(10);
    let b = FieldElement(16602069662473125889);

    assert_eq!(a.inverse(), b);
    assert_eq!(b.inverse(), a);
    assert_eq!(a.mul(b), FieldElement::one());
}

#[test]
fn constants_of_the_field() {
    assert_eq!(FieldElement::modulus(), 18446744069414584321);
    assert_eq!(MODULUS, 18446744069414584321);
    assert_eq!(FieldElement::zero(), FieldElement(0));
    assert_eq!(FieldElement::one(), FieldElement(1));
    assert_eq!(FieldElement(3).generator(), FieldElement(7));
}

#[test]
fn negation_adds_to_zero() {
    let a = FieldElement(12345);
    assert_eq!(-a, FieldElement(18446744069414584321 - 12345));
    assert_eq!(a + (-a), FieldElement(0));
    assert_eq!(-FieldElement(0), FieldElement(0));
}

#[test]
fn inverse_times_value_is_one() {
    for v in [1u64, 2, 7, 10, 18446744069414584320, 4294967295, 123456789] {
        let a = FieldElement(v);
        assert_eq!(a * a.inverse(), FieldElement(1));
    }
    assert_eq!(FieldElement(18446744069414584320).inverse(), FieldElement(18446744069414584320));
}

#[test]
fn operations_commute_and_associate() {
    let a = FieldElement(18446744069414584000);
    let b = FieldElement(987654321987654321);
    let c = FieldElement(5555555555555555555);
    assert_eq!(a + b, b + a);
    assert_eq!(a * b, b * a);
    assert_eq!((a + b) + c, a + (b + c));
    assert_eq!((a * b) * c, a * (b * c));
    assert_eq!(a * (b + c), a * b + a * c);
}

#[test]
fn pow_by_square_and_multiply() {
    assert_eq!(FieldElement(2).pow(FieldElement(10)), FieldElement(1024));
    assert_eq!(FieldElement(5).pow(FieldElement(0)), FieldElement(1));
    assert_eq!(FieldElement(0).pow(FieldElement(0)), FieldElement(1));
    assert_eq!(FieldElement(2).pow(FieldElement(64)), FieldElement(4294967295));
    // Fermat: a^(p-1) = 1 for a nonzero
    assert_eq!(FieldElement(7).pow(FieldElement(18446744069414584320)), FieldElement(1));
    assert_eq!(FieldElement(1753635133440165772).pow(FieldElement(4294967296)), FieldElement(1));
    assert_eq!(
        FieldElement(1753635133440165772).pow(FieldElement(2147483648)),
        FieldElement(18446744069414584320)
    );
}

#[test]
fn from_reduces_modulo_p() {
    assert_eq!(FieldElement::from(5), FieldElement(5));
    assert_eq!(FieldElement::from(18446744069414584321u64), FieldElement(0));
    assert_eq!(FieldElement::from(u64::MAX), FieldElement(4294967294));
}

#[test]
fn to_usize_reads_the_value() {
    assert_eq!(FieldElement(42).to_usize(), 42usize);
}

#[test]
fn from_usize_reduces_modulo_p() {
    assert_eq!(FieldElement::from_usize(42), FieldElement(42));
    assert_eq!(FieldElement::from_usize(0), FieldElement(0));
}
