use sparta::field::{mod_inv, FieldError, FiniteField};

#[test]
fn new_reduces_into_canonical_range() {
    assert_eq!(FiniteField::new(10, 7).get_value(), 3);
    assert_eq!(FiniteField::new(-3, 7).get_value(), 4);
    assert_eq!(FiniteField::new(-7, 7).get_value(), 0);
    assert_eq!(FiniteField::new(-2147483648, 7).get_value(), 5);
    assert_eq!(FiniteField::new(6, 7).prime(), 7);
}

#[test]
fn add_sub_mul_wrap_around() {
    let a = FiniteField::new(5, 7);
    let b = FiniteField::new(4, 7);
    assert_eq!(a.add(&b).get_value(), 2);
    assert_eq!(FiniteField::new(2, 7).sub(&a).get_value(), 4);
    assert_eq!(FiniteField::new(3, 7).mul(&a).get_value(), 1);
}

#[test]
fn mul_near_the_largest_prime() {
    let p = 2147483647;
    let minus_one = FiniteField::new(p - 1, p);
    assert_eq!(minus_one.mul(&minus_one).get_value(), 1);
    assert_eq!(minus_one.add(&minus_one).get_value(), p - 2);
}

#[test]
fn inverse_in_a_prime_field() {
    assert_eq!(FiniteField::new(3, 7).inv(), Ok(FiniteField::new(5, 7)));
    let p = 2147483647;
    assert_eq!(FiniteField::new(2, p).inv().unwrap().get_value(), 1073741824);
    for v in 1..97 {
        let x = FiniteField::new(v, 97);
        let y = x.inv().unwrap();
        assert_eq!(x.mul(&y).get_value(), 1);
    }
}

#[test]
fn inverse_of_zero_is_an_error() {
    assert_eq!(FiniteField::new(0, 7).inv(), Err(FieldError::DivisionByZero));
    assert_eq!(FiniteField::new(14, 7).inv(), Err(FieldError::DivisionByZero));
}

#[test]
fn inverse_sharing_a_factor_with_the_modulus_is_an_error() {
    assert_eq!(FiniteField::new(2, 8).inv(), Err(FieldError::NotInvertible));
    assert_eq!(FiniteField::new(3, 8).inv(), Ok(FiniteField::new(3, 8)));
}

#[test]
fn division_multiplies_by_the_inverse() {
    let two = FiniteField::new(2, 7);
    let three = FiniteField::new(3, 7);
    assert_eq!(two.div(&three), Ok(FiniteField::new(3, 7)));
    assert_eq!(two.div(&FiniteField::new(0, 7)), Err(FieldError::DivisionByZero));
}

#[test]
fn mod_inv_by_extended_euclid() {
    assert_eq!(mod_inv(3, 7), Some(5));
    assert_eq!(mod_inv(17, 3120), Some(2753));
    assert_eq!(mod_inv(4, 8), None);
    assert_eq!(mod_inv(1, 2), Some(1));
}
