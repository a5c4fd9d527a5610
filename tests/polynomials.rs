use sparta::field::FiniteField;
use sparta::polynomial::{Polynomial, PolynomialRing};

fn poly(values: &[i32]) -> Polynomial {
    Polynomial::new(values.iter().map(|v| FiniteField::new(*v, 7)).collect())
}

fn values(p: &Polynomial) -> Vec<i32> {
    p.coefficients().iter().map(|c| c.get_value()).collect()
}

#[test]
fn polynomial_add_and_sub() {
    let a = poly(&[1, 2, 3]);
    let b = poly(&[6, 5]);
    assert_eq!(values(&a.add(&b)), vec![0, 0, 3]);
    assert_eq!(values(&b.add(&a)), vec![0, 0, 3]);
    assert_eq!(values(&a.sub(&b)), vec![2, 4, 3]);
    assert_eq!(values(&b.sub(&a)), vec![5, 3, 4]);
}

#[test]
fn polynomial_mul_convolves() {
    let a = poly(&[1, 2, 3]);
    let b = poly(&[6, 5]);
    // 6 + 17x + 28x^2 + 15x^3
    assert_eq!(values(&a.mul(&b)), vec![6, 3, 0, 1]);
    assert_eq!(values(&poly(&[4]).mul(&poly(&[5]))), vec![6]);
}

#[test]
fn polynomial_evaluate() {
    let a = poly(&[1, 2, 3]);
    // 1 + 4 + 12 = 17
    assert_eq!(a.evaluate(&FiniteField::new(2, 7)).get_value(), 3);
    assert_eq!(a.evaluate(&FiniteField::new(0, 7)).get_value(), 1);
}

#[test]
fn ring_generators_are_unit_polynomials() {
    let ring = PolynomialRing::new(7, 3, "x, y, z");
    let gens = ring.gens();
    assert_eq!(gens.len(), 3);
    assert_eq!(values(gens[0]), vec![1, 0, 0]);
    assert_eq!(values(gens[1]), vec![0, 1, 0]);
    assert_eq!(values(gens[2]), vec![0, 0, 1]);
}

#[test]
fn ring_repeated_name_takes_its_last_position() {
    let ring = PolynomialRing::new(7, 3, "x, y, x");
    let gens = ring.gens();
    assert_eq!(gens.len(), 2);
    assert_eq!(values(gens[0]), vec![0, 0, 1]);
    assert_eq!(values(gens[1]), vec![0, 1, 0]);
}

#[test]
fn ring_names_past_the_count_get_zero_polynomials() {
    let ring = PolynomialRing::new(7, 2, "a, b, c");
    let gens = ring.gens();
    assert_eq!(gens.len(), 3);
    assert_eq!(values(gens[2]), vec![0, 0]);
}
