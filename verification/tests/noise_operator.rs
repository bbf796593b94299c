//! Tests for the Lindblad noise container keyed by pairs of products.

use qoqo_calculator::CalculatorComplex;
use struqture::error::StruqtureError;
use struqture::noise::DecoherenceLindbladNoiseOperator;
use struqture::noise_system::DecoherenceLindbladNoiseSystem;
use struqture::product::DecoherenceProduct;

// A dissipator entry is stored under its ordered pair of products
#[test]
fn noise_set_get() {
    let dp = DecoherenceProduct::new().z(0).x(1);
    let mut slns = DecoherenceLindbladNoiseOperator::new();
    assert!(slns.is_empty());
    slns.add_operator_product(dp.clone(), dp.clone(), CalculatorComplex::from(2.0))
        .unwrap();
    assert_eq!(slns.get(&dp, &dp), CalculatorComplex::from(2.0));
    assert_eq!(slns.len(), 1);
}

// The two sides of the pair are distinguished
#[test]
fn noise_pair_order_matters() {
    let left = DecoherenceProduct::new().z(0);
    let right = DecoherenceProduct::new().x(0);
    let mut slns = DecoherenceLindbladNoiseOperator::new();
    slns.set(left.clone(), right.clone(), CalculatorComplex::from(1.0))
        .unwrap();
    assert_eq!(slns.get(&left, &right), CalculatorComplex::from(1.0));
    assert_eq!(slns.get(&right, &left), CalculatorComplex::from(0.0));
}

// Merge-add with exact cancellation removes the entry
#[test]
fn noise_cancellation() {
    let left = DecoherenceProduct::new().z(0);
    let right = DecoherenceProduct::new().x(1);
    let mut slns = DecoherenceLindbladNoiseOperator::new();
    slns.add_operator_product(left.clone(), right.clone(), CalculatorComplex::from(0.5))
        .unwrap();
    slns.add_operator_product(left.clone(), right.clone(), CalculatorComplex::from(-0.5))
        .unwrap();
    assert!(slns.is_empty());
}

// Overwrite, remove, and the pair export in key order
#[test]
fn noise_set_remove_pairs() {
    let a = DecoherenceProduct::new().x(0);
    let b = DecoherenceProduct::new().z(0);
    let mut slns = DecoherenceLindbladNoiseOperator::new();
    slns.set(b.clone(), b.clone(), CalculatorComplex::from(2.0))
        .unwrap();
    slns.set(a.clone(), a.clone(), CalculatorComplex::from(1.0))
        .unwrap();
    let pairs = slns.to_pairs();
    assert_eq!(pairs.len(), 2);
    assert_eq!(pairs[0].0, (a.clone(), a.clone()));
    assert_eq!(pairs[1].0, (b.clone(), b.clone()));

    let old = slns.remove(&a, &a);
    assert_eq!(old, Some(CalculatorComplex::from(1.0)));
    assert_eq!(slns.len(), 1);
    assert_eq!(slns.remove(&a, &a), None);

    // setting an exactly-zero coefficient clears the entry
    let old = slns.set(b.clone(), b.clone(), CalculatorComplex::from(0.0)).unwrap();
    assert_eq!(old, Some(CalculatorComplex::from(2.0)));
    assert!(slns.is_empty());
}

// Negation flips every coefficient and keeps the keys
#[test]
fn noise_negation() {
    let dp = DecoherenceProduct::new().iy(0);
    let mut slns = DecoherenceLindbladNoiseOperator::new();
    slns.add_operator_product(dp.clone(), dp.clone(), CalculatorComplex::from(2.0))
        .unwrap();
    let negated = slns.neg();
    assert_eq!(negated.get(&dp, &dp), CalculatorComplex::from(-2.0));
    assert_eq!(negated.len(), 1);
}

// A bounded noise system accepts keys under its bound and stores them
#[test]
fn noise_system_set_get() {
    let dp = DecoherenceProduct::new().z(0).x(1);
    let mut slns = DecoherenceLindbladNoiseSystem::new(Some(2));
    slns.add_operator_product(dp.clone(), dp.clone(), CalculatorComplex::from(2.0))
        .unwrap();
    assert_eq!(slns.get(&dp, &dp), CalculatorComplex::from(2.0));
    assert_eq!(slns.len(), 1);
}

// A bounded noise system rejects a key whose right product is out of bound
#[test]
fn noise_system_capacity() {
    let ok = DecoherenceProduct::new().z(0);
    let bad = DecoherenceProduct::new().x(3);
    let mut slns = DecoherenceLindbladNoiseSystem::new(Some(2));
    let err = slns
        .add_operator_product(ok.clone(), bad.clone(), CalculatorComplex::from(1.0))
        .unwrap_err();
    assert_eq!(
        err,
        StruqtureError::CapacityViolation {
            index: 3,
            number_spins: 2
        }
    );
    assert!(slns.is_empty());
}

// Noise operators add and subtract entry-wise
#[test]
fn noise_add_sub() {
    let dp_a = DecoherenceProduct::new().z(0);
    let dp_b = DecoherenceProduct::new().x(1);
    let mut a = DecoherenceLindbladNoiseOperator::new();
    a.add_operator_product(dp_a.clone(), dp_a.clone(), CalculatorComplex::from(1.0))
        .unwrap();
    let mut b = DecoherenceLindbladNoiseOperator::new();
    b.add_operator_product(dp_a.clone(), dp_a.clone(), CalculatorComplex::from(0.5))
        .unwrap();
    b.add_operator_product(dp_b.clone(), dp_b.clone(), CalculatorComplex::from(2.0))
        .unwrap();

    let sum = a.clone().add(b.clone());
    assert_eq!(sum.get(&dp_a, &dp_a), CalculatorComplex::from(1.5));
    assert_eq!(sum.get(&dp_b, &dp_b), CalculatorComplex::from(2.0));

    let diff = a.clone().sub(b);
    assert_eq!(diff.get(&dp_a, &dp_a), CalculatorComplex::from(0.5));
    assert_eq!(diff.get(&dp_b, &dp_b), CalculatorComplex::from(-2.0));

    // subtracting an operator from itself leaves nothing
    let zero = a.clone().sub(a);
    assert!(zero.is_empty());
}

// Hermitian conjugation swaps the dissipator pair and conjugates the value
#[test]
fn noise_hermitian_conjugate() {
    let left = DecoherenceProduct::new().z(0);
    let right = DecoherenceProduct::new().x(1);
    let mut slns = DecoherenceLindbladNoiseOperator::new();
    slns.add_operator_product(left.clone(), right.clone(), CalculatorComplex::new(1.0, 2.0))
        .unwrap();
    let conj = slns.hermitian_conjugate();
    assert_eq!(conj.get(&right, &left), CalculatorComplex::new(1.0, -2.0));
    assert_eq!(conj.get(&left, &right), CalculatorComplex::from(0.0));
    assert_eq!(conj.len(), 1);
}
