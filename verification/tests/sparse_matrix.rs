//! Tests for the sparse coordinate-matrix conversion.

use qoqo_calculator::CalculatorComplex;
use struqture::error::StruqtureError;
use struqture::operator::DecoherenceOperator;
use struqture::product::DecoherenceProduct;

fn coo_triples(
    op: &DecoherenceOperator,
    number_spins: usize,
) -> Vec<(u64, u64, CalculatorComplex)> {
    let (values, (rows, cols)) = op.sparse_matrix_coo(number_spins).unwrap();
    rows.into_iter()
        .zip(cols.into_iter())
        .zip(values.into_iter())
        .map(|((r, c), v)| (r, c, v))
        .collect()
}

// Z is diagonal with alternating sign
#[test]
fn matrix_z() {
    let mut so = DecoherenceOperator::new();
    so.add_operator_product(DecoherenceProduct::new().z(0), CalculatorComplex::from(2.0))
        .unwrap();
    let triples = coo_triples(&so, 1);
    assert_eq!(
        triples,
        vec![
            (0, 0, CalculatorComplex::from(2.0)),
            (1, 1, CalculatorComplex::from(-2.0)),
        ]
    );
}

// X flips the basis bit
#[test]
fn matrix_x() {
    let mut so = DecoherenceOperator::new();
    so.add_operator_product(DecoherenceProduct::new().x(0), CalculatorComplex::from(2.0))
        .unwrap();
    let triples = coo_triples(&so, 1);
    assert_eq!(
        triples,
        vec![
            (1, 0, CalculatorComplex::from(2.0)),
            (0, 1, CalculatorComplex::from(2.0)),
        ]
    );
}

// iY flips the basis bit and maps the 0 state to minus the 1 state
#[test]
fn matrix_iy() {
    let mut so = DecoherenceOperator::new();
    so.add_operator_product(DecoherenceProduct::new().iy(0), CalculatorComplex::from(1.0))
        .unwrap();
    let triples = coo_triples(&so, 1);
    assert_eq!(
        triples,
        vec![
            (1, 0, CalculatorComplex::from(-1.0)),
            (0, 1, CalculatorComplex::from(1.0)),
        ]
    );
}

// Entries of different keys landing on the same row of a column are summed
#[test]
fn matrix_sums_same_entry() {
    let mut so = DecoherenceOperator::new();
    so.add_operator_product(DecoherenceProduct::new(), CalculatorComplex::from(1.0))
        .unwrap();
    so.add_operator_product(DecoherenceProduct::new().z(0), CalculatorComplex::from(2.0))
        .unwrap();
    let triples = coo_triples(&so, 1);
    assert_eq!(
        triples,
        vec![
            (0, 0, CalculatorComplex::from(3.0)),
            (1, 1, CalculatorComplex::from(-1.0)),
        ]
    );
}

// A two-spin product acts on both bits
#[test]
fn matrix_two_spins() {
    let mut so = DecoherenceOperator::new();
    so.add_operator_product(
        DecoherenceProduct::new().z(0).x(1),
        CalculatorComplex::from(1.0),
    )
    .unwrap();
    let triples = coo_triples(&so, 2);
    assert_eq!(
        triples,
        vec![
            (2, 0, CalculatorComplex::from(1.0)),
            (3, 1, CalculatorComplex::from(-1.0)),
            (0, 2, CalculatorComplex::from(1.0)),
            (1, 3, CalculatorComplex::from(-1.0)),
        ]
    );
}

// An operator needing more spins than the declared basis is rejected
#[test]
fn matrix_dimension_mismatch() {
    let mut so = DecoherenceOperator::new();
    so.add_operator_product(DecoherenceProduct::new().z(2), CalculatorComplex::from(1.0))
        .unwrap();
    let err = so.sparse_matrix_coo(1).unwrap_err();
    assert_eq!(
        err,
        StruqtureError::DimensionMismatch {
            expected: 3,
            found: 1
        }
    );
}

// The empty operator on zero spins is the one-by-one empty matrix
#[test]
fn matrix_empty() {
    let so = DecoherenceOperator::new();
    let (values, (rows, cols)) = so.sparse_matrix_coo(0).unwrap();
    assert!(values.is_empty());
    assert!(rows.is_empty());
    assert!(cols.is_empty());
}
