//! Scenario tests for the algebraic laws, the token grammar, the version
//! gate and the capacity-bounded container.

use qoqo_calculator::CalculatorComplex;
use struqture::error::StruqtureError;
use struqture::operator::DecoherenceOperator;
use struqture::product::{DecoherenceProduct, Sign, SingleDecoherenceOperator};
use struqture::serialize::{SCHEMA_MAJOR_VERSION, SCHEMA_MINOR_VERSION};
use struqture::system::DecoherenceSystem;

fn single_term(pp: DecoherenceProduct, c: CalculatorComplex) -> DecoherenceOperator {
    let mut so = DecoherenceOperator::new();
    so.add_operator_product(pp, c).unwrap();
    so
}

fn mul_case(left: &str, right: &str, expected: &str, coeff: CalculatorComplex) {
    let pp_0 = DecoherenceProduct::parse_token(left).unwrap();
    let so_0 = single_term(pp_0, CalculatorComplex::from(2.0));
    let pp_1 = DecoherenceProduct::parse_token(right).unwrap();
    let so_1 = single_term(pp_1, CalculatorComplex::from(0.5));
    let pp_0_1 = DecoherenceProduct::parse_token(expected).unwrap();
    let so_0_1 = single_term(pp_0_1, coeff);
    assert_eq!(so_0.mul(&so_1), so_0_1);
}

// X * X = I, and likewise along the whole single-spin table
#[test]
fn mul_all_paulis_x_x() {
    mul_case("0X", "0X", "0I", CalculatorComplex::from(1.0));
    mul_case("0X1X", "0X", "0I1X", CalculatorComplex::new(1.0, 0.0));
}

#[test]
fn mul_all_paulis_x_iy() {
    mul_case("0X1X", "0iY", "0Z1X", CalculatorComplex::new(-1.0, 0.0));
    mul_case("0iY1X", "0X", "0Z1X", CalculatorComplex::new(1.0, 0.0));
}

#[test]
fn mul_all_paulis_x_z() {
    mul_case("0X1X", "0Z", "0iY1X", CalculatorComplex::new(-1.0, 0.0));
    mul_case("0Z1X", "0X", "0iY1X", CalculatorComplex::new(1.0, 0.0));
}

#[test]
fn mul_all_paulis_iy_iy() {
    mul_case("0iY1X", "0iY", "0I1X", CalculatorComplex::new(-1.0, 0.0));
}

#[test]
fn mul_all_paulis_iy_z() {
    mul_case("0iY1X", "0Z", "0X1X", CalculatorComplex::new(-1.0, 0.0));
    mul_case("0Z1X", "0iY", "0X1X", CalculatorComplex::new(1.0, 0.0));
}

#[test]
fn mul_all_paulis_z_z() {
    mul_case("0Z1X", "0Z", "0I1X", CalculatorComplex::new(1.0, 0.0));
    mul_case("0Z", "0Z", "0I", CalculatorComplex::new(1.0, 0.0));
}

// Multiplying products in either order yields the same key
#[test]
fn product_commutes_up_to_sign() {
    let a = DecoherenceProduct::new().z(0).x(2);
    let b = DecoherenceProduct::new().x(0).x(1);
    let (ab, sign_ab) = DecoherenceProduct::multiply(&a, &b);
    let (ba, sign_ba) = DecoherenceProduct::multiply(&b, &a);
    assert_eq!(ab, ba);
    assert_eq!(ab, DecoherenceProduct::new().iy(0).x(1).x(2));
    assert_eq!(sign_ab, Sign::Positive);
    assert_eq!(sign_ba, Sign::Negative);
}

// Storage is idempotent: setting the same entry twice stores it once
#[test]
fn set_idempotent() {
    let pp = DecoherenceProduct::new().z(0);
    let mut so = DecoherenceOperator::new();
    so.set(pp.clone(), CalculatorComplex::from(0.5)).unwrap();
    so.set(pp.clone(), CalculatorComplex::from(0.5)).unwrap();
    assert_eq!(so.len(), 1);
    assert_eq!(so.get(&pp), CalculatorComplex::from(0.5));
}

// Zero-cancellation removes the entry and shrinks the container
#[test]
fn add_term_cancels() {
    let pp = DecoherenceProduct::new().z(0);
    let other = DecoherenceProduct::new().x(1);
    let mut so = DecoherenceOperator::new();
    so.add_operator_product(other, CalculatorComplex::from(2.0))
        .unwrap();
    so.add_operator_product(pp.clone(), CalculatorComplex::from(0.5))
        .unwrap();
    assert_eq!(so.len(), 2);
    so.add_operator_product(pp.clone(), CalculatorComplex::from(-0.5))
        .unwrap();
    assert_eq!(so.len(), 1);
    assert_eq!(so.get(&pp), CalculatorComplex::from(0.0));
}

// A single term summed with its own negation yields the empty operator
#[test]
fn single_term_plus_negation_is_empty() {
    let pp = DecoherenceProduct::new().z(0);
    let so = single_term(pp, CalculatorComplex::from(2.0));
    let negated = so.neg();
    assert!(so.add(negated).is_empty());
}

// Additivity: (A + B).get(p) == A.get(p) + B.get(p) over the union of keys
#[test]
fn addition_is_entrywise() {
    let pp_0 = DecoherenceProduct::new().z(0);
    let pp_1 = DecoherenceProduct::new().x(1);
    let pp_2 = DecoherenceProduct::new().iy(2);
    let mut a = DecoherenceOperator::new();
    a.add_operator_product(pp_0.clone(), CalculatorComplex::from(1.0))
        .unwrap();
    a.add_operator_product(pp_1.clone(), CalculatorComplex::from(2.0))
        .unwrap();
    let mut b = DecoherenceOperator::new();
    b.add_operator_product(pp_1.clone(), CalculatorComplex::from(0.25))
        .unwrap();
    b.add_operator_product(pp_2.clone(), CalculatorComplex::from(-1.5))
        .unwrap();
    let sum = a.clone().add(b.clone());
    for pp in [pp_0, pp_1, pp_2] {
        assert_eq!(sum.get(&pp), a.get(&pp) + b.get(&pp));
    }
}

// Multiplication distributes over addition on these operands
#[test]
fn multiplication_distributes() {
    let mut a = DecoherenceOperator::new();
    a.add_operator_product(DecoherenceProduct::new().z(0), CalculatorComplex::from(2.0))
        .unwrap();
    let mut b = DecoherenceOperator::new();
    b.add_operator_product(DecoherenceProduct::new().x(1), CalculatorComplex::from(0.5))
        .unwrap();
    let mut c = DecoherenceOperator::new();
    c.add_operator_product(
        DecoherenceProduct::new().x(0).iy(2),
        CalculatorComplex::from(1.5),
    )
    .unwrap();
    let left = a.mul(&b.clone().add(c.clone()));
    let right = a.mul(&b).add(a.mul(&c));
    assert_eq!(left, right);
}

// Separation partitions exhaustively and disjointly
#[test]
fn separate_recombines() {
    let mut so = DecoherenceOperator::new();
    so.add_operator_product(DecoherenceProduct::new().z(0), CalculatorComplex::from(1.0))
        .unwrap();
    so.add_operator_product(
        DecoherenceProduct::new().z(0).x(1),
        CalculatorComplex::from(2.0),
    )
    .unwrap();
    so.add_operator_product(
        DecoherenceProduct::new().x(1).iy(3),
        CalculatorComplex::from(3.0),
    )
    .unwrap();
    let (sep, rem) = so.separate_into_n_terms(2).unwrap();
    assert_eq!(sep.len(), 2);
    assert_eq!(rem.len(), 1);
    assert_eq!(sep.add(rem), so);
}

// Hermitian conjugation flips the sign of an iY term
#[test]
fn hermitian_conjugate_iy() {
    let so = single_term(DecoherenceProduct::new().iy(0), CalculatorComplex::from(1.0));
    let expected = single_term(
        DecoherenceProduct::new().iy(0),
        CalculatorComplex::from(-1.0),
    );
    assert_eq!(so.hermitian_conjugate(), expected);
}

// Token round trips, the identity token, and malformed tokens
#[test]
fn token_round_trip() {
    for token in ["I", "0X", "0iY1X", "0Z1X", "2Z", "10X11Z"] {
        let pp = DecoherenceProduct::parse_token(token).unwrap();
        assert_eq!(pp.to_token(), token);
    }
}

#[test]
fn token_identity() {
    let pp = DecoherenceProduct::parse_token("I").unwrap();
    assert!(pp.is_identity());
    assert_eq!(DecoherenceProduct::new().to_token(), "I");
}

#[test]
fn token_out_of_order_is_canonicalized() {
    let pp = DecoherenceProduct::parse_token("1X0Z").unwrap();
    assert_eq!(pp, DecoherenceProduct::new().z(0).x(1));
    assert_eq!(pp.to_token(), "0Z1X");
}

#[test]
fn token_malformed() {
    for token in ["abc", "0", "0Q", "X0", "0i", "1Xz"] {
        let err = DecoherenceProduct::parse_token(token).unwrap_err();
        assert_eq!(
            err,
            StruqtureError::MalformedToken {
                token: token.to_string()
            }
        );
    }
}

// A schema major version above the library's is rejected before any data
#[test]
fn unsupported_schema_version() {
    let items: Vec<(String, CalculatorComplex)> = Vec::new();
    let err = DecoherenceOperator::readable_decode(&items, SCHEMA_MAJOR_VERSION + 1, 0)
        .unwrap_err();
    assert_eq!(
        err,
        StruqtureError::UnsupportedSchemaVersion {
            major: SCHEMA_MAJOR_VERSION + 1
        }
    );
    let compact: Vec<(Vec<(usize, SingleDecoherenceOperator)>, CalculatorComplex)> = Vec::new();
    let err = DecoherenceOperator::compact_decode(&compact, SCHEMA_MAJOR_VERSION + 1, 7)
        .unwrap_err();
    assert_eq!(
        err,
        StruqtureError::UnsupportedSchemaVersion {
            major: SCHEMA_MAJOR_VERSION + 1
        }
    );
    assert_eq!(SCHEMA_MINOR_VERSION, 0);
}

// A bounded system rejects keys at or above its declared spin count
#[test]
fn capacity_violation() {
    let mut system = DecoherenceSystem::new(Some(2));
    let ok_key = DecoherenceProduct::new().z(1);
    system
        .set(ok_key.clone(), CalculatorComplex::from(1.0))
        .unwrap();
    assert_eq!(system.get(&ok_key), CalculatorComplex::from(1.0));

    let bad_key = DecoherenceProduct::new().z(5);
    let err = system
        .set(bad_key.clone(), CalculatorComplex::from(1.0))
        .unwrap_err();
    assert_eq!(
        err,
        StruqtureError::CapacityViolation {
            index: 5,
            number_spins: 2
        }
    );
    let err = system
        .add_operator_product(bad_key, CalculatorComplex::from(1.0))
        .unwrap_err();
    assert_eq!(
        err,
        StruqtureError::CapacityViolation {
            index: 5,
            number_spins: 2
        }
    );
    assert_eq!(system.len(), 1);
    assert_eq!(system.number_spins(), 2);

    let mut unbounded = DecoherenceSystem::new(None);
    unbounded
        .add_operator_product(DecoherenceProduct::new().z(5), CalculatorComplex::from(1.0))
        .unwrap();
    assert_eq!(unbounded.number_spins(), 6);
}

// The version strings of the library
#[test]
fn version_strings() {
    assert_eq!(struqture::serialize::current_version(), "1.0.0");
    assert_eq!(struqture::serialize::min_supported_version(), "1.0.0");
}

// A zero coefficient is never stored
#[test]
fn zero_never_stored() {
    let mut so = DecoherenceOperator::new();
    so.set(DecoherenceProduct::new().z(0), CalculatorComplex::from(0.0))
        .unwrap();
    assert!(so.is_empty());
    so.add_operator_product(DecoherenceProduct::new().x(1), CalculatorComplex::from(0.0))
        .unwrap();
    assert!(so.is_empty());
}
