//! Integration tests for the public API of the decoherence operator.

use qoqo_calculator::{CalculatorComplex, CalculatorFloat};
use std::collections::BTreeMap;
use struqture::error::StruqtureError;
use struqture::operator::DecoherenceOperator;
use struqture::product::{DecoherenceProduct, SingleDecoherenceOperator};
use struqture::serialize::{SCHEMA_MAJOR_VERSION, SCHEMA_MINOR_VERSION};
use struqture::system::DecoherenceSystem;

fn cc_parts(c: &CalculatorComplex) -> (f64, f64) {
    let re = match &c.re {
        qoqo_calculator::CalculatorFloat::Float(x) => *x,
        _ => panic!("symbolic coefficient in a float-only test"),
    };
    let im = match &c.im {
        qoqo_calculator::CalculatorFloat::Float(x) => *x,
        _ => panic!("symbolic coefficient in a float-only test"),
    };
    (re, im)
}

fn sym_tag(s: SingleDecoherenceOperator) -> u8 {
    match s {
        SingleDecoherenceOperator::Identity => 0,
        SingleDecoherenceOperator::X => 1,
        SingleDecoherenceOperator::IY => 2,
        SingleDecoherenceOperator::Z => 3,
    }
}

fn sym_of_tag(t: u8) -> SingleDecoherenceOperator {
    match t {
        0 => SingleDecoherenceOperator::Identity,
        1 => SingleDecoherenceOperator::X,
        2 => SingleDecoherenceOperator::IY,
        3 => SingleDecoherenceOperator::Z,
        _ => panic!("unknown symbol tag"),
    }
}

// Test the new function of the DecoherenceOperator
#[test]
fn new() {
    let so = DecoherenceOperator::new();
    assert!(so.is_empty());
    assert_eq!(DecoherenceOperator::new(), DecoherenceOperator::default())
}

#[test]
fn empty_clone_options() {
    let pp_2: DecoherenceProduct = DecoherenceProduct::new().z(2);
    let mut system = DecoherenceOperator::new();
    system.set(pp_2, CalculatorComplex::from(0.5)).unwrap();

    let empty: Option<usize> = None;
    let full: Option<usize> = Some(3);
    assert_eq!(system.empty_clone(empty), DecoherenceOperator::new());
    assert_eq!(
        system.empty_clone(full),
        DecoherenceOperator::with_capacity(1)
    );
}

// Test the current_number_spins function of the DecoherenceOperator
#[test]
fn internal_map_current_number_spins() {
    let pp_0: DecoherenceProduct = DecoherenceProduct::new().x(0);
    let pp_2: DecoherenceProduct = DecoherenceProduct::new().z(2);
    let mut so = DecoherenceOperator::new();
    assert_eq!(so.current_number_spins(), 0_usize);
    so.set(pp_0, CalculatorComplex::from(0.5)).unwrap();
    assert_eq!(so.current_number_spins(), 1_usize);
    so.set(pp_2, CalculatorComplex::from(0.5)).unwrap();
    assert_eq!(so.current_number_spins(), 3_usize);
}

// Test the len function of the DecoherenceOperator
#[test]
fn internal_map_len() {
    let pp_2: DecoherenceProduct = DecoherenceProduct::new().z(2);
    let mut so = DecoherenceOperator::new();
    so.set(pp_2, CalculatorComplex::from(0.5)).unwrap();
    assert_eq!(so.len(), 1_usize);
}

// Test the set, get and keys/values functions of the DecoherenceOperator
#[test]
fn internal_map_set_get_dict() {
    let mut system = DecoherenceOperator::new();
    assert_eq!(system.number_spins(), 0_usize);
    let pp_0: DecoherenceProduct = DecoherenceProduct::new().z(0);

    // 1) Test set and get functions
    // Vacant
    system
        .set(pp_0.clone(), CalculatorComplex::from(0.0))
        .unwrap();
    system
        .set(pp_0.clone(), CalculatorComplex::from(0.5))
        .unwrap();
    assert_eq!(system.number_spins(), 1_usize);
    assert_eq!(system.get(&pp_0), CalculatorComplex::from(0.5));

    // 2) Test iteration, keys, values functions
    let mut map: BTreeMap<DecoherenceProduct, CalculatorComplex> = BTreeMap::new();
    map.insert(pp_0, CalculatorComplex::from(0.5));
    // entry pairs
    let dict = system.to_pairs();
    for (item_d, item_m) in dict.iter().zip(map.iter()) {
        assert_eq!((&item_d.0, &item_d.1), item_m);
    }
    // keys
    let keys = system.keys();
    for (key_s, key_m) in keys.iter().zip(map.keys()) {
        assert_eq!(key_s, key_m);
    }
    // values
    let values = system.values();
    for (val_s, val_m) in values.iter().zip(map.values()) {
        assert_eq!(val_s, val_m);
    }
}

// Test the set, get and remove functions of the DecoherenceOperator
#[test]
fn internal_map_set_get_remove() {
    let pp_2: DecoherenceProduct = DecoherenceProduct::new().z(2);
    let mut so = DecoherenceOperator::new();

    // 1) Test set and get functions
    // Vacant
    so.set(pp_2.clone(), CalculatorComplex::from(0.5)).unwrap();
    assert_eq!(so.get(&pp_2.clone()), CalculatorComplex::from(0.5));

    // 2) Test remove function
    so.remove(&pp_2);
    assert_eq!(so, DecoherenceOperator::new());
}

// Test the add_operator_product function of the DecoherenceOperator
#[test]
fn internal_map_add_operator_product() {
    let pp_2: DecoherenceProduct = DecoherenceProduct::new().z(2);
    let mut so = DecoherenceOperator::new();

    so.add_operator_product(pp_2.clone(), CalculatorComplex::from(0.5))
        .unwrap();
    assert_eq!(so.get(&pp_2), CalculatorComplex::from(0.5));
    so.add_operator_product(pp_2.clone(), CalculatorComplex::from(-0.5))
        .unwrap();
    assert_eq!(so.get(&pp_2), CalculatorComplex::from(0.0));
}

// Test the keys and values functions of the DecoherenceOperator
#[test]
fn internal_map_keys() {
    let pp_2: DecoherenceProduct = DecoherenceProduct::new().z(2);
    let mut so = DecoherenceOperator::new();
    let _ = so.set(pp_2.clone(), CalculatorComplex::from(0.5)).unwrap();

    let mut map: BTreeMap<DecoherenceProduct, CalculatorComplex> = BTreeMap::new();
    map.insert(pp_2, CalculatorComplex::from(0.5));

    // entry pairs
    let dict = so.to_pairs();
    for (item_d, item_m) in dict.iter().zip(map.iter()) {
        assert_eq!((&item_d.0, &item_d.1), item_m);
    }
    // keys
    let keys = so.keys();
    for (key_s, key_m) in keys.iter().zip(map.keys()) {
        assert_eq!(key_s, key_m);
    }
    // values
    let values = so.values();
    for (val_s, val_m) in values.iter().zip(map.values()) {
        assert_eq!(val_s, val_m);
    }
}

// Test bulk export, bulk import and extend of the DecoherenceOperator
#[test]
fn into_iter_from_iter_extend() {
    let pp_0: DecoherenceProduct = DecoherenceProduct::new().z(0);
    let pp_1: DecoherenceProduct = DecoherenceProduct::new().x(1);
    let mut system = DecoherenceOperator::new();
    system
        .add_operator_product(pp_0.clone(), CalculatorComplex::from(1.0))
        .unwrap();

    let system_pairs = system.clone().to_pairs();
    assert_eq!(DecoherenceOperator::from_pairs(system_pairs), system);

    let mut hamiltonian = DecoherenceOperator::new();
    hamiltonian
        .add_operator_product(pp_0.clone(), 1.0.into())
        .unwrap();
    for (first, second) in system.to_pairs().into_iter().zip(hamiltonian.to_pairs().iter()) {
        assert_eq!(first.0, second.0);
        assert_eq!(first.1, second.1);
    }

    let mut system = DecoherenceOperator::new();
    system
        .add_operator_product(pp_0.clone(), CalculatorComplex::from(1.0))
        .unwrap();
    let mut mapping: BTreeMap<DecoherenceProduct, CalculatorComplex> = BTreeMap::new();
    mapping.insert(pp_1.clone(), CalculatorComplex::from(0.5));
    let mut addition = DecoherenceOperator::new();
    for (key, value) in mapping.into_iter() {
        addition.add_operator_product(key, value).unwrap();
    }
    system.extend(&addition);

    let mut system_1 = DecoherenceOperator::new();
    system_1
        .add_operator_product(pp_0, CalculatorComplex::from(1.0))
        .unwrap();
    system_1
        .add_operator_product(pp_1, CalculatorComplex::from(0.5))
        .unwrap();

    assert_eq!(system, system_1);
}

// Test the negative operation: -DecoherenceOperator
#[test]
fn negative_so() {
    let pp_0: DecoherenceProduct = DecoherenceProduct::new().z(0);
    let mut so_0 = DecoherenceOperator::new();
    so_0.add_operator_product(pp_0.clone(), CalculatorComplex::from(1.0))
        .unwrap();
    let mut so_0_minus = DecoherenceOperator::new();
    so_0_minus
        .add_operator_product(pp_0, CalculatorComplex::from(-1.0))
        .unwrap();

    assert_eq!(so_0.neg(), so_0_minus);
}

// Test the addition: DecoherenceOperator + DecoherenceOperator
#[test]
fn add_so_so() {
    let pp_0: DecoherenceProduct = DecoherenceProduct::new().z(0);
    let pp_1: DecoherenceProduct = DecoherenceProduct::new().x(1);
    let mut so_0 = DecoherenceOperator::new();
    so_0.add_operator_product(pp_0.clone(), CalculatorComplex::from(1.0))
        .unwrap();
    let mut so_1 = DecoherenceOperator::new();
    so_1.add_operator_product(pp_1.clone(), CalculatorComplex::from(0.5))
        .unwrap();
    let mut so_0_1 = DecoherenceOperator::new();
    so_0_1
        .add_operator_product(pp_0, CalculatorComplex::from(1.0))
        .unwrap();
    so_0_1
        .add_operator_product(pp_1, CalculatorComplex::from(0.5))
        .unwrap();

    assert_eq!(so_0.clone().add(so_1.clone()), so_0_1);
    assert_eq!(so_0.add(so_1), so_0_1);
}

// Test the subtraction: DecoherenceOperator - DecoherenceOperator
#[test]
fn sub_so_so() {
    let pp_0: DecoherenceProduct = DecoherenceProduct::new().z(0);
    let pp_1: DecoherenceProduct = DecoherenceProduct::new().x(1);
    let mut so_0 = DecoherenceOperator::new();
    so_0.add_operator_product(pp_0.clone(), CalculatorComplex::from(1.0))
        .unwrap();
    let mut so_1 = DecoherenceOperator::new();
    so_1.add_operator_product(pp_1.clone(), CalculatorComplex::from(0.5))
        .unwrap();
    let mut so_0_1 = DecoherenceOperator::new();
    so_0_1
        .add_operator_product(pp_0, CalculatorComplex::from(1.0))
        .unwrap();
    so_0_1
        .add_operator_product(pp_1, CalculatorComplex::from(-0.5))
        .unwrap();

    assert_eq!(so_0.clone().sub(so_1.clone()), so_0_1);
    assert_eq!(so_0.sub(so_1), so_0_1);
}

// Test the multiplication: DecoherenceOperator * DecoherenceOperator
#[test]
fn mul_so_so() {
    let pp_0: DecoherenceProduct = DecoherenceProduct::new().z(0);
    let pp_1: DecoherenceProduct = DecoherenceProduct::new().x(1);
    let pp_0_1: DecoherenceProduct = DecoherenceProduct::new().z(0).x(1);
    let mut so_0 = DecoherenceOperator::new();
    so_0.add_operator_product(pp_0, CalculatorComplex::from(2.0))
        .unwrap();
    let mut so_1 = DecoherenceOperator::new();
    so_1.add_operator_product(pp_1, CalculatorComplex::from(0.5))
        .unwrap();
    let mut so_0_1 = DecoherenceOperator::new();
    so_0_1
        .add_operator_product(pp_0_1, CalculatorComplex::from(1.0))
        .unwrap();

    assert_eq!(so_0.mul(&so_1), so_0_1);
}

#[test]
fn test_conjugate_rotz_0_x1_x() {
    let mut rot_z = DecoherenceOperator::new();
    rot_z
        .add_operator_product(
            DecoherenceProduct::new().z(0),
            CalculatorComplex::new(0.0, 0.2),
        )
        .unwrap();
    rot_z
        .add_operator_product(DecoherenceProduct::new(), CalculatorComplex::from(0.98))
        .unwrap();
    let mut inner = DecoherenceOperator::new();
    inner
        .add_operator_product(
            DecoherenceProduct::new().x(0).x(1),
            CalculatorComplex::from(1.0),
        )
        .unwrap();
    let _ = rot_z.clone().mul(&inner).mul(&rot_z.hermitian_conjugate());
}

// Test the multiplication: DecoherenceOperator * DecoherenceOperator with the same index
#[test]
fn mul_so_so_same_index() {
    let pp_0: DecoherenceProduct = DecoherenceProduct::new().z(0);
    let pp_1: DecoherenceProduct = DecoherenceProduct::new().x(0);
    let pp_0_1: DecoherenceProduct = DecoherenceProduct::new().iy(0);
    let mut so_0 = DecoherenceOperator::new();
    so_0.add_operator_product(pp_0, CalculatorComplex::from(2.0))
        .unwrap();
    let mut so_1 = DecoherenceOperator::new();
    so_1.add_operator_product(pp_1, CalculatorComplex::from(0.5))
        .unwrap();
    let mut so_0_1 = DecoherenceOperator::new();
    so_0_1
        .add_operator_product(pp_0_1, CalculatorComplex::new(1.0, 0.0))
        .unwrap();

    assert_eq!(so_0.mul(&so_1), so_0_1);
}

// Test the multiplication: DecoherenceOperator * CalculatorComplex
#[test]
fn mul_so_cc() {
    let pp_0: DecoherenceProduct = DecoherenceProduct::new().z(0);
    let mut so_0 = DecoherenceOperator::new();
    so_0.add_operator_product(pp_0.clone(), CalculatorComplex::from(2.0))
        .unwrap();
    let mut so_0_1 = DecoherenceOperator::new();
    so_0_1
        .add_operator_product(pp_0, CalculatorComplex::from(6.0))
        .unwrap();

    assert_eq!(so_0.scale(&CalculatorComplex::from(3.0)), so_0_1);
}

// Test the multiplication: DecoherenceOperator * CalculatorFloat
#[test]
fn mul_so_cf() {
    let pp_0: DecoherenceProduct = DecoherenceProduct::new().z(0);
    let mut so_0 = DecoherenceOperator::new();
    let _ = so_0.add_operator_product(pp_0.clone(), CalculatorComplex::from(2.0));
    let mut so_0_1 = DecoherenceOperator::new();
    let _ = so_0_1.add_operator_product(pp_0, CalculatorComplex::from(6.0));

    assert_eq!(so_0.scale_real(CalculatorFloat::from(3.0)), so_0_1);
}

// Test the Debug trait of DecoherenceOperator
#[test]
fn debug() {
    let pp: DecoherenceProduct = DecoherenceProduct::new().z(0);
    let mut so = DecoherenceOperator::new();
    let _ = so.set(pp, CalculatorComplex::from(0.5));

    assert_eq!(
        format!("{:?}", so),
        "DecoherenceOperator { terms: [(DecoherenceProduct { items: [(0, Z)] }, CalculatorComplex { re: Float(0.5), im: Float(0.0) })] }"
    );
}

// Test the display text of DecoherenceOperator
#[test]
fn display() {
    let mut so = DecoherenceOperator::new();
    let pp: DecoherenceProduct = DecoherenceProduct::new().z(0);
    let _ = so.set(pp, CalculatorComplex::from(0.5));

    assert_eq!(
        so.to_display_string(),
        "DecoherenceOperator{\n0Z: (5e-1 + i * 0e0),\n}"
    );
}

// Test the hermitian_conjugate function of the DecoherenceOperator
#[test]
fn hermitian_test() {
    let pp_0: DecoherenceProduct = DecoherenceProduct::new().z(0);
    let mut system = DecoherenceOperator::new();
    system
        .add_operator_product(pp_0, CalculatorComplex::from(1.0))
        .unwrap();

    assert_eq!(system.hermitian_conjugate(), system.clone());
}

// Test the Clone and PartialEq traits of DecoherenceOperator
#[test]
fn clone_partial_eq() {
    let pp: DecoherenceProduct = DecoherenceProduct::new().z(0);
    let mut so = DecoherenceOperator::new();
    so.set(pp, CalculatorComplex::from(0.5)).unwrap();

    // Test Clone trait
    assert_eq!(so.clone(), so);

    // Test PartialEq trait
    let pp_1: DecoherenceProduct = DecoherenceProduct::new().z(0);
    let mut so_1 = DecoherenceOperator::new();
    so_1.set(pp_1, CalculatorComplex::from(0.5)).unwrap();
    let pp_2: DecoherenceProduct = DecoherenceProduct::new().z(2);
    let mut so_2 = DecoherenceOperator::new();
    so_2.set(pp_2, CalculatorComplex::from(0.5)).unwrap();
    assert!(so_1 == so);
    assert!(so == so_1);
    assert!(so_2 != so);
    assert!(so != so_2);
}

#[test]
fn serde_json() {
    let pp = DecoherenceProduct::new().x(0);
    let mut so = DecoherenceOperator::new();
    so.set(pp, CalculatorComplex::from(1.0)).unwrap();

    let readable: Vec<(String, f64, f64)> = so
        .readable_encode()
        .into_iter()
        .map(|(token, c)| {
            let (re, im) = cc_parts(&c);
            (token, re, im)
        })
        .collect();
    let serialized = serde_json::to_string(&readable).unwrap();
    let parsed: Vec<(String, f64, f64)> = serde_json::from_str(&serialized).unwrap();
    let items: Vec<(String, CalculatorComplex)> = parsed
        .into_iter()
        .map(|(token, re, im)| (token, CalculatorComplex::new(re, im)))
        .collect();
    let deserialized =
        DecoherenceOperator::readable_decode(&items, SCHEMA_MAJOR_VERSION, SCHEMA_MINOR_VERSION)
            .unwrap();
    assert_eq!(so, deserialized);
}

/// Test DecoherenceOperator readable encoding content
#[test]
fn serde_readable() {
    let major_version = 1;
    let minor_version = 0;
    assert_eq!(SCHEMA_MAJOR_VERSION, major_version);
    assert_eq!(SCHEMA_MINOR_VERSION, minor_version);

    let pp = DecoherenceProduct::new().x(0);
    let mut so = DecoherenceOperator::new();
    so.set(pp, CalculatorComplex::from(1.0)).unwrap();

    let readable = so.readable_encode();
    assert_eq!(readable.len(), 1);
    assert_eq!(readable[0].0, "0X");
    let (re, im) = cc_parts(&readable[0].1);
    assert_eq!(re, 1.0);
    assert_eq!(im, 0.0);
}

#[test]
fn bincode() {
    let pp = DecoherenceProduct::new().x(0);
    let mut so = DecoherenceOperator::new();
    so.set(pp, CalculatorComplex::from(1.0)).unwrap();

    let readable: Vec<(String, f64, f64)> = so
        .readable_encode()
        .into_iter()
        .map(|(token, c)| {
            let (re, im) = cc_parts(&c);
            (token, re, im)
        })
        .collect();
    let encoded: Vec<u8> = bincode::serialize(&readable).unwrap();
    let parsed: Vec<(String, f64, f64)> = bincode::deserialize(&encoded[..]).unwrap();
    let items: Vec<(String, CalculatorComplex)> = parsed
        .into_iter()
        .map(|(token, re, im)| (token, CalculatorComplex::new(re, im)))
        .collect();
    let decoded =
        DecoherenceOperator::readable_decode(&items, SCHEMA_MAJOR_VERSION, SCHEMA_MINOR_VERSION)
            .unwrap();
    assert_eq!(so, decoded);

    let compact: Vec<(Vec<(usize, u8)>, f64, f64)> = so
        .compact_encode()
        .into_iter()
        .map(|(entries, c)| {
            let (re, im) = cc_parts(&c);
            (
                entries.into_iter().map(|(i, s)| (i, sym_tag(s))).collect(),
                re,
                im,
            )
        })
        .collect();
    let encoded: Vec<u8> = bincode::serialize(&compact).unwrap();
    let parsed: Vec<(Vec<(usize, u8)>, f64, f64)> = bincode::deserialize(&encoded[..]).unwrap();
    let items: Vec<(Vec<(usize, SingleDecoherenceOperator)>, CalculatorComplex)> = parsed
        .into_iter()
        .map(|(entries, re, im)| {
            (
                entries
                    .into_iter()
                    .map(|(i, t)| (i, sym_of_tag(t)))
                    .collect(),
                CalculatorComplex::new(re, im),
            )
        })
        .collect();
    let decoded =
        DecoherenceOperator::compact_decode(&items, SCHEMA_MAJOR_VERSION, SCHEMA_MINOR_VERSION)
            .unwrap();
    assert_eq!(so, decoded);
}

/// Test DecoherenceOperator compact encoding content
#[test]
fn serde_compact() {
    let major_version = 1;
    let minor_version = 0;
    assert_eq!(SCHEMA_MAJOR_VERSION, major_version);
    assert_eq!(SCHEMA_MINOR_VERSION, minor_version);

    let pp = DecoherenceProduct::new().x(0);
    let mut so = DecoherenceOperator::new();
    so.set(pp, CalculatorComplex::from(1.0)).unwrap();

    let compact = so.compact_encode();
    assert_eq!(compact.len(), 1);
    assert_eq!(compact[0].0, vec![(0_usize, SingleDecoherenceOperator::X)]);
    let (re, im) = cc_parts(&compact[0].1);
    assert_eq!(re, 1.0);
    assert_eq!(im, 0.0);
}

// Separation of terms by the number of spins a key touches
#[test]
fn separate_out_terms_one_spin() {
    separate_out_terms_case(1);
}

#[test]
fn separate_out_terms_two_spins() {
    separate_out_terms_case(2);
}

#[test]
fn separate_out_terms_three_spins() {
    separate_out_terms_case(3);
}

fn separate_out_terms_case(number_spins: usize) {
    let pp_1_a: DecoherenceProduct = DecoherenceProduct::new().z(0);
    let pp_1_b: DecoherenceProduct = DecoherenceProduct::new().x(1);
    let pp_2_a: DecoherenceProduct = DecoherenceProduct::new().z(0).x(2);
    let pp_2_b: DecoherenceProduct = DecoherenceProduct::new().x(1).iy(2);
    let pp_3_a: DecoherenceProduct = DecoherenceProduct::new().z(0).z(1).z(2);
    let pp_3_b: DecoherenceProduct = DecoherenceProduct::new().x(1).x(2).z(0);

    let mut allowed: Vec<(DecoherenceProduct, f64)> = Vec::new();
    let mut not_allowed: Vec<(DecoherenceProduct, f64)> = vec![
        (pp_1_a.clone(), 1.0),
        (pp_1_b.clone(), 1.1),
        (pp_2_a.clone(), 1.2),
        (pp_2_b.clone(), 1.3),
        (pp_3_a.clone(), 1.4),
        (pp_3_b.clone(), 1.5),
    ];

    match number_spins {
        1 => {
            allowed.push((pp_1_a.clone(), 1.0));
            allowed.push((pp_1_b.clone(), 1.1));
            not_allowed.remove(0);
            not_allowed.remove(0);
        }
        2 => {
            allowed.push((pp_2_a.clone(), 1.2));
            allowed.push((pp_2_b.clone(), 1.3));
            not_allowed.remove(2);
            not_allowed.remove(2);
        }
        3 => {
            allowed.push((pp_3_a.clone(), 1.4));
            allowed.push((pp_3_b.clone(), 1.5));
            not_allowed.remove(4);
            not_allowed.remove(4);
        }
        _ => panic!(),
    }

    let mut separated = DecoherenceOperator::new();
    for (key, value) in allowed.iter() {
        separated
            .add_operator_product(key.clone(), value.into())
            .unwrap();
    }
    let mut remainder = DecoherenceOperator::new();
    for (key, value) in not_allowed.iter() {
        remainder
            .add_operator_product(key.clone(), value.into())
            .unwrap();
    }

    let mut so = DecoherenceOperator::new();
    so.add_operator_product(pp_1_a, CalculatorComplex::from(1.0))
        .unwrap();
    so.add_operator_product(pp_1_b, CalculatorComplex::from(1.1))
        .unwrap();
    so.add_operator_product(pp_2_a, CalculatorComplex::from(1.2))
        .unwrap();
    so.add_operator_product(pp_2_b, CalculatorComplex::from(1.3))
        .unwrap();
    so.add_operator_product(pp_3_a, CalculatorComplex::from(1.4))
        .unwrap();
    so.add_operator_product(pp_3_b, CalculatorComplex::from(1.5))
        .unwrap();

    let result = so.separate_into_n_terms(number_spins).unwrap();
    assert_eq!(result.0, separated);
    assert_eq!(result.1, remainder);
}
