//! The order-preserving key encoding on table-driven cases.

use loom_core::domain::key_codec::encode_value;
use loom_core::domain::{AttributeValue, Number};

fn n(v: &str) -> AttributeValue {
    AttributeValue::N(Number(v.to_string()))
}

/// known order: still ascending after encoding
#[test]
fn n_known_ordering() {
    let cases = [
        "-1200", "-2", "-1.5", "-1", "-0.11", "-0.1", "0", "0.001", "0.1", "0.5", "1", "1.5", "2",
        "10", "10.01", "1200",
    ];
    let encoded: Vec<Vec<u8>> = cases.iter().map(|c| encode_value(&n(c)).unwrap()).collect();
    let mut sorted = encoded.clone();
    sorted.sort();
    assert_eq!(encoded, sorted, "encoding must preserve numeric order");
}

/// every way of writing zero encodes the same
#[test]
fn n_zero_forms() {
    let z = encode_value(&n("0")).unwrap();
    for form in ["-0", "0.0", "0.000", "-0.00", "+0"] {
        assert_eq!(z, encode_value(&n(form)).unwrap(), "form={form}");
    }
}

/// scientific notation encodes as the plain form
#[test]
fn n_scientific_input() {
    assert_eq!(
        encode_value(&n("1e3")).unwrap(),
        encode_value(&n("1000")).unwrap()
    );
    assert_eq!(
        encode_value(&n("-1.5E-2")).unwrap(),
        encode_value(&n("-0.015")).unwrap()
    );
}

/// malformed input and out-of-range magnitudes are errors
#[test]
fn n_validation_errors() {
    let too_many_digits = "1".repeat(39);
    for bad in [
        "",
        "-",
        "abc",
        "1.2.3",
        "--1",
        "1e",
        &too_many_digits,
        "1e127",
        "1e-131",
    ] {
        assert!(encode_value(&n(bad)).is_err(), "must reject {bad:?}");
    }
    // the limits themselves are accepted
    for ok in ["9e125", "1e-130"] {
        assert!(encode_value(&n(ok)).is_ok(), "must accept {ok:?}");
    }
}

/// only S, N and B can be keys
#[test]
fn key_type_must_be_s_n_b() {
    assert!(encode_value(&AttributeValue::Bool(true)).is_err());
    assert!(encode_value(&AttributeValue::Null).is_err());
}
