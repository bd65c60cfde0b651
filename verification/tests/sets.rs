//! The set types SS / NS / BS: never empty, elements unique (NS by numeric
//! value), equality independent of order; contains / size / attribute_type
//! work on sets.

use loom_core::domain::expr::{eval, parse_condition, ExprContext};
use loom_core::domain::{AttrMap, AttributeValue, DbError, Item, Number};

fn s(v: &str) -> AttributeValue {
    AttributeValue::S(v.into())
}
fn n(v: &str) -> AttributeValue {
    AttributeValue::N(Number(v.into()))
}
fn ss(elems: &[&str]) -> AttributeValue {
    AttributeValue::string_set(elems.iter().map(|e| e.to_string()).collect()).expect("ss")
}
fn ns(elems: &[&str]) -> AttributeValue {
    AttributeValue::number_set(elems.iter().map(|e| Number(e.to_string())).collect()).expect("ns")
}
fn bs(elems: &[&[u8]]) -> AttributeValue {
    AttributeValue::binary_set(elems.iter().map(|e| e.to_vec()).collect()).expect("bs")
}

#[test]
fn constructors_normalize_and_reject_empty() {
    // sorted and deduplicated, whatever the input order
    assert_eq!(ss(&["b", "a", "b"]), ss(&["a", "b"]));
    assert_eq!(bs(&[b"\x02", b"\x01", b"\x02"]), bs(&[b"\x01", b"\x02"]));
    // NS is unique by value ("1.0" and "1" are one element), in numeric order
    assert_eq!(ns(&["10", "2", "1.0", "1"]), ns(&["1", "2", "10"]));

    // no empty sets
    assert!(matches!(
        AttributeValue::string_set(vec![]),
        Err(DbError::Validation(_))
    ));
    assert!(matches!(
        AttributeValue::number_set(vec![]),
        Err(DbError::Validation(_))
    ));
    assert!(matches!(
        AttributeValue::binary_set(vec![]),
        Err(DbError::Validation(_))
    ));
    // NS elements must be numbers
    assert!(matches!(
        AttributeValue::number_set(vec![Number("abc".into())]),
        Err(DbError::Validation(_))
    ));
}

fn eval_str(expr: &str, item: &Item, values: &[(&str, AttributeValue)]) -> Result<bool, DbError> {
    let ast = parse_condition(expr)?;
    let names: AttrMap<String> = AttrMap::new();
    let mut value_map: AttrMap<AttributeValue> = AttrMap::new();
    for (k, v) in values {
        value_map.insert(k.to_string(), v.duplicate());
    }
    eval(
        &ast,
        item,
        &ExprContext {
            names: &names,
            values: &value_map,
        },
    )
}

/// contains / size / attribute_type / equality on sets, table driven
#[test]
fn condition_functions_on_sets() {
    let mut it = Item::new();
    it.insert("tags".into(), ss(&["red", "blue"]));
    it.insert("scores".into(), ns(&["1", "2.5"]));
    it.insert("blobs".into(), bs(&[b"\x01"]));

    let cases: &[(&str, Vec<(&str, AttributeValue)>, bool)] = &[
        // contains is membership
        ("contains(tags, :v)", vec![(":v", s("red"))], true),
        ("contains(tags, :v)", vec![(":v", s("green"))], false),
        // NS by numeric value ("1.0" matches element "1")
        ("contains(scores, :v)", vec![(":v", n("1.0"))], true),
        ("contains(scores, :v)", vec![(":v", n("3"))], false),
        (
            "contains(blobs, :v)",
            vec![(":v", AttributeValue::B(vec![1]))],
            true,
        ),
        // a needle of another type is false, not an error
        ("contains(tags, :v)", vec![(":v", n("1"))], false),
        // size is the number of elements
        ("size(tags) = :n", vec![(":n", n("2"))], true),
        // attribute_type
        ("attribute_type(tags, :t)", vec![(":t", s("SS"))], true),
        ("attribute_type(scores, :t)", vec![(":t", s("NS"))], true),
        ("attribute_type(blobs, :t)", vec![(":t", s("BS"))], true),
        ("attribute_type(tags, :t)", vec![(":t", s("L"))], false),
        // equality ignores order, NS by value
        ("tags = :v", vec![(":v", ss(&["blue", "red"]))], true),
        ("scores = :v", vec![(":v", ns(&["2.50", "1.0"]))], true),
        ("tags = :v", vec![(":v", ss(&["red"]))], false),
        // sets have no order: a type mismatch, false
        ("tags < :v", vec![(":v", ss(&["zzz"]))], false),
    ];
    for (expr, values, expected) in cases {
        let got = eval_str(expr, &it, values).unwrap_or_else(|e| panic!("{expr}: {e:?}"));
        assert_eq!(got, *expected, "expr: {expr}");
    }
}
