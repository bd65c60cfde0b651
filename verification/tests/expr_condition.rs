//! Condition / filter expressions: parser and evaluator, table driven.
//! Type mismatches and missing attributes compare false; syntax errors and
//! unknown placeholders are validation errors.

use loom_core::domain::expr::{eval, parse_condition, ExprContext};
use loom_core::domain::{AttrMap, AttributeValue, DbError, Item, Number};

fn s(v: &str) -> AttributeValue {
    AttributeValue::S(v.into())
}
fn n(v: &str) -> AttributeValue {
    AttributeValue::N(Number(v.into()))
}

/// { status:"active", amount:1200, name:"loomdb", flag:true,
///   addr:{city:"tokyo"}, tags:["red","blue"], bin: b"\x01\x02" }
fn sample_item() -> Item {
    let mut addr = AttrMap::new();
    addr.insert("city".to_string(), s("tokyo"));
    let mut it = Item::new();
    it.insert("status".into(), s("active"));
    it.insert("amount".into(), n("1200"));
    it.insert("name".into(), s("loomdb"));
    it.insert("flag".into(), AttributeValue::Bool(true));
    it.insert("addr".into(), AttributeValue::M(addr));
    it.insert("tags".into(), AttributeValue::L(vec![s("red"), s("blue")]));
    it.insert("bin".into(), AttributeValue::B(vec![1, 2]));
    it
}

fn eval_str(
    expr: &str,
    item: &Item,
    names: &[(&str, &str)],
    values: &[(&str, AttributeValue)],
) -> Result<bool, DbError> {
    let ast = parse_condition(expr)?;
    let mut name_map: AttrMap<String> = AttrMap::new();
    for (k, v) in names {
        name_map.insert(k.to_string(), v.to_string());
    }
    let mut value_map: AttrMap<AttributeValue> = AttrMap::new();
    for (k, v) in values {
        value_map.insert(k.to_string(), v.duplicate());
    }
    eval(
        &ast,
        item,
        &ExprContext {
            names: &name_map,
            values: &value_map,
        },
    )
}

/// (expression, value placeholders, expected) table
#[test]
fn condition_truth_table() {
    let item = sample_item();
    let cases: Vec<(&str, Vec<(&str, AttributeValue)>, bool)> = vec![
        // S comparisons
        ("status = :v", vec![(":v", s("active"))], true),
        ("status = :v", vec![(":v", s("inactive"))], false),
        ("status <> :v", vec![(":v", s("inactive"))], true),
        ("status < :v", vec![(":v", s("b"))], true),
        // N compares numerically (cases that string order would get wrong)
        ("amount > :v", vec![(":v", n("999"))], true),
        ("amount = :v", vec![(":v", n("1200.00"))], true),
        ("amount <= :v", vec![(":v", n("1200"))], true),
        ("amount < :v", vec![(":v", n("1200"))], false),
        // B comparisons
        ("bin < :v", vec![(":v", AttributeValue::B(vec![1, 3]))], true),
        // type mismatch is false, not an error
        ("amount = :v", vec![(":v", s("1200"))], false),
        ("status < :v", vec![(":v", n("1"))], false),
        // missing attribute is false; NOT turns it true
        ("ghost = :v", vec![(":v", s("x"))], false),
        ("ghost <> :v", vec![(":v", s("x"))], false),
        ("NOT ghost = :v", vec![(":v", s("x"))], true),
        // BETWEEN includes both ends, N in numeric order
        (
            "amount BETWEEN :lo AND :hi",
            vec![(":lo", n("2")), (":hi", n("4000"))],
            true,
        ),
        (
            "amount BETWEEN :lo AND :hi",
            vec![(":lo", n("1200")), (":hi", n("1200"))],
            true,
        ),
        (
            "amount BETWEEN :lo AND :hi",
            vec![(":lo", n("1201")), (":hi", n("9999"))],
            false,
        ),
        // IN
        (
            "status IN (:a, :b)",
            vec![(":a", s("active")), (":b", s("archived"))],
            true,
        ),
        (
            "status IN (:a, :b)",
            vec![(":a", s("x")), (":b", s("y"))],
            false,
        ),
        // AND / OR / NOT and precedence (AND binds tighter than OR)
        (
            "status = :x OR status = :a AND amount > :big",
            vec![(":x", s("nope")), (":a", s("active")), (":big", n("1"))],
            true,
        ),
        (
            "(status = :x OR status = :a) AND ghost = :x",
            vec![(":x", s("nope")), (":a", s("active"))],
            false,
        ),
        // nested paths (M / L index)
        ("addr.city = :v", vec![(":v", s("tokyo"))], true),
        ("tags[1] = :v", vec![(":v", s("blue"))], true),
        ("tags[9] = :v", vec![(":v", s("blue"))], false),
        // functions
        ("attribute_exists(status)", vec![], true),
        ("attribute_exists(ghost)", vec![], false),
        ("attribute_not_exists(ghost)", vec![], true),
        ("attribute_type(amount, :t)", vec![(":t", s("N"))], true),
        ("attribute_type(amount, :t)", vec![(":t", s("S"))], false),
        ("begins_with(name, :p)", vec![(":p", s("loom"))], true),
        ("begins_with(name, :p)", vec![(":p", s("dyn"))], false),
        ("contains(name, :v)", vec![(":v", s("omd"))], true),
        ("contains(tags, :v)", vec![(":v", s("red"))], true),
        ("contains(tags, :v)", vec![(":v", s("green"))], false),
        // size (S is its UTF-8 length)
        ("size(name) = :v", vec![(":v", n("6"))], true),
        ("size(tags) = :v", vec![(":v", n("2"))], true),
        ("size(name) > :v", vec![(":v", n("100"))], false),
    ];
    for (expr, values, expected) in cases {
        let got = eval_str(expr, &item, &[], &values)
            .unwrap_or_else(|e| panic!("{expr}: unexpected error {e:?}"));
        assert_eq!(got, expected, "expr: {expr}");
    }
}

/// size of a multi-byte string is its byte length
#[test]
fn size_is_utf8_byte_length() {
    let mut item = Item::new();
    item.insert("jp".into(), s("あいう"));
    assert!(eval_str("size(jp) = :v", &item, &[], &[(":v", n("9"))]).unwrap());
}

/// #name placeholders resolve (for reserved words and odd attribute names)
#[test]
fn name_placeholders_resolve() {
    let item = sample_item();
    assert!(eval_str(
        "#s = :v",
        &item,
        &[("#s", "status")],
        &[(":v", s("active"))],
    )
    .unwrap());
}

/// unknown placeholders and syntax errors are validation errors
#[test]
fn invalid_inputs_are_validation_errors() {
    let item = sample_item();
    for (expr, names, values) in [
        ("#u = :v", vec![], vec![(":v", s("x"))]),
        ("status = :missing", vec![], vec![]),
        ("status = ", vec![], vec![]),
        ("status == :v", vec![], vec![(":v", s("x"))]),
        ("BETWEEN :a AND :b", vec![], vec![]),
        ("status = :v extra", vec![], vec![(":v", s("x"))]),
    ] {
        let names: Vec<(&str, &str)> = names;
        let r = eval_str(expr, &item, &names, &values);
        assert!(
            matches!(r, Err(DbError::Validation(_))),
            "expr {expr:?}: expected Validation, got {r:?}"
        );
    }
}
