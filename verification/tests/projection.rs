//! Projection expressions: missing paths are left out, nested maps keep
//! their structure, list elements come back compacted, overlapping paths
//! are validation errors.

use loom_core::domain::expr::{parse_projection, project, ExprContext};
use loom_core::domain::{AttrMap, AttributeValue, DbError, Item, Number};

fn s(v: &str) -> AttributeValue {
    AttributeValue::S(v.into())
}
fn n(v: &str) -> AttributeValue {
    AttributeValue::N(Number(v.into()))
}

/// { id, name, amount, addr: {city, zip}, tags: ["red","blue","green"] }
fn sample_item(id: &str) -> Item {
    let mut addr = AttrMap::new();
    addr.insert("city".to_string(), s("tokyo"));
    addr.insert("zip".to_string(), s("100-0001"));
    let mut it = Item::new();
    it.insert("id".into(), s(id));
    it.insert("name".into(), s("loomdb"));
    it.insert("amount".into(), n("1200"));
    it.insert("addr".into(), AttributeValue::M(addr));
    it.insert(
        "tags".into(),
        AttributeValue::L(vec![s("red"), s("blue"), s("green")]),
    );
    it
}

fn project_str(expr: &str, item: &Item, names: &[(&str, &str)]) -> Result<Item, DbError> {
    let paths = parse_projection(expr)?;
    let mut name_map: AttrMap<String> = AttrMap::new();
    for (k, v) in names {
        name_map.insert(k.to_string(), v.to_string());
    }
    let values: AttrMap<AttributeValue> = AttrMap::new();
    project(
        &paths,
        item,
        &ExprContext {
            names: &name_map,
            values: &values,
        },
    )
}

#[test]
fn projects_top_level_nested_and_indexed_paths() {
    let it = sample_item("d1");

    // top level: only the named attributes
    let out = project_str("name, amount", &it, &[]).expect("project");
    assert_eq!(out.len(), 2);
    assert_eq!(out.get("name"), Some(&s("loomdb")));
    assert_eq!(out.get("amount"), Some(&n("1200")));

    // nested: the structure is kept (addr.city only, no zip)
    let out = project_str("addr.city", &it, &[]).expect("project");
    let Some(AttributeValue::M(addr)) = out.get("addr") else {
        panic!("addr must be M, got {:?}", out.get("addr"));
    };
    assert_eq!(addr.len(), 1);
    assert_eq!(addr.get("city"), Some(&s("tokyo")));

    // list indexes: just those elements, compacted
    let out = project_str("tags[0], tags[2]", &it, &[]).expect("project");
    assert_eq!(
        out.get("tags"),
        Some(&AttributeValue::L(vec![s("red"), s("green")]))
    );

    // #name placeholder
    let out = project_str("#n", &it, &[("#n", "name")]).expect("project");
    assert_eq!(out.len(), 1);
    assert_eq!(out.get("name"), Some(&s("loomdb")));
}

#[test]
fn missing_paths_are_silently_omitted() {
    let it = sample_item("d1");
    let out = project_str("name, ghost, addr.nope, tags[9]", &it, &[]).expect("project");
    assert_eq!(out.len(), 1);
    // nothing matches: an empty item, not an error
    let out = project_str("ghost", &it, &[]).expect("project");
    assert!(out.is_empty());
}

#[test]
fn invalid_projections_are_validation_errors() {
    let it = sample_item("d1");
    for bad in ["", "name,", "a AND b", "addr, addr.city", "name, name"] {
        let r = project_str(bad, &it, &[]);
        assert!(matches!(r, Err(DbError::Validation(_))), "{bad:?}: {r:?}");
    }
    // an unknown #name is a validation error too
    let r = project_str("#nope", &it, &[]);
    assert!(matches!(r, Err(DbError::Validation(_))), "got {r:?}");
}
