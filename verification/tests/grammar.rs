//! The parsers accept exactly the expressions of the grammar: each written
//! form is read, and each malformed one is refused with a validation error.
use loom_core::domain::expr::{parse_condition, parse_key_condition, parse_projection, parse_update};
use loom_core::domain::DbError;

fn refused<T>(r: Result<T, DbError>) -> bool {
    matches!(r, Err(DbError::Validation(_)))
}

#[test]
fn conditions_of_every_shape_are_read() {
    for text in [
        "a = :v",
        "a.b[2] <> :v",
        "size(a) > :n",
        "#size = :v",
        "a BETWEEN :lo AND :hi AND b = :v",
        "a IN (:x, :y, :z) OR NOT (b < :v)",
        "attribute_exists(a) AND attribute_not_exists(b.c)",
        "attribute_type(a, :t) AND begins_with(a, :p) OR contains(b, size(c))",
        "NOT NOT a >= :v",
        "((a = :v))",
        "contains = :v",
    ] {
        assert!(parse_condition(text).is_ok(), "{text}");
    }
}

#[test]
fn malformed_conditions_are_refused() {
    for text in [
        "",
        "size = :v",
        "a = :v AND",
        "a BETWEEN :lo",
        "a IN ()",
        "a IN (:x,)",
        "(a = :v",
        "a = :v)",
        "foo(a)",
        "begins_with(a)",
        "a",
        "AND = :v",
        "a = :v b = :w",
    ] {
        assert!(refused(parse_condition(text)), "{text}");
    }
}

#[test]
fn key_conditions_are_read_and_refused() {
    assert!(parse_key_condition("pk = :p").is_ok());
    assert!(parse_key_condition("pk = :p AND sk <= :s").is_ok());
    assert!(parse_key_condition("pk = :p AND sk BETWEEN :a AND :b").is_ok());
    assert!(parse_key_condition("pk = :p AND begins_with(sk, :s)").is_ok());
    assert!(parse_key_condition("#k = :p AND #s > :s").is_ok());
    assert!(refused(parse_key_condition("pk < :p")));
    assert!(refused(parse_key_condition("pk = :p AND sk <> :s")));
    assert!(refused(parse_key_condition("pk = :p AND")));
    assert!(refused(parse_key_condition("pk = :p sk = :s")));
    assert!(refused(parse_key_condition("pk.a = :p")));
}

#[test]
fn update_expressions_are_read_and_refused() {
    assert!(parse_update("SET a = :v, b = if_not_exists(b, :z) + :one REMOVE c, d[1]").is_ok());
    assert!(parse_update("ADD n :one DELETE s :x SET l = list_append(l, :more)").is_ok());
    assert!(parse_update("set a = b - :v").is_ok());
    assert!(refused(parse_update("")));
    assert!(refused(parse_update("SET a = :v SET b = :w")));
    assert!(refused(parse_update("SET a = :v,")));
    assert!(refused(parse_update("REMOVE")));
    assert!(refused(parse_update("ADD a")));
    assert!(refused(parse_update("SET a :v")));
    assert!(refused(parse_update("SET a = if_not_exists(b)")));
}

#[test]
fn projections_are_read_and_refused() {
    assert_eq!(parse_projection("a, b.c[0], #n").unwrap().len(), 3);
    assert!(refused(parse_projection("")));
    assert!(refused(parse_projection("a,")));
    assert!(refused(parse_projection("a b")));
    assert!(refused(parse_projection("a[x]")));
}
