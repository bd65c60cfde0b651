//! The pieces the operations are built from, on concrete values: counts and
//! their stored form, the format check, definition keys, transaction
//! reasons, index changes, paging, tokens, JSON requests and number
//! arithmetic.
use loom_core::application::counts::{count_bytes, decode_count, next_count};
use loom_core::application::meta::{count_key, def_key, stored_def};
use loom_core::application::usecases::create_table::create_decision;
use loom_core::application::usecases::format::{format_decision, FORMAT_VERSION};
use loom_core::application::usecases::get_item::visible_item;
use loom_core::application::usecases::inputs::{page_full, past_start};
use loom_core::application::usecases::list_tables::table_names;
use loom_core::application::usecases::put_item::encode_item_key;
use loom_core::application::usecases::query::{add_candidate, entry_parts, find_index};
use loom_core::application::usecases::transact_write::{cancel_reasons, op_failure, seen_before};
use loom_core::application::usecases::update_item::{touches_key, updated_item};
use loom_core::application::usecases::update_table::{
    check_index_changes, copy_index, plan_index_change, without_index,
};
use loom_core::application::usecases::UpdateInput;
use loom_core::bridge::parse::{digits_u64, key_of_json, parse_table_def, shared_values_names};
use loom_core::bridge::value::{binary_of_hex, json_to_attr, json_to_item, Json};
use loom_core::bridge::{error_code, from_hex, to_hex};
use loom_core::domain::arith::{add, sub};
use loom_core::domain::index::index_entry_key;
use loom_core::domain::key_codec::encode_key;
use loom_core::domain::number::canonicalize;
use loom_core::domain::ttl::is_expired;
use loom_core::domain::{
    AttrMap, AttributeValue, DbError, IndexDef, Item, KeySchema, Number, Projection, TableDef,
};

fn s(v: &str) -> AttributeValue {
    AttributeValue::S(v.to_string())
}

fn n(v: &str) -> AttributeValue {
    AttributeValue::N(Number(v.to_string()))
}

fn index(name: &str, pk: &str, sk: Option<&str>) -> IndexDef {
    IndexDef {
        name: name.to_string(),
        key: KeySchema { pk: pk.to_string(), sk: sk.map(|x| x.to_string()) },
        projection: Projection::KeysOnly,
    }
}

fn table(name: &str, ttl: Option<&str>) -> TableDef {
    TableDef {
        name: name.to_string(),
        key: KeySchema { pk: "id".to_string(), sk: Some("at".to_string()) },
        indexes: vec![index("byStatus", "status", Some("amount"))],
        ttl_attr: ttl.map(|x| x.to_string()),
    }
}

fn str_json(v: &str) -> Json {
    Json::Str(v.to_string())
}

fn object(members: Vec<(&str, Json)>) -> Json {
    Json::Object(members.into_iter().map(|(k, v)| (k.to_string(), v)).collect())
}

#[test]
fn count_bytes_round_trip() {
    for v in [0u64, 1, 255, 256, 1 << 40, u64::MAX] {
        let b = count_bytes(v);
        assert_eq!(b, v.to_be_bytes().to_vec());
        assert_eq!(decode_count(Some(b)).expect("decode"), v);
    }
    assert_eq!(decode_count(None).expect("none"), 0);
    assert!(matches!(decode_count(Some(vec![1, 2, 3])), Err(DbError::Serialization(_))));
}

#[test]
fn count_moves_saturate() {
    assert_eq!(next_count(3, 4), 7);
    assert_eq!(next_count(3, -1), 2);
    assert_eq!(next_count(5, -10), 0);
    assert_eq!(next_count(10, i64::MIN), 0);
    assert_eq!(next_count(u64::MAX - 1, 5), u64::MAX);
    assert_eq!(next_count(0, i64::MAX), i64::MAX as u64);
}

#[test]
fn format_version_decisions() {
    assert!(matches!(format_decision(None), Ok(None)));
    assert!(matches!(format_decision(Some(count_bytes(FORMAT_VERSION))), Ok(Some(1))));
    assert!(matches!(format_decision(Some(count_bytes(99))), Err(DbError::Validation(_))));
    assert!(matches!(format_decision(Some(vec![1])), Err(DbError::Serialization(_))));
}

#[test]
fn definition_keys_give_back_names() {
    assert_eq!(def_key("orders"), b"table:orders".to_vec());
    assert_eq!(count_key("orders"), b"count:orders".to_vec());
    let entries = vec![(def_key("alpha"), vec![1]), (def_key("zebra"), vec![2])];
    assert_eq!(table_names(&entries).expect("names"), vec!["alpha", "zebra"]);
    let foreign = vec![(b"count:alpha".to_vec(), vec![])];
    assert!(matches!(table_names(&foreign), Err(DbError::Storage(_))));
    let broken = vec![(vec![b't', b'a', b'b', b'l', b'e', b':', 0xff], vec![])];
    assert!(matches!(table_names(&broken), Err(DbError::Storage(_))));
}

#[test]
fn missing_and_present_definitions() {
    assert!(matches!(stored_def("t1", None), Err(DbError::ResourceNotFound(x)) if x == "t1"));
    assert_eq!(stored_def("t1", Some(vec![7])).expect("stored"), vec![7]);
    assert!(create_decision(&"t1".to_string(), &None).is_ok());
    assert!(matches!(
        create_decision(&"t1".to_string(), &Some(vec![])),
        Err(DbError::ResourceInUse(x)) if x == "t1"
    ));
}

#[test]
fn cancel_reasons_mark_only_the_failed_operation() {
    assert_eq!(cancel_reasons(3, 1), ["None", "ConditionalCheckFailed", "None"]);
    assert_eq!(cancel_reasons(1, 0), ["ConditionalCheckFailed"]);
    assert!(cancel_reasons(0, 0).is_empty());
}

#[test]
fn repeated_items_are_seen() {
    let seen = vec![("docs".to_string(), vec![1, 2]), ("other".to_string(), vec![3])];
    assert!(seen_before(&seen, "docs", &[1, 2]));
    assert!(!seen_before(&seen, "docs", &[3]));
    assert!(!seen_before(&seen, "other", &[1, 2]));
}

#[test]
fn key_attributes_are_protected() {
    let key = KeySchema { pk: "id".to_string(), sk: Some("at".to_string()) };
    assert!(touches_key(&vec!["x".to_string(), "at".to_string()], &key));
    assert!(touches_key(&vec!["id".to_string()], &key));
    assert!(!touches_key(&vec!["x".to_string()], &key));
    let flat = KeySchema { pk: "id".to_string(), sk: None };
    assert!(!touches_key(&vec!["at".to_string()], &flat));
}

#[test]
fn index_changes_are_checked() {
    let existing = vec![index("byStatus", "status", None)];
    assert!(check_index_changes(&existing, &[index("byAmount", "amount", None)], &[]).is_ok());
    assert!(matches!(
        check_index_changes(&existing, &[index("byStatus", "x", None)], &[]),
        Err(DbError::Validation(_))
    ));
    assert!(matches!(
        check_index_changes(
            &existing,
            &[index("byA", "a", None), index("byA", "b", None)],
            &[]
        ),
        Err(DbError::Validation(_))
    ));
    assert!(matches!(
        check_index_changes(&existing, &[], &["ghost".to_string()]),
        Err(DbError::Validation(_))
    ));
    assert!(check_index_changes(&existing, &[], &["byStatus".to_string()]).is_ok());
    let left = without_index(
        vec![index("a", "x", None), index("b", "y", None), index("c", "z", None)],
        "b",
    );
    let names: Vec<&str> = left.iter().map(|d| d.name.as_str()).collect();
    assert_eq!(names, ["a", "c"]);
}

#[test]
fn paging_resumes_strictly_after_the_start() {
    let start = Some(vec![5u8, 1]);
    assert!(past_start(&[5, 2], &start, true));
    assert!(!past_start(&[5, 1], &start, true));
    assert!(!past_start(&[5], &start, true));
    assert!(past_start(&[5], &start, false));
    assert!(!past_start(&[5, 1], &start, false));
    assert!(past_start(&[0], &None, true));
    assert!(page_full(2, Some(2)));
    assert!(!page_full(1, Some(2)));
    assert!(!page_full(100, None));
}

#[test]
fn hex_tokens_round_trip() {
    let bytes = vec![0u8, 255, 16, 1];
    let t = to_hex(&bytes);
    assert_eq!(t, "00ff1001");
    assert_eq!(from_hex(&t).expect("hex"), bytes);
    assert_eq!(from_hex("ABcd").expect("upper case"), vec![0xab, 0xcd]);
    assert!(matches!(from_hex("+a"), Err(DbError::Validation(_))));
    assert!(matches!(from_hex("+f"), Err(DbError::Validation(_))));
    assert!(matches!(from_hex("abc"), Err(DbError::Validation(_))));
    assert!(matches!(from_hex("zz"), Err(DbError::Validation(_))));
    assert!(matches!(binary_of_hex("é0"), Err(DbError::Validation(_))));
    assert_eq!(binary_of_hex("0a0b").expect("ascii"), vec![10, 11]);
}

#[test]
fn every_error_has_its_code() {
    let cases = [
        (DbError::ConditionalCheckFailed, "ConditionalCheckFailed"),
        (DbError::TransactionCanceled(vec![]), "TransactionCanceled"),
        (DbError::ResourceNotFound("t".into()), "ResourceNotFound"),
        (DbError::ResourceInUse("t".into()), "ResourceInUse"),
        (DbError::Validation("v".into()), "ValidationError"),
        (DbError::Serialization("s".into()), "SerializationError"),
        (DbError::Storage("s".into()), "StorageError"),
    ];
    for (e, code) in cases {
        assert_eq!(error_code(&e), code);
    }
}

#[test]
fn json_values_become_attributes() {
    assert_eq!(json_to_attr(&Json::Null).expect("null"), AttributeValue::Null);
    assert_eq!(json_to_attr(&Json::Bool(true)).expect("bool"), AttributeValue::Bool(true));
    assert_eq!(json_to_attr(&Json::Number("0.5".into())).expect("number"), n("0.5"));
    assert_eq!(json_to_attr(&str_json("x")).expect("string"), s("x"));
    assert_eq!(
        json_to_attr(&Json::Array(vec![str_json("a"), Json::Null])).expect("array"),
        AttributeValue::L(vec![s("a"), AttributeValue::Null])
    );
    assert_eq!(
        json_to_attr(&object(vec![("$binary", str_json("00ff"))])).expect("binary"),
        AttributeValue::B(vec![0, 255])
    );
    assert_eq!(
        json_to_attr(&object(vec![("$ss", Json::Array(vec![str_json("b"), str_json("a"), str_json("b")]))]))
            .expect("set"),
        AttributeValue::Ss(vec!["a".to_string(), "b".to_string()])
    );
    assert!(matches!(
        json_to_attr(&object(vec![("$ss", Json::Array(vec![]))])),
        Err(DbError::Validation(_))
    ));
    assert!(matches!(
        json_to_attr(&object(vec![("$ns", Json::Array(vec![str_json("x")]))])),
        Err(DbError::Validation(_))
    ));
    assert!(matches!(
        json_to_attr(&object(vec![("$binary", str_json("0"))])),
        Err(DbError::Validation(_))
    ));
    let m = json_to_attr(&object(vec![("a", Json::Bool(false)), ("$binary", Json::Null)])).expect("map");
    match m {
        AttributeValue::M(map) => assert_eq!(map.len(), 2),
        other => panic!("expected a map, got {other:?}"),
    }
    assert!(matches!(json_to_item(&Json::Array(vec![])), Err(DbError::Validation(_))));
}

#[test]
fn json_integers_for_limits() {
    assert_eq!(digits_u64("12"), Some(12));
    assert_eq!(digits_u64("18446744073709551615"), Some(u64::MAX));
    assert_eq!(digits_u64("18446744073709551616"), None);
    assert_eq!(digits_u64("1.5"), None);
    assert_eq!(digits_u64("-1"), None);
    assert_eq!(digits_u64(""), None);
}

#[test]
fn table_definitions_from_json() {
    let def = parse_table_def(&object(vec![
        ("name", str_json("orders")),
        ("key", object(vec![("pk", str_json("userId")), ("sk", str_json("orderId"))])),
        (
            "indexes",
            Json::Array(vec![object(vec![
                ("name", str_json("byStatus")),
                ("key", object(vec![("pk", str_json("status"))])),
            ])]),
        ),
        ("ttlAttr", str_json("expiresAt")),
    ]))
    .expect("definition");
    assert_eq!(def.name, "orders");
    assert_eq!(def.key.pk, "userId");
    assert_eq!(def.key.sk.as_deref(), Some("orderId"));
    assert_eq!(def.indexes.len(), 1);
    assert_eq!(def.indexes[0].name, "byStatus");
    assert_eq!(def.ttl_attr.as_deref(), Some("expiresAt"));
    assert!(matches!(
        parse_table_def(&object(vec![("name", str_json("orders"))])),
        Err(DbError::Validation(_))
    ));
    assert!(matches!(
        parse_table_def(&object(vec![("name", Json::Bool(true)), ("key", object(vec![]))])),
        Err(DbError::Validation(_))
    ));
}

#[test]
fn item_keys_follow_the_schema() {
    let def = table("events", None);
    let mut it = Item::new();
    it.insert("id".into(), s("a"));
    assert!(matches!(encode_item_key(&def, &it), Err(DbError::Validation(_))));
    it.insert("at".into(), n("7"));
    assert_eq!(
        encode_item_key(&def, &it).expect("key"),
        encode_key(&s("a"), Some(&n("7"))).expect("encoded")
    );
    it.insert("id".into(), AttributeValue::Bool(true));
    assert!(matches!(encode_item_key(&def, &it), Err(DbError::Validation(_))));
}

#[test]
fn expired_items_are_not_visible() {
    let def = table("events", Some("exp"));
    let mut it = Item::new();
    it.insert("exp".into(), n("100"));
    assert!(visible_item(&def, it.duplicate(), 100).is_none());
    assert!(visible_item(&def, it.duplicate(), 99).is_some());
    let plain = table("events", None);
    assert!(visible_item(&plain, it, 1_000_000).is_some());
}

#[test]
fn index_entries_split_into_their_parts() {
    let def = table("orders", None);
    let idx = &def.indexes[0];
    assert_eq!(find_index(&def, "byStatus"), Some(0));
    assert_eq!(find_index(&def, "ghost"), None);
    let mut it = Item::new();
    it.insert("status".into(), s("open"));
    it.insert("amount".into(), n("30"));
    let main = vec![9u8, 8, 7];
    let entry = index_entry_key(idx, &it, &main).expect("entry").expect("present");
    let (isk, main_key) = entry_parts(&entry, true).expect("parts");
    assert_eq!(main_key, main);
    assert!(matches!(isk, Some(AttributeValue::N(_))));
    let mut sparse = Item::new();
    sparse.insert("amount".into(), n("30"));
    assert!(index_entry_key(idx, &sparse, &main).expect("sparse").is_none());
}

#[test]
fn number_arithmetic_is_exact() {
    assert_eq!(add(&Number("1.5".into()), &Number("2.25".into())).expect("add").0, "3.75");
    assert_eq!(sub(&Number("1".into()), &Number("3".into())).expect("sub").0, "-2");
    assert_eq!(
        add(&Number("99999999999999999999".into()), &Number("1".into())).expect("carry").0,
        "100000000000000000000"
    );
    assert_eq!(canonicalize(&Number("1.0".into())).expect("canonical").0, "1");
    assert!(matches!(add(&Number("x".into()), &Number("1".into())), Err(DbError::Validation(_))));
}

#[test]
fn expiry_stays_once_reached() {
    let def = table("events", Some("exp"));
    for ttl in ["100", "1.5e2", "-3", "0", "99.5"] {
        let mut it = Item::new();
        it.insert("exp".into(), n(ttl));
        let mut seen = false;
        for now in [-10i64, -3, 0, 99, 100, 150, 151, i64::MAX] {
            let e = is_expired(&def, &it, now);
            assert!(!seen || e, "{ttl} at {now}");
            seen = seen || e;
        }
        assert!(seen, "{ttl}");
    }
    let mut it = Item::new();
    it.insert("exp".into(), n("100"));
    assert!(!is_expired(&def, &it, 99));
    assert!(is_expired(&def, &it, 100));
    assert!(is_expired(&def, &it, i64::MIN + 1) == false);
}

#[test]
fn request_members_are_read_exactly() {
    // an index entry that is no definition refuses the whole table
    assert!(matches!(
        parse_table_def(&object(vec![
            ("name", str_json("t")),
            ("key", object(vec![("pk", str_json("id"))])),
            ("indexes", Json::Array(vec![str_json("byX")])),
        ])),
        Err(DbError::Validation(_))
    ));
    // a ttlAttr that is no string is refused
    assert!(matches!(
        parse_table_def(&object(vec![
            ("name", str_json("t")),
            ("key", object(vec![("pk", str_json("id"))])),
            ("ttlAttr", Json::Bool(true)),
        ])),
        Err(DbError::Validation(_))
    ));
    // the last of two placeholders with one name counts
    let fields = vec![
        (
            "values".to_string(),
            object(vec![(":v", str_json("first")), (":w", Json::Bool(false)), (":v", str_json("last"))]),
        ),
        ("names".to_string(), object(vec![("#n", str_json("a")), ("#n", str_json("b"))])),
    ];
    let (values, names) = shared_values_names(&fields).expect("placeholders");
    assert_eq!(values.get(":v"), Some(&s("last")));
    assert_eq!(values.get(":w"), Some(&AttributeValue::Bool(false)));
    assert_eq!(names.get("#n").map(|x| x.as_str()), Some("b"));
    let bad = vec![("names".to_string(), object(vec![("#n", Json::Null)]))];
    assert!(matches!(shared_values_names(&bad), Err(DbError::Validation(_))));
    // a key object read against a key schema
    let ks = KeySchema { pk: "id".to_string(), sk: Some("at".to_string()) };
    let (pk, sk) = key_of_json(&ks, &object(vec![("at", Json::Number("7".into())), ("id", str_json("a"))]))
        .expect("key");
    assert_eq!(pk, s("a"));
    assert_eq!(sk, Some(n("7")));
    assert!(matches!(key_of_json(&ks, &object(vec![("id", str_json("a"))])), Err(DbError::Validation(_))));
    assert!(matches!(key_of_json(&ks, &str_json("a")), Err(DbError::Validation(_))));
}

fn orders_def(ttl: Option<&str>, indexes: Vec<IndexDef>) -> TableDef {
    TableDef {
        name: "orders".to_string(),
        key: KeySchema { pk: "userId".to_string(), sk: Some("orderId".to_string()) },
        indexes,
        ttl_attr: ttl.map(|x| x.to_string()),
    }
}

fn order(id: &str, expires: Option<&str>) -> Item {
    let mut it = Item::new();
    it.insert("userId".into(), s("u1"));
    it.insert("orderId".into(), s(id));
    if let Some(t) = expires {
        it.insert("expiresAt".into(), n(t));
    }
    it
}

#[test]
fn page_filling_skips_expired_and_stops_at_the_limit() {
    let def = orders_def(Some("expiresAt"), vec![]);
    let mut page: Vec<Item> = Vec::new();
    // A live item below the limit: taken, no last key yet.
    assert_eq!(add_candidate(&mut page, &vec![1], order("o1", None), &def, 100, Some(2)), None);
    assert_eq!(page.len(), 1);
    // An expired item is passed over and does not count.
    assert_eq!(add_candidate(&mut page, &vec![2], order("o2", Some("50")), &def, 100, Some(2)), None);
    assert_eq!(page.len(), 1);
    // The second live item fills the page: its key is the last evaluated key.
    assert_eq!(
        add_candidate(&mut page, &vec![3], order("o3", Some("500")), &def, 100, Some(2)),
        Some(vec![3])
    );
    assert_eq!(page.len(), 2);
    assert_eq!(page[1].get("orderId"), Some(&s("o3")));
    // Without a limit the page is never full.
    let mut all: Vec<Item> = Vec::new();
    assert_eq!(add_candidate(&mut all, &vec![4], order("o4", None), &def, 100, None), None);
    // A limit of 0 still takes the first item, and cuts there.
    let mut zero: Vec<Item> = Vec::new();
    assert_eq!(add_candidate(&mut zero, &vec![5], order("o5", None), &def, 100, Some(0)), Some(vec![5]));
    assert_eq!(zero.len(), 1);
}

#[test]
fn index_change_plans_the_new_definition() {
    let def = orders_def(None, vec![index("byStatus", "status", Some("amount")), index("byDay", "day", None)]);
    let planned = plan_index_change(
        def.clone(),
        &[index("byAmount", "amount", None)],
        &["byStatus".to_string()],
    )
    .expect("valid change");
    let names: Vec<&str> = planned.indexes.iter().map(|d| d.name.as_str()).collect();
    assert_eq!(names, vec!["byDay", "byAmount"]);
    assert_eq!(planned.name, "orders");
    assert_eq!(planned.key, def.key);
    assert_eq!(planned.indexes[1], index("byAmount", "amount", None));
    assert!(matches!(
        plan_index_change(def.clone(), &[index("byStatus", "x", None)], &[]),
        Err(DbError::Validation(_))
    ));
    assert!(matches!(
        plan_index_change(def.clone(), &[], &["ghost".to_string()]),
        Err(DbError::Validation(_))
    ));
    assert!(matches!(
        plan_index_change(def, &[index("a1", "x", None), index("a1", "y", None)], &[]),
        Err(DbError::Validation(_))
    ));
    let copied = copy_index(&IndexDef {
        name: "inc".to_string(),
        key: KeySchema { pk: "p".to_string(), sk: None },
        projection: Projection::Include(vec!["a".to_string(), "b".to_string()]),
    });
    assert_eq!(copied.projection, Projection::Include(vec!["a".to_string(), "b".to_string()]));
}

#[test]
fn update_of_a_missing_item_starts_from_its_key() {
    let key = KeySchema { pk: "id".to_string(), sk: None };
    let mut values = AttrMap::new();
    values.insert(":t".to_string(), s("hello"));
    let set_title = UpdateInput { expression: "SET title = :t".into(), names: AttrMap::new(), values };
    let (base, new) =
        updated_item(Item::new(), false, &key, &s("a"), None, &set_title).expect("upsert");
    assert_eq!(base.get("id"), Some(&s("a")));
    assert_eq!(new.get("id"), Some(&s("a")));
    assert_eq!(new.get("title"), Some(&s("hello")));
    let mut values = AttrMap::new();
    values.insert(":v".to_string(), s("b"));
    let set_id = UpdateInput { expression: "SET id = :v".into(), names: AttrMap::new(), values };
    assert!(matches!(
        updated_item(Item::new(), false, &key, &s("a"), None, &set_id),
        Err(DbError::Validation(_))
    ));
}

#[test]
fn a_failed_condition_cancels_the_whole_transaction() {
    match op_failure(3, 1, DbError::ConditionalCheckFailed) {
        DbError::TransactionCanceled(reasons) => {
            assert_eq!(reasons, vec!["None", "ConditionalCheckFailed", "None"]);
        },
        other => panic!("expected a cancellation, got {:?}", other),
    }
    assert!(matches!(
        op_failure(3, 1, DbError::Validation("bad".to_string())),
        DbError::Validation(_)
    ));
}
