//! Query (key conditions, paging, filters) and scan.
#![allow(dead_code)]

// In-memory engine for the tests: tables in a BTreeMap, a write
// transaction works on a copy that `commit` puts back, a clock that the
// test sets. Definitions and items are kept by handle: their stored form is
// the index of a copy.
use loom_core::application::usecases as uc;
use loom_core::application::usecases::Codec;
use loom_core::domain::{AttrMap, AttributeValue, DbError, Item, TableDef};
use loom_core::ports::{Clock, KvEntries, ReadTxn, StorageEngine, WriteTxn};
use std::cell::{Cell, RefCell};
use std::collections::BTreeMap;

type Tables = BTreeMap<(String, Vec<u8>), Vec<u8>>;

struct FixedClock {
    now: Cell<i64>,
}

impl Clock for FixedClock {
    fn now_epoch(&self) -> i64 {
        self.now.get()
    }
}

struct InMemoryStorage {
    data: RefCell<Tables>,
    clock: FixedClock,
    defs: RefCell<Vec<TableDef>>,
    items: RefCell<Vec<Item>>,
}

struct MemWrite<'a> {
    store: &'a InMemoryStorage,
    view: Tables,
}

struct MemRead {
    view: Tables,
}

fn scan_view(view: &Tables, table: &str, prefix: &[u8]) -> KvEntries {
    view.iter()
        .filter(|((t, k), _)| t == table && k.starts_with(prefix))
        .map(|((_, k), v)| (k.clone(), v.clone()))
        .collect()
}

impl<'a> WriteTxn for MemWrite<'a> {
    fn get(&self, table: &str, key: &[u8]) -> Result<Option<Vec<u8>>, DbError> {
        Ok(self.view.get(&(table.to_string(), key.to_vec())).cloned())
    }
    fn put(&mut self, table: &str, key: &[u8], value: &[u8]) -> Result<(), DbError> {
        self.view.insert((table.to_string(), key.to_vec()), value.to_vec());
        Ok(())
    }
    fn delete(&mut self, table: &str, key: &[u8]) -> Result<(), DbError> {
        self.view.remove(&(table.to_string(), key.to_vec()));
        Ok(())
    }
    fn scan_prefix(&self, table: &str, prefix: &[u8]) -> Result<KvEntries, DbError> {
        Ok(scan_view(&self.view, table, prefix))
    }
    fn commit(self) -> Result<(), DbError> {
        *self.store.data.borrow_mut() = self.view;
        Ok(())
    }
}

impl ReadTxn for MemRead {
    fn get(&self, table: &str, key: &[u8]) -> Result<Option<Vec<u8>>, DbError> {
        Ok(self.view.get(&(table.to_string(), key.to_vec())).cloned())
    }
    fn scan_prefix(&self, table: &str, prefix: &[u8]) -> Result<KvEntries, DbError> {
        Ok(scan_view(&self.view, table, prefix))
    }
}

impl StorageEngine for InMemoryStorage {
    type Write<'a> = MemWrite<'a> where Self: 'a;
    type Read<'a> = MemRead where Self: 'a;
    type Time = FixedClock;

    fn begin_write(&self) -> Result<MemWrite<'_>, DbError> {
        Ok(MemWrite { store: self, view: self.data.borrow().clone() })
    }
    fn begin_read(&self) -> Result<MemRead, DbError> {
        Ok(MemRead { view: self.data.borrow().clone() })
    }
    fn clock(&self) -> &FixedClock {
        &self.clock
    }
    fn storage_bytes(&self) -> Result<u64, DbError> {
        Ok(self.data.borrow().iter().map(|((t, k), v)| (t.len() + k.len() + v.len()) as u64).sum())
    }
}

fn handle(b: &[u8]) -> usize {
    let mut a = [0u8; 8];
    if b.len() == 8 {
        a.copy_from_slice(b);
        u64::from_be_bytes(a) as usize
    } else {
        usize::MAX
    }
}

fn handle_bytes(i: usize) -> Vec<u8> {
    (i as u64).to_be_bytes().to_vec()
}

impl InMemoryStorage {
    fn new() -> Self {
        InMemoryStorage {
            data: RefCell::new(BTreeMap::new()),
            clock: FixedClock { now: Cell::new(0) },
            defs: RefCell::new(Vec::new()),
            items: RefCell::new(Vec::new()),
        }
    }

    fn set_now(&self, t: i64) {
        self.clock.now.set(t);
    }

    fn codec(
        &self,
    ) -> Codec<
        impl Fn(&[u8]) -> Result<TableDef, DbError> + '_,
        impl Fn(&TableDef) -> Result<Vec<u8>, DbError> + '_,
        impl Fn(&[u8]) -> Result<Item, DbError> + '_,
        impl Fn(&Item) -> Result<Vec<u8>, DbError> + '_,
    > {
        Codec {
            decode_def: move |b: &[u8]| -> Result<TableDef, DbError> {
                self.defs
                    .borrow()
                    .get(handle(b))
                    .cloned()
                    .ok_or_else(|| DbError::Serialization("unknown definition".to_string()))
            },
            encode_def: move |d: &TableDef| -> Result<Vec<u8>, DbError> {
                let mut defs = self.defs.borrow_mut();
                defs.push(d.clone());
                Ok(handle_bytes(defs.len() - 1))
            },
            decode_item: move |b: &[u8]| -> Result<Item, DbError> {
                self.items
                    .borrow()
                    .get(handle(b))
                    .map(|i| i.duplicate())
                    .ok_or_else(|| DbError::Serialization("unknown item".to_string()))
            },
            encode_item: move |i: &Item| -> Result<Vec<u8>, DbError> {
                let mut items = self.items.borrow_mut();
                items.push(i.duplicate());
                Ok(handle_bytes(items.len() - 1))
            },
        }
    }
}

fn vals(pairs: &[(&str, AttributeValue)]) -> AttrMap<AttributeValue> {
    let mut m = AttrMap::new();
    for (k, v) in pairs {
        m.insert(k.to_string(), v.duplicate());
    }
    m
}

fn names_of(pairs: &[(&str, &str)]) -> AttrMap<String> {
    let mut m = AttrMap::new();
    for (k, v) in pairs {
        m.insert(k.to_string(), v.to_string());
    }
    m
}

// The operations on the in-memory engine, with its stored forms.
use loom_core::application::usecases::{
    ConditionInput, ExprInput, KeyConditionInput, KeyRef, Page, ProjectionInput, QueryOptions,
    ScanOptions, TableStats, TransactWriteOp, UpdateInput, FORMAT_VERSION,
};
use loom_core::domain::IndexDef;

fn create_table(e: &InMemoryStorage, def: &TableDef) -> Result<(), DbError> {
    uc::create_table(e, def, &e.codec().encode_def)
}

fn delete_table(e: &InMemoryStorage, name: &str) -> Result<(), DbError> {
    uc::delete_table(e, name, &e.codec().decode_def)
}

fn describe_table(e: &InMemoryStorage, name: &str) -> Result<TableDef, DbError> {
    uc::describe_table(e, name, &e.codec().decode_def)
}

fn list_tables(e: &InMemoryStorage) -> Result<Vec<String>, DbError> {
    uc::list_tables(e)
}

fn stats(e: &InMemoryStorage, table: &str) -> Result<TableStats, DbError> {
    uc::stats(e, table, &e.codec().decode_def)
}

fn ensure_format(e: &InMemoryStorage) -> Result<u64, DbError> {
    uc::ensure_format(e)
}

fn put_item(
    e: &InMemoryStorage,
    table: &str,
    item: &Item,
    condition: Option<&ConditionInput>,
) -> Result<(), DbError> {
    uc::put_item(e, table, item, condition, &e.codec())
}

fn get_item_projected(
    e: &InMemoryStorage,
    table: &str,
    pk: &AttributeValue,
    sk: Option<&AttributeValue>,
    projection: Option<&ProjectionInput>,
) -> Result<Option<Item>, DbError> {
    match uc::get_item(e, table, pk, sk, &e.codec())? {
        Some(item) => Ok(Some(uc::project_item(item, projection)?)),
        None => Ok(None),
    }
}

fn delete_item(
    e: &InMemoryStorage,
    table: &str,
    pk: &AttributeValue,
    sk: Option<&AttributeValue>,
    condition: Option<&ConditionInput>,
) -> Result<Option<Item>, DbError> {
    uc::delete_item(e, table, pk, sk, condition, &e.codec())
}

fn update_item(
    e: &InMemoryStorage,
    table: &str,
    pk: &AttributeValue,
    sk: Option<&AttributeValue>,
    update: &UpdateInput,
    condition: Option<&ConditionInput>,
) -> Result<Item, DbError> {
    uc::update_item(e, table, pk, sk, update, condition, &e.codec())
}

fn query(
    e: &InMemoryStorage,
    table: &str,
    key_condition: &KeyConditionInput,
    opts: &QueryOptions,
) -> Result<Page, DbError> {
    uc::query(e, table, key_condition, opts, &e.codec())
}

fn scan(e: &InMemoryStorage, table: &str, opts: &ScanOptions) -> Result<Page, DbError> {
    uc::scan(e, table, opts, &e.codec())
}

fn sweep_expired(e: &InMemoryStorage, table: &str, budget: usize) -> Result<usize, DbError> {
    uc::sweep_expired(e, table, budget, &e.codec())
}

fn transact_get(e: &InMemoryStorage, keys: &[KeyRef]) -> Result<Vec<Option<Item>>, DbError> {
    uc::transact_get(e, keys, &e.codec())
}

fn batch_get(e: &InMemoryStorage, keys: &[KeyRef]) -> Result<Vec<Option<Item>>, DbError> {
    uc::batch_get(e, keys, &e.codec())
}

fn batch_write(
    e: &InMemoryStorage,
    puts: &[(String, Item)],
    deletes: &[KeyRef],
) -> Result<(), DbError> {
    uc::batch_write(e, puts, deletes, &e.codec())
}

fn transact_write(e: &InMemoryStorage, ops: &[TransactWriteOp]) -> Result<(), DbError> {
    uc::transact_write(e, ops, &e.codec())
}

fn update_table(
    e: &InMemoryStorage,
    table: &str,
    add: &[IndexDef],
    remove: &[String],
) -> Result<(), DbError> {
    uc::update_table(e, table, add, remove, &e.codec())
}

fn get_item(
    e: &InMemoryStorage,
    table: &str,
    pk: &AttributeValue,
    sk: Option<&AttributeValue>,
) -> Result<Option<Item>, DbError> {
    uc::get_item(e, table, pk, sk, &e.codec())
}


use loom_core::domain::{KeySchema, Number};

fn s(v: &str) -> AttributeValue {
    AttributeValue::S(v.into())
}
fn n(v: &str) -> AttributeValue {
    AttributeValue::N(Number(v.into()))
}

fn kc(expression: &str, values: &[(&str, AttributeValue)]) -> KeyConditionInput {
    KeyConditionInput {
        expression: expression.into(),
        names: AttrMap::new(),
        values: vals(values),
    }
}

fn filter(expression: &str, values: &[(&str, AttributeValue)]) -> ConditionInput {
    ConditionInput {
        expression: expression.into(),
        names: AttrMap::new(),
        values: vals(values),
    }
}

fn seeded_engine() -> InMemoryStorage {
    let e = InMemoryStorage::new();
    create_table(
        &e,
        &TableDef {
            name: "orders".into(),
            key: KeySchema {
                pk: "userId".into(),
                sk: Some("orderId".into()),
            },
            indexes: vec![],
            ttl_attr: None,
        },
    )
    .expect("create");
    for (uid, oid, amount) in [
        ("u1", "o104", "50"),
        ("u1", "o100", "10"),
        ("u1", "o102", "30"),
        ("u1", "o101", "20"),
        ("u1", "o103", "40"),
        ("u2", "o200", "99"),
    ] {
        let mut it = Item::new();
        it.insert("userId".into(), s(uid));
        it.insert("orderId".into(), s(oid));
        it.insert("amount".into(), n(amount));
        put_item(&e, "orders", &it, None).expect("put");
    }
    e
}

fn order_ids(items: &[Item]) -> Vec<String> {
    items
        .iter()
        .map(|it| match it.get("orderId") {
            Some(AttributeValue::S(v)) => v.clone(),
            other => panic!("unexpected orderId {other:?}"),
        })
        .collect()
}

#[test]
fn query_partition_sorted_ascending() {
    let e = seeded_engine();
    let page = query(
        &e,
        "orders",
        &kc("userId = :u", &[(":u", s("u1"))]),
        &QueryOptions::default(),
    )
    .expect("query");
    assert_eq!(
        order_ids(&page.items),
        ["o100", "o101", "o102", "o103", "o104"]
    );
    assert!(page.last_evaluated_key.is_none());
}

#[test]
fn query_descending_with_scan_forward_false() {
    let e = seeded_engine();
    let page = query(
        &e,
        "orders",
        &kc("userId = :u", &[(":u", s("u1"))]),
        &QueryOptions {
            scan_forward: false,
            ..QueryOptions::default()
        },
    )
    .expect("query");
    assert_eq!(
        order_ids(&page.items),
        ["o104", "o103", "o102", "o101", "o100"]
    );
}

#[test]
fn query_sk_conditions() {
    let e = seeded_engine();
    let cases: Vec<(&str, Vec<(&str, AttributeValue)>, Vec<&str>)> = vec![
        (
            "userId = :u AND orderId > :o",
            vec![(":u", s("u1")), (":o", s("o102"))],
            vec!["o103", "o104"],
        ),
        (
            "userId = :u AND orderId BETWEEN :a AND :b",
            vec![(":u", s("u1")), (":a", s("o101")), (":b", s("o103"))],
            vec!["o101", "o102", "o103"],
        ),
        (
            "userId = :u AND begins_with(orderId, :p)",
            vec![(":u", s("u1")), (":p", s("o10"))],
            vec!["o100", "o101", "o102", "o103", "o104"],
        ),
        (
            "userId = :u AND orderId = :o",
            vec![(":u", s("u1")), (":o", s("o102"))],
            vec!["o102"],
        ),
    ];
    for (expr, values, expected) in cases {
        let page = query(&e, "orders", &kc(expr, &values), &QueryOptions::default())
            .unwrap_or_else(|err| panic!("{expr}: {err:?}"));
        assert_eq!(order_ids(&page.items), expected, "expr: {expr}");
    }
}

#[test]
fn query_numeric_sk_sorts_numerically() {
    let e = InMemoryStorage::new();
    create_table(
        &e,
        &TableDef {
            name: "scores".into(),
            key: KeySchema {
                pk: "game".into(),
                sk: Some("score".into()),
            },
            indexes: vec![],
            ttl_attr: None,
        },
    )
    .expect("create");
    for v in ["30", "2", "10"] {
        let mut it = Item::new();
        it.insert("game".into(), s("g1"));
        it.insert("score".into(), n(v));
        put_item(&e, "scores", &it, None).expect("put");
    }
    let page = query(
        &e,
        "scores",
        &kc("game = :g", &[(":g", s("g1"))]),
        &QueryOptions::default(),
    )
    .expect("query");
    let scores: Vec<_> = page
        .items
        .iter()
        .map(|it| it.get("score").map(|v| v.duplicate()).unwrap())
        .collect();
    assert_eq!(scores, [n("2"), n("10"), n("30")]);

    let page = query(
        &e,
        "scores",
        &kc(
            "game = :g AND score >= :min",
            &[(":g", s("g1")), (":min", n("10"))],
        ),
        &QueryOptions::default(),
    )
    .expect("query");
    assert_eq!(page.items.len(), 2); // 10, 30
}

#[test]
fn query_pagination_round_trip() {
    let e = seeded_engine();
    let mut collected = Vec::new();
    let mut start: Option<Vec<u8>> = None;
    let mut guard = 0;
    loop {
        let page = query(
            &e,
            "orders",
            &kc("userId = :u", &[(":u", s("u1"))]),
            &QueryOptions {
                limit: Some(2),
                exclusive_start_key: start.clone(),
                ..QueryOptions::default()
            },
        )
        .expect("query");
        collected.extend(order_ids(&page.items));
        match page.last_evaluated_key {
            Some(k) => start = Some(k),
            None => break,
        }
        guard += 1;
        assert!(guard < 10, "pagination must terminate");
    }
    assert_eq!(collected, ["o100", "o101", "o102", "o103", "o104"]);
}

#[test]
fn limit_applies_before_filter() {
    let e = seeded_engine();
    let first = query(
        &e,
        "orders",
        &kc("userId = :u", &[(":u", s("u1"))]),
        &QueryOptions {
            limit: Some(2),
            filter: Some(filter("amount >= :min", &[(":min", n("40"))])),
            ..QueryOptions::default()
        },
    )
    .expect("query");
    assert!(first.items.is_empty(), "page1 must be empty after filter");
    assert!(first.last_evaluated_key.is_some(), "but more data remains");

    let mut collected = Vec::new();
    let mut start: Option<Vec<u8>> = None;
    loop {
        let page = query(
            &e,
            "orders",
            &kc("userId = :u", &[(":u", s("u1"))]),
            &QueryOptions {
                limit: Some(2),
                exclusive_start_key: start.clone(),
                filter: Some(filter("amount >= :min", &[(":min", n("40"))])),
                ..QueryOptions::default()
            },
        )
        .expect("query");
        collected.extend(order_ids(&page.items));
        match page.last_evaluated_key {
            Some(k) => start = Some(k),
            None => break,
        }
    }
    assert_eq!(collected, ["o103", "o104"]);
}

#[test]
fn key_condition_with_name_placeholders() {
    let e = seeded_engine();
    let mut input = kc("#u = :u", &[(":u", s("u2"))]);
    input.names.insert("#u".into(), "userId".into());
    let page = query(&e, "orders", &input, &QueryOptions::default()).expect("query");
    assert_eq!(order_ids(&page.items), ["o200"]);
}

#[test]
fn scan_returns_everything_and_paginates() {
    let e = seeded_engine();
    let page = scan(&e, "orders", &ScanOptions::default()).expect("scan");
    assert_eq!(page.items.len(), 6);
    assert!(page.last_evaluated_key.is_none());

    let first = scan(
        &e,
        "orders",
        &ScanOptions {
            limit: Some(4),
            ..ScanOptions::default()
        },
    )
    .expect("scan");
    assert_eq!(first.items.len(), 4);
    let lek = first.last_evaluated_key.expect("must have LEK");
    let second = scan(
        &e,
        "orders",
        &ScanOptions {
            limit: Some(4),
            exclusive_start_key: Some(lek),
            ..ScanOptions::default()
        },
    )
    .expect("scan");
    assert_eq!(second.items.len(), 2);
}

#[test]
fn scan_with_filter() {
    let e = seeded_engine();
    let page = scan(
        &e,
        "orders",
        &ScanOptions {
            filter: Some(filter("amount >= :min", &[(":min", n("50"))])),
            ..ScanOptions::default()
        },
    )
    .expect("scan");
    assert_eq!(page.items.len(), 2);
}

#[test]
fn invalid_key_conditions_are_rejected() {
    let e = seeded_engine();
    for (expr, values) in [
        ("wrong = :u", vec![(":u", s("u1"))]),
        ("userId > :u", vec![(":u", s("u1"))]),
        (
            "userId = :u AND wrong > :o",
            vec![(":u", s("u1")), (":o", s("x"))],
        ),
    ] {
        let r = query(&e, "orders", &kc(expr, &values), &QueryOptions::default());
        assert!(
            matches!(r, Err(DbError::Validation(_))),
            "expr {expr:?}: got {r:?}"
        );
    }
    assert!(matches!(
        query(
            &e,
            "ghost",
            &kc("userId = :u", &[(":u", s("u1"))]),
            &QueryOptions::default()
        ),
        Err(DbError::ResourceNotFound(_))
    ));

    create_table(
        &e,
        &TableDef {
            name: "flat".into(),
            key: KeySchema {
                pk: "id".into(),
                sk: None,
            },
            indexes: vec![],
            ttl_attr: None,
        },
    )
    .expect("create");
    let r = query(
        &e,
        "flat",
        &kc("id = :u AND extra > :x", &[(":u", s("a")), (":x", s("b"))]),
        &QueryOptions::default(),
    );
    assert!(matches!(r, Err(DbError::Validation(_))), "got {r:?}");
}
