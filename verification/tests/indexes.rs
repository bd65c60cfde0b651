//! Secondary indexes: kept in the same transaction, sparse, backfilled when added, and queried.
#![allow(dead_code)]

// In-memory engine for the tests: tables in a BTreeMap, a write
// transaction works on a copy that `commit` puts back, a clock that the
// test sets. Definitions and items are kept by handle: their stored form is
// the index of a copy.
use loom_core::application::usecases as uc;
use loom_core::application::usecases::Codec;
use loom_core::domain::{AttrMap, AttributeValue, DbError, Item, TableDef};
use loom_core::ports::{Clock, KvEntries, ReadTxn, StorageEngine, WriteTxn};
use std::cell::{Cell, RefCell};
use std::collections::BTreeMap;

type Tables = BTreeMap<(String, Vec<u8>), Vec<u8>>;

struct FixedClock {
    now: Cell<i64>,
}

impl Clock for FixedClock {
    fn now_epoch(&self) -> i64 {
        self.now.get()
    }
}

struct InMemoryStorage {
    data: RefCell<Tables>,
    clock: FixedClock,
    defs: RefCell<Vec<TableDef>>,
    items: RefCell<Vec<Item>>,
}

struct MemWrite<'a> {
    store: &'a InMemoryStorage,
    view: Tables,
}

struct MemRead {
    view: Tables,
}

fn scan_view(view: &Tables, table: &str, prefix: &[u8]) -> KvEntries {
    view.iter()
        .filter(|((t, k), _)| t == table && k.starts_with(prefix))
        .map(|((_, k), v)| (k.clone(), v.clone()))
        .collect()
}

impl<'a> WriteTxn for MemWrite<'a> {
    fn get(&self, table: &str, key: &[u8]) -> Result<Option<Vec<u8>>, DbError> {
        Ok(self.view.get(&(table.to_string(), key.to_vec())).cloned())
    }
    fn put(&mut self, table: &str, key: &[u8], value: &[u8]) -> Result<(), DbError> {
        self.view.insert((table.to_string(), key.to_vec()), value.to_vec());
        Ok(())
    }
    fn delete(&mut self, table: &str, key: &[u8]) -> Result<(), DbError> {
        self.view.remove(&(table.to_string(), key.to_vec()));
        Ok(())
    }
    fn scan_prefix(&self, table: &str, prefix: &[u8]) -> Result<KvEntries, DbError> {
        Ok(scan_view(&self.view, table, prefix))
    }
    fn commit(self) -> Result<(), DbError> {
        *self.store.data.borrow_mut() = self.view;
        Ok(())
    }
}

impl ReadTxn for MemRead {
    fn get(&self, table: &str, key: &[u8]) -> Result<Option<Vec<u8>>, DbError> {
        Ok(self.view.get(&(table.to_string(), key.to_vec())).cloned())
    }
    fn scan_prefix(&self, table: &str, prefix: &[u8]) -> Result<KvEntries, DbError> {
        Ok(scan_view(&self.view, table, prefix))
    }
}

impl StorageEngine for InMemoryStorage {
    type Write<'a> = MemWrite<'a> where Self: 'a;
    type Read<'a> = MemRead where Self: 'a;
    type Time = FixedClock;

    fn begin_write(&self) -> Result<MemWrite<'_>, DbError> {
        Ok(MemWrite { store: self, view: self.data.borrow().clone() })
    }
    fn begin_read(&self) -> Result<MemRead, DbError> {
        Ok(MemRead { view: self.data.borrow().clone() })
    }
    fn clock(&self) -> &FixedClock {
        &self.clock
    }
    fn storage_bytes(&self) -> Result<u64, DbError> {
        Ok(self.data.borrow().iter().map(|((t, k), v)| (t.len() + k.len() + v.len()) as u64).sum())
    }
}

fn handle(b: &[u8]) -> usize {
    let mut a = [0u8; 8];
    if b.len() == 8 {
        a.copy_from_slice(b);
        u64::from_be_bytes(a) as usize
    } else {
        usize::MAX
    }
}

fn handle_bytes(i: usize) -> Vec<u8> {
    (i as u64).to_be_bytes().to_vec()
}

impl InMemoryStorage {
    fn new() -> Self {
        InMemoryStorage {
            data: RefCell::new(BTreeMap::new()),
            clock: FixedClock { now: Cell::new(0) },
            defs: RefCell::new(Vec::new()),
            items: RefCell::new(Vec::new()),
        }
    }

    fn set_now(&self, t: i64) {
        self.clock.now.set(t);
    }

    fn codec(
        &self,
    ) -> Codec<
        impl Fn(&[u8]) -> Result<TableDef, DbError> + '_,
        impl Fn(&TableDef) -> Result<Vec<u8>, DbError> + '_,
        impl Fn(&[u8]) -> Result<Item, DbError> + '_,
        impl Fn(&Item) -> Result<Vec<u8>, DbError> + '_,
    > {
        Codec {
            decode_def: move |b: &[u8]| -> Result<TableDef, DbError> {
                self.defs
                    .borrow()
                    .get(handle(b))
                    .cloned()
                    .ok_or_else(|| DbError::Serialization("unknown definition".to_string()))
            },
            encode_def: move |d: &TableDef| -> Result<Vec<u8>, DbError> {
                let mut defs = self.defs.borrow_mut();
                defs.push(d.clone());
                Ok(handle_bytes(defs.len() - 1))
            },
            decode_item: move |b: &[u8]| -> Result<Item, DbError> {
                self.items
                    .borrow()
                    .get(handle(b))
                    .map(|i| i.duplicate())
                    .ok_or_else(|| DbError::Serialization("unknown item".to_string()))
            },
            encode_item: move |i: &Item| -> Result<Vec<u8>, DbError> {
                let mut items = self.items.borrow_mut();
                items.push(i.duplicate());
                Ok(handle_bytes(items.len() - 1))
            },
        }
    }
}

fn vals(pairs: &[(&str, AttributeValue)]) -> AttrMap<AttributeValue> {
    let mut m = AttrMap::new();
    for (k, v) in pairs {
        m.insert(k.to_string(), v.duplicate());
    }
    m
}

fn names_of(pairs: &[(&str, &str)]) -> AttrMap<String> {
    let mut m = AttrMap::new();
    for (k, v) in pairs {
        m.insert(k.to_string(), v.to_string());
    }
    m
}

// The operations on the in-memory engine, with its stored forms.
use loom_core::application::usecases::{
    ConditionInput, ExprInput, KeyConditionInput, KeyRef, Page, ProjectionInput, QueryOptions,
    ScanOptions, TableStats, TransactWriteOp, UpdateInput, FORMAT_VERSION,
};
use loom_core::domain::IndexDef;

fn create_table(e: &InMemoryStorage, def: &TableDef) -> Result<(), DbError> {
    uc::create_table(e, def, &e.codec().encode_def)
}

fn delete_table(e: &InMemoryStorage, name: &str) -> Result<(), DbError> {
    uc::delete_table(e, name, &e.codec().decode_def)
}

fn describe_table(e: &InMemoryStorage, name: &str) -> Result<TableDef, DbError> {
    uc::describe_table(e, name, &e.codec().decode_def)
}

fn list_tables(e: &InMemoryStorage) -> Result<Vec<String>, DbError> {
    uc::list_tables(e)
}

fn stats(e: &InMemoryStorage, table: &str) -> Result<TableStats, DbError> {
    uc::stats(e, table, &e.codec().decode_def)
}

fn ensure_format(e: &InMemoryStorage) -> Result<u64, DbError> {
    uc::ensure_format(e)
}

fn put_item(
    e: &InMemoryStorage,
    table: &str,
    item: &Item,
    condition: Option<&ConditionInput>,
) -> Result<(), DbError> {
    uc::put_item(e, table, item, condition, &e.codec())
}

fn get_item_projected(
    e: &InMemoryStorage,
    table: &str,
    pk: &AttributeValue,
    sk: Option<&AttributeValue>,
    projection: Option<&ProjectionInput>,
) -> Result<Option<Item>, DbError> {
    match uc::get_item(e, table, pk, sk, &e.codec())? {
        Some(item) => Ok(Some(uc::project_item(item, projection)?)),
        None => Ok(None),
    }
}

fn delete_item(
    e: &InMemoryStorage,
    table: &str,
    pk: &AttributeValue,
    sk: Option<&AttributeValue>,
    condition: Option<&ConditionInput>,
) -> Result<Option<Item>, DbError> {
    uc::delete_item(e, table, pk, sk, condition, &e.codec())
}

fn update_item(
    e: &InMemoryStorage,
    table: &str,
    pk: &AttributeValue,
    sk: Option<&AttributeValue>,
    update: &UpdateInput,
    condition: Option<&ConditionInput>,
) -> Result<Item, DbError> {
    uc::update_item(e, table, pk, sk, update, condition, &e.codec())
}

fn query(
    e: &InMemoryStorage,
    table: &str,
    key_condition: &KeyConditionInput,
    opts: &QueryOptions,
) -> Result<Page, DbError> {
    uc::query(e, table, key_condition, opts, &e.codec())
}

fn scan(e: &InMemoryStorage, table: &str, opts: &ScanOptions) -> Result<Page, DbError> {
    uc::scan(e, table, opts, &e.codec())
}

fn sweep_expired(e: &InMemoryStorage, table: &str, budget: usize) -> Result<usize, DbError> {
    uc::sweep_expired(e, table, budget, &e.codec())
}

fn transact_get(e: &InMemoryStorage, keys: &[KeyRef]) -> Result<Vec<Option<Item>>, DbError> {
    uc::transact_get(e, keys, &e.codec())
}

fn batch_get(e: &InMemoryStorage, keys: &[KeyRef]) -> Result<Vec<Option<Item>>, DbError> {
    uc::batch_get(e, keys, &e.codec())
}

fn batch_write(
    e: &InMemoryStorage,
    puts: &[(String, Item)],
    deletes: &[KeyRef],
) -> Result<(), DbError> {
    uc::batch_write(e, puts, deletes, &e.codec())
}

fn transact_write(e: &InMemoryStorage, ops: &[TransactWriteOp]) -> Result<(), DbError> {
    uc::transact_write(e, ops, &e.codec())
}

fn update_table(
    e: &InMemoryStorage,
    table: &str,
    add: &[IndexDef],
    remove: &[String],
) -> Result<(), DbError> {
    uc::update_table(e, table, add, remove, &e.codec())
}

fn get_item(
    e: &InMemoryStorage,
    table: &str,
    pk: &AttributeValue,
    sk: Option<&AttributeValue>,
) -> Result<Option<Item>, DbError> {
    uc::get_item(e, table, pk, sk, &e.codec())
}


use loom_core::domain::{KeySchema, Number, Projection};

fn s(v: &str) -> AttributeValue {
    AttributeValue::S(v.into())
}
fn n(v: &str) -> AttributeValue {
    AttributeValue::N(Number(v.into()))
}

fn by_status_index() -> IndexDef {
    IndexDef {
        name: "byStatus".into(),
        key: KeySchema {
            pk: "status".into(),
            sk: Some("amount".into()),
        },
        projection: Projection::KeysOnly,
    }
}

fn orders_def(indexes: Vec<IndexDef>) -> TableDef {
    TableDef {
        name: "orders".into(),
        key: KeySchema {
            pk: "userId".into(),
            sk: Some("orderId".into()),
        },
        indexes,
        ttl_attr: None,
    }
}

fn order(uid: &str, oid: &str, status: Option<&str>, amount: &str) -> Item {
    let mut it = Item::new();
    it.insert("userId".into(), s(uid));
    it.insert("orderId".into(), s(oid));
    if let Some(st) = status {
        it.insert("status".into(), s(st));
    }
    it.insert("amount".into(), n(amount));
    it
}

fn kc(expression: &str, values: &[(&str, AttributeValue)]) -> KeyConditionInput {
    KeyConditionInput {
        expression: expression.into(),
        names: AttrMap::new(),
        values: vals(values),
    }
}

fn index_query() -> QueryOptions {
    QueryOptions {
        index: Some("byStatus".into()),
        ..QueryOptions::default()
    }
}

fn order_ids(items: &[Item]) -> Vec<String> {
    items
        .iter()
        .map(|it| match it.get("orderId") {
            Some(AttributeValue::S(v)) => v.clone(),
            other => panic!("unexpected orderId {other:?}"),
        })
        .collect()
}

fn seeded() -> InMemoryStorage {
    let e = InMemoryStorage::new();
    create_table(&e, &orders_def(vec![by_status_index()])).expect("create");
    for (oid, status, amount) in [
        ("o1", Some("open"), "30"),
        ("o2", Some("open"), "10"),
        ("o3", Some("open"), "20"),
        ("o4", Some("shipped"), "99"),
        ("o5", None, "77"),
    ] {
        put_item(&e, "orders", &order("u1", oid, status, amount), None).expect("put");
    }
    e
}

#[test]
fn query_gsi_returns_full_items_sorted_by_numeric_isk() {
    let e = seeded();
    let page = query(
        &e,
        "orders",
        &kc("status = :s", &[(":s", s("open"))]),
        &index_query(),
    )
    .expect("query");
    assert_eq!(order_ids(&page.items), ["o2", "o3", "o1"]);
    assert_eq!(page.items[0].get("userId"), Some(&s("u1")));
}

#[test]
fn query_gsi_with_isk_range_condition() {
    let e = seeded();
    let page = query(
        &e,
        "orders",
        &kc(
            "status = :s AND amount >= :min",
            &[(":s", s("open")), (":min", n("20"))],
        ),
        &index_query(),
    )
    .expect("query");
    assert_eq!(order_ids(&page.items), ["o3", "o1"]); // 20, 30
}

#[test]
fn sparse_items_are_absent_from_index() {
    let e = seeded();
    for status in ["open", "shipped"] {
        let page = query(
            &e,
            "orders",
            &kc("status = :s", &[(":s", s(status))]),
            &index_query(),
        )
        .expect("query");
        assert!(
            !order_ids(&page.items).contains(&"o5".to_string()),
            "o5 (no status) must not appear in the index"
        );
    }
}

#[test]
fn put_overwrite_moves_index_entry() {
    let e = seeded();
    put_item(
        &e,
        "orders",
        &order("u1", "o1", Some("shipped"), "30"),
        None,
    )
    .expect("put");

    let open = query(
        &e,
        "orders",
        &kc("status = :s", &[(":s", s("open"))]),
        &index_query(),
    )
    .expect("query");
    assert_eq!(order_ids(&open.items), ["o2", "o3"]);

    let shipped = query(
        &e,
        "orders",
        &kc("status = :s", &[(":s", s("shipped"))]),
        &index_query(),
    )
    .expect("query");
    assert_eq!(order_ids(&shipped.items), ["o1", "o4"]); // 30 < 99
}

#[test]
fn update_item_maintains_index() {
    let e = seeded();
    update_item(
        &e,
        "orders",
        &s("u1"),
        Some(&s("o2")),
        &UpdateInput {
            expression: "SET status = :new".into(),
            names: AttrMap::new(),
            values: vals(&[(":new", s("shipped"))]),
        },
        None,
    )
    .expect("update");

    let open = query(
        &e,
        "orders",
        &kc("status = :s", &[(":s", s("open"))]),
        &index_query(),
    )
    .expect("query");
    assert_eq!(order_ids(&open.items), ["o3", "o1"]);
}

#[test]
fn delete_item_removes_index_entry() {
    let e = seeded();
    delete_item(&e, "orders", &s("u1"), Some(&s("o3")), None).expect("delete");
    let page = query(
        &e,
        "orders",
        &kc("status = :s", &[(":s", s("open"))]),
        &index_query(),
    )
    .expect("query");
    assert_eq!(order_ids(&page.items), ["o2", "o1"]);
}

#[test]
fn update_table_adds_index_with_backfill() {
    let e = InMemoryStorage::new();
    create_table(&e, &orders_def(vec![])).expect("create");
    for (oid, amount) in [("o1", "30"), ("o2", "10")] {
        put_item(&e, "orders", &order("u1", oid, Some("open"), amount), None).expect("put");
    }
    update_table(&e, "orders", &[by_status_index()], &[]).expect("update_table");
    let page = query(
        &e,
        "orders",
        &kc("status = :s", &[(":s", s("open"))]),
        &index_query(),
    )
    .expect("query");
    assert_eq!(order_ids(&page.items), ["o2", "o1"]);

    put_item(&e, "orders", &order("u1", "o9", Some("open"), "5"), None).expect("put");
    let page = query(
        &e,
        "orders",
        &kc("status = :s", &[(":s", s("open"))]),
        &index_query(),
    )
    .expect("query");
    assert_eq!(order_ids(&page.items), ["o9", "o2", "o1"]);
}

#[test]
fn update_table_removes_index() {
    let e = seeded();
    update_table(&e, "orders", &[], &["byStatus".to_string()]).expect("update_table");
    let r = query(
        &e,
        "orders",
        &kc("status = :s", &[(":s", s("open"))]),
        &index_query(),
    );
    assert!(matches!(r, Err(DbError::ResourceNotFound(_))), "got {r:?}");
}

#[test]
fn delete_table_cleans_index_entries() {
    let e = seeded();
    delete_table(&e, "orders").expect("delete_table");
    create_table(&e, &orders_def(vec![by_status_index()])).expect("re-create");
    let page = query(
        &e,
        "orders",
        &kc("status = :s", &[(":s", s("open"))]),
        &index_query(),
    )
    .expect("query");
    assert!(
        page.items.is_empty(),
        "old index entries must not resurrect"
    );
}

#[test]
fn index_query_pagination() {
    let e = seeded();
    let mut collected = Vec::new();
    let mut start: Option<Vec<u8>> = None;
    loop {
        let page = query(
            &e,
            "orders",
            &kc("status = :s", &[(":s", s("open"))]),
            &QueryOptions {
                index: Some("byStatus".into()),
                limit: Some(1),
                exclusive_start_key: start.clone(),
                ..QueryOptions::default()
            },
        )
        .expect("query");
        collected.extend(order_ids(&page.items));
        match page.last_evaluated_key {
            Some(k) => start = Some(k),
            None => break,
        }
        assert!(collected.len() <= 5, "must terminate");
    }
    assert_eq!(collected, ["o2", "o3", "o1"]);
}

#[test]
fn invalid_index_usage_is_rejected() {
    let e = seeded();
    let r = query(
        &e,
        "orders",
        &kc("status = :s", &[(":s", s("open"))]),
        &QueryOptions {
            index: Some("ghost".into()),
            ..QueryOptions::default()
        },
    );
    assert!(matches!(r, Err(DbError::ResourceNotFound(_))), "got {r:?}");
    let r = query(
        &e,
        "orders",
        &kc("userId = :u", &[(":u", s("u1"))]),
        &index_query(),
    );
    assert!(matches!(r, Err(DbError::Validation(_))), "got {r:?}");
    let r = update_table(&e, "orders", &[by_status_index()], &[]);
    assert!(matches!(r, Err(DbError::Validation(_))), "got {r:?}");
    let r = update_table(&e, "orders", &[], &["ghost".to_string()]);
    assert!(matches!(r, Err(DbError::Validation(_))), "got {r:?}");
}
