//! Expiry: hidden when read, removed by the sweep.
#![allow(dead_code)]

// In-memory engine for the tests: tables in a BTreeMap, a write
// transaction works on a copy that `commit` puts back, a clock that the
// test sets. Definitions and items are kept by handle: their stored form is
// the index of a copy.
use loom_core::application::usecases as uc;
use loom_core::application::usecases::Codec;
use loom_core::domain::{AttrMap, AttributeValue, DbError, Item, TableDef};
use loom_core::ports::{Clock, KvEntries, ReadTxn, StorageEngine, WriteTxn};
use std::cell::{Cell, RefCell};
use std::collections::BTreeMap;

type Tables = BTreeMap<(String, Vec<u8>), Vec<u8>>;

struct FixedClock {
    now: Cell<i64>,
}

impl Clock for FixedClock {
    fn now_epoch(&self) -> i64 {
        self.now.get()
    }
}

struct InMemoryStorage {
    data: RefCell<Tables>,
    clock: FixedClock,
    defs: RefCell<Vec<TableDef>>,
    items: RefCell<Vec<Item>>,
}

struct MemWrite<'a> {
    store: &'a InMemoryStorage,
    view: Tables,
}

struct MemRead {
    view: Tables,
}

fn scan_view(view: &Tables, table: &str, prefix: &[u8]) -> KvEntries {
    view.iter()
        .filter(|((t, k), _)| t == table && k.starts_with(prefix))
        .map(|((_, k), v)| (k.clone(), v.clone()))
        .collect()
}

impl<'a> WriteTxn for MemWrite<'a> {
    fn get(&self, table: &str, key: &[u8]) -> Result<Option<Vec<u8>>, DbError> {
        Ok(self.view.get(&(table.to_string(), key.to_vec())).cloned())
    }
    fn put(&mut self, table: &str, key: &[u8], value: &[u8]) -> Result<(), DbError> {
        self.view.insert((table.to_string(), key.to_vec()), value.to_vec());
        Ok(())
    }
    fn delete(&mut self, table: &str, key: &[u8]) -> Result<(), DbError> {
        self.view.remove(&(table.to_string(), key.to_vec()));
        Ok(())
    }
    fn scan_prefix(&self, table: &str, prefix: &[u8]) -> Result<KvEntries, DbError> {
        Ok(scan_view(&self.view, table, prefix))
    }
    fn commit(self) -> Result<(), DbError> {
        *self.store.data.borrow_mut() = self.view;
        Ok(())
    }
}

impl ReadTxn for MemRead {
    fn get(&self, table: &str, key: &[u8]) -> Result<Option<Vec<u8>>, DbError> {
        Ok(self.view.get(&(table.to_string(), key.to_vec())).cloned())
    }
    fn scan_prefix(&self, table: &str, prefix: &[u8]) -> Result<KvEntries, DbError> {
        Ok(scan_view(&self.view, table, prefix))
    }
}

impl StorageEngine for InMemoryStorage {
    type Write<'a> = MemWrite<'a> where Self: 'a;
    type Read<'a> = MemRead where Self: 'a;
    type Time = FixedClock;

    fn begin_write(&self) -> Result<MemWrite<'_>, DbError> {
        Ok(MemWrite { store: self, view: self.data.borrow().clone() })
    }
    fn begin_read(&self) -> Result<MemRead, DbError> {
        Ok(MemRead { view: self.data.borrow().clone() })
    }
    fn clock(&self) -> &FixedClock {
        &self.clock
    }
    fn storage_bytes(&self) -> Result<u64, DbError> {
        Ok(self.data.borrow().iter().map(|((t, k), v)| (t.len() + k.len() + v.len()) as u64).sum())
    }
}

fn handle(b: &[u8]) -> usize {
    let mut a = [0u8; 8];
    if b.len() == 8 {
        a.copy_from_slice(b);
        u64::from_be_bytes(a) as usize
    } else {
        usize::MAX
    }
}

fn handle_bytes(i: usize) -> Vec<u8> {
    (i as u64).to_be_bytes().to_vec()
}

impl InMemoryStorage {
    fn new() -> Self {
        InMemoryStorage {
            data: RefCell::new(BTreeMap::new()),
            clock: FixedClock { now: Cell::new(0) },
            defs: RefCell::new(Vec::new()),
            items: RefCell::new(Vec::new()),
        }
    }

    fn set_now(&self, t: i64) {
        self.clock.now.set(t);
    }

    fn codec(
        &self,
    ) -> Codec<
        impl Fn(&[u8]) -> Result<TableDef, DbError> + '_,
        impl Fn(&TableDef) -> Result<Vec<u8>, DbError> + '_,
        impl Fn(&[u8]) -> Result<Item, DbError> + '_,
        impl Fn(&Item) -> Result<Vec<u8>, DbError> + '_,
    > {
        Codec {
            decode_def: move |b: &[u8]| -> Result<TableDef, DbError> {
                self.defs
                    .borrow()
                    .get(handle(b))
                    .cloned()
                    .ok_or_else(|| DbError::Serialization("unknown definition".to_string()))
            },
            encode_def: move |d: &TableDef| -> Result<Vec<u8>, DbError> {
                let mut defs = self.defs.borrow_mut();
                defs.push(d.clone());
                Ok(handle_bytes(defs.len() - 1))
            },
            decode_item: move |b: &[u8]| -> Result<Item, DbError> {
                self.items
                    .borrow()
                    .get(handle(b))
                    .map(|i| i.duplicate())
                    .ok_or_else(|| DbError::Serialization("unknown item".to_string()))
            },
            encode_item: move |i: &Item| -> Result<Vec<u8>, DbError> {
                let mut items = self.items.borrow_mut();
                items.push(i.duplicate());
                Ok(handle_bytes(items.len() - 1))
            },
        }
    }
}

fn vals(pairs: &[(&str, AttributeValue)]) -> AttrMap<AttributeValue> {
    let mut m = AttrMap::new();
    for (k, v) in pairs {
        m.insert(k.to_string(), v.duplicate());
    }
    m
}

fn names_of(pairs: &[(&str, &str)]) -> AttrMap<String> {
    let mut m = AttrMap::new();
    for (k, v) in pairs {
        m.insert(k.to_string(), v.to_string());
    }
    m
}

// The operations on the in-memory engine, with its stored forms.
use loom_core::application::usecases::{
    ConditionInput, ExprInput, KeyConditionInput, KeyRef, Page, ProjectionInput, QueryOptions,
    ScanOptions, TableStats, TransactWriteOp, UpdateInput, FORMAT_VERSION,
};
use loom_core::domain::IndexDef;

fn create_table(e: &InMemoryStorage, def: &TableDef) -> Result<(), DbError> {
    uc::create_table(e, def, &e.codec().encode_def)
}

fn delete_table(e: &InMemoryStorage, name: &str) -> Result<(), DbError> {
    uc::delete_table(e, name, &e.codec().decode_def)
}

fn describe_table(e: &InMemoryStorage, name: &str) -> Result<TableDef, DbError> {
    uc::describe_table(e, name, &e.codec().decode_def)
}

fn list_tables(e: &InMemoryStorage) -> Result<Vec<String>, DbError> {
    uc::list_tables(e)
}

fn stats(e: &InMemoryStorage, table: &str) -> Result<TableStats, DbError> {
    uc::stats(e, table, &e.codec().decode_def)
}

fn ensure_format(e: &InMemoryStorage) -> Result<u64, DbError> {
    uc::ensure_format(e)
}

fn put_item(
    e: &InMemoryStorage,
    table: &str,
    item: &Item,
    condition: Option<&ConditionInput>,
) -> Result<(), DbError> {
    uc::put_item(e, table, item, condition, &e.codec())
}

fn get_item_projected(
    e: &InMemoryStorage,
    table: &str,
    pk: &AttributeValue,
    sk: Option<&AttributeValue>,
    projection: Option<&ProjectionInput>,
) -> Result<Option<Item>, DbError> {
    match uc::get_item(e, table, pk, sk, &e.codec())? {
        Some(item) => Ok(Some(uc::project_item(item, projection)?)),
        None => Ok(None),
    }
}

fn delete_item(
    e: &InMemoryStorage,
    table: &str,
    pk: &AttributeValue,
    sk: Option<&AttributeValue>,
    condition: Option<&ConditionInput>,
) -> Result<Option<Item>, DbError> {
    uc::delete_item(e, table, pk, sk, condition, &e.codec())
}

fn update_item(
    e: &InMemoryStorage,
    table: &str,
    pk: &AttributeValue,
    sk: Option<&AttributeValue>,
    update: &UpdateInput,
    condition: Option<&ConditionInput>,
) -> Result<Item, DbError> {
    uc::update_item(e, table, pk, sk, update, condition, &e.codec())
}

fn query(
    e: &InMemoryStorage,
    table: &str,
    key_condition: &KeyConditionInput,
    opts: &QueryOptions,
) -> Result<Page, DbError> {
    uc::query(e, table, key_condition, opts, &e.codec())
}

fn scan(e: &InMemoryStorage, table: &str, opts: &ScanOptions) -> Result<Page, DbError> {
    uc::scan(e, table, opts, &e.codec())
}

fn sweep_expired(e: &InMemoryStorage, table: &str, budget: usize) -> Result<usize, DbError> {
    uc::sweep_expired(e, table, budget, &e.codec())
}

fn transact_get(e: &InMemoryStorage, keys: &[KeyRef]) -> Result<Vec<Option<Item>>, DbError> {
    uc::transact_get(e, keys, &e.codec())
}

fn batch_get(e: &InMemoryStorage, keys: &[KeyRef]) -> Result<Vec<Option<Item>>, DbError> {
    uc::batch_get(e, keys, &e.codec())
}

fn batch_write(
    e: &InMemoryStorage,
    puts: &[(String, Item)],
    deletes: &[KeyRef],
) -> Result<(), DbError> {
    uc::batch_write(e, puts, deletes, &e.codec())
}

fn transact_write(e: &InMemoryStorage, ops: &[TransactWriteOp]) -> Result<(), DbError> {
    uc::transact_write(e, ops, &e.codec())
}

fn update_table(
    e: &InMemoryStorage,
    table: &str,
    add: &[IndexDef],
    remove: &[String],
) -> Result<(), DbError> {
    uc::update_table(e, table, add, remove, &e.codec())
}

fn get_item(
    e: &InMemoryStorage,
    table: &str,
    pk: &AttributeValue,
    sk: Option<&AttributeValue>,
) -> Result<Option<Item>, DbError> {
    uc::get_item(e, table, pk, sk, &e.codec())
}


use loom_core::domain::{KeySchema, Number, Projection};

fn s(v: &str) -> AttributeValue {
    AttributeValue::S(v.into())
}
fn n(v: i64) -> AttributeValue {
    AttributeValue::N(Number(v.to_string()))
}

fn engine() -> InMemoryStorage {
    let e = InMemoryStorage::new();
    e.set_now(1000);
    create_table(
        &e,
        &TableDef {
            name: "events".into(),
            key: KeySchema {
                pk: "id".into(),
                sk: None,
            },
            indexes: vec![IndexDef {
                name: "byStatus".into(),
                key: KeySchema {
                    pk: "status".into(),
                    sk: None,
                },
                projection: Projection::KeysOnly,
            }],
            ttl_attr: Some("expiresAt".into()),
        },
    )
    .expect("create");
    e
}

fn ev(id: &str, expires_at: Option<i64>) -> Item {
    let mut it = Item::new();
    it.insert("id".into(), s(id));
    it.insert("status".into(), s("open"));
    if let Some(t) = expires_at {
        it.insert("expiresAt".into(), n(t));
    }
    it
}

#[test]
fn get_hides_expired_items() {
    let e = engine();
    put_item(&e, "events", &ev("a", Some(1500)), None).expect("put");
    put_item(&e, "events", &ev("forever", None), None).expect("put");

    e.set_now(1499);
    assert!(get_item(&e, "events", &s("a"), None)
        .expect("get")
        .is_some());

    e.set_now(1500);
    assert!(get_item(&e, "events", &s("a"), None)
        .expect("get")
        .is_none());
    assert!(get_item(&e, "events", &s("forever"), None)
        .expect("get")
        .is_some());
}

#[test]
fn non_numeric_ttl_is_ignored() {
    let e = engine();
    let mut it = ev("weird", None);
    it.insert("expiresAt".into(), s("not-a-number"));
    put_item(&e, "events", &it, None).expect("put");
    e.set_now(999_999);
    assert!(get_item(&e, "events", &s("weird"), None)
        .expect("get")
        .is_some());
}

#[test]
fn query_and_scan_hide_expired() {
    let e = engine();
    put_item(&e, "events", &ev("a", Some(1200)), None).expect("put");
    put_item(&e, "events", &ev("b", None), None).expect("put");
    put_item(&e, "events", &ev("c", None), None).expect("put");
    e.set_now(2000);

    let page = scan(&e, "events", &ScanOptions::default()).expect("scan");
    let ids: Vec<&AttributeValue> = page.items.iter().filter_map(|i| i.get("id")).collect();
    assert_eq!(ids, [&s("b"), &s("c")]);

    let page = scan(
        &e,
        "events",
        &ScanOptions {
            limit: Some(2),
            ..ScanOptions::default()
        },
    )
    .expect("scan");
    assert_eq!(page.items.len(), 2);

    let page = query(
        &e,
        "events",
        &KeyConditionInput {
            expression: "status = :st".into(),
            names: AttrMap::new(),
            values: vals(&[(":st", s("open"))]),
        },
        &QueryOptions {
            index: Some("byStatus".into()),
            ..QueryOptions::default()
        },
    )
    .expect("query");
    assert_eq!(page.items.len(), 2);
}

#[test]
fn transact_get_hides_expired() {
    let e = engine();
    put_item(&e, "events", &ev("a", Some(1200)), None).expect("put");
    e.set_now(2000);
    let got = transact_get(
        &e,
        &[KeyRef {
            table: "events".into(),
            pk: s("a"),
            sk: None,
        }],
    )
    .expect("transact_get");
    assert_eq!(got, vec![None]);
}

#[test]
fn sweep_deletes_up_to_budget() {
    let e = engine();
    put_item(&e, "events", &ev("x1", Some(1100)), None).expect("put");
    put_item(&e, "events", &ev("x2", Some(1100)), None).expect("put");
    put_item(&e, "events", &ev("live", Some(9999)), None).expect("put");
    e.set_now(2000);

    assert_eq!(sweep_expired(&e, "events", 1).expect("sweep"), 1);
    assert_eq!(sweep_expired(&e, "events", 10).expect("sweep"), 1);
    assert_eq!(sweep_expired(&e, "events", 10).expect("sweep"), 0);

    assert!(get_item(&e, "events", &s("live"), None)
        .expect("get")
        .is_some());
    e.set_now(1000);
    let page = query(
        &e,
        "events",
        &KeyConditionInput {
            expression: "status = :st".into(),
            names: AttrMap::new(),
            values: vals(&[(":st", s("open"))]),
        },
        &QueryOptions {
            index: Some("byStatus".into()),
            ..QueryOptions::default()
        },
    )
    .expect("query");
    let ids: Vec<&AttributeValue> = page.items.iter().filter_map(|i| i.get("id")).collect();
    assert_eq!(ids, [&s("live")]);
}

#[test]
fn sweep_on_table_without_ttl_is_noop() {
    let e = InMemoryStorage::new();
    create_table(
        &e,
        &TableDef {
            name: "plain".into(),
            key: KeySchema {
                pk: "id".into(),
                sk: None,
            },
            indexes: vec![],
            ttl_attr: None,
        },
    )
    .expect("create");
    put_item(&e, "plain", &ev("a", Some(1)), None).expect("put");
    e.set_now(999_999);
    assert_eq!(sweep_expired(&e, "plain", 10).expect("sweep"), 0);
    assert!(get_item(&e, "plain", &s("a"), None).expect("get").is_some());
}
