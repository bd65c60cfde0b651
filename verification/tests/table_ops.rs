//! Table operations: create, describe, list and delete.
#![allow(dead_code)]

// In-memory engine for the tests: tables in a BTreeMap, a write
// transaction works on a copy that `commit` puts back, a clock that the
// test sets. Definitions and items are kept by handle: their stored form is
// the index of a copy.
use loom_core::application::usecases as uc;
use loom_core::application::usecases::Codec;
use loom_core::domain::{AttrMap, AttributeValue, DbError, Item, TableDef};
use loom_core::ports::{Clock, KvEntries, ReadTxn, StorageEngine, WriteTxn};
use std::cell::{Cell, RefCell};
use std::collections::BTreeMap;

type Tables = BTreeMap<(String, Vec<u8>), Vec<u8>>;

struct FixedClock {
    now: Cell<i64>,
}

impl Clock for FixedClock {
    fn now_epoch(&self) -> i64 {
        self.now.get()
    }
}

struct InMemoryStorage {
    data: RefCell<Tables>,
    clock: FixedClock,
    defs: RefCell<Vec<TableDef>>,
    items: RefCell<Vec<Item>>,
}

struct MemWrite<'a> {
    store: &'a InMemoryStorage,
    view: Tables,
}

struct MemRead {
    view: Tables,
}

fn scan_view(view: &Tables, table: &str, prefix: &[u8]) -> KvEntries {
    view.iter()
        .filter(|((t, k), _)| t == table && k.starts_with(prefix))
        .map(|((_, k), v)| (k.clone(), v.clone()))
        .collect()
}

impl<'a> WriteTxn for MemWrite<'a> {
    fn get(&self, table: &str, key: &[u8]) -> Result<Option<Vec<u8>>, DbError> {
        Ok(self.view.get(&(table.to_string(), key.to_vec())).cloned())
    }
    fn put(&mut self, table: &str, key: &[u8], value: &[u8]) -> Result<(), DbError> {
        self.view.insert((table.to_string(), key.to_vec()), value.to_vec());
        Ok(())
    }
    fn delete(&mut self, table: &str, key: &[u8]) -> Result<(), DbError> {
        self.view.remove(&(table.to_string(), key.to_vec()));
        Ok(())
    }
    fn scan_prefix(&self, table: &str, prefix: &[u8]) -> Result<KvEntries, DbError> {
        Ok(scan_view(&self.view, table, prefix))
    }
    fn commit(self) -> Result<(), DbError> {
        *self.store.data.borrow_mut() = self.view;
        Ok(())
    }
}

impl ReadTxn for MemRead {
    fn get(&self, table: &str, key: &[u8]) -> Result<Option<Vec<u8>>, DbError> {
        Ok(self.view.get(&(table.to_string(), key.to_vec())).cloned())
    }
    fn scan_prefix(&self, table: &str, prefix: &[u8]) -> Result<KvEntries, DbError> {
        Ok(scan_view(&self.view, table, prefix))
    }
}

impl StorageEngine for InMemoryStorage {
    type Write<'a> = MemWrite<'a> where Self: 'a;
    type Read<'a> = MemRead where Self: 'a;
    type Time = FixedClock;

    fn begin_write(&self) -> Result<MemWrite<'_>, DbError> {
        Ok(MemWrite { store: self, view: self.data.borrow().clone() })
    }
    fn begin_read(&self) -> Result<MemRead, DbError> {
        Ok(MemRead { view: self.data.borrow().clone() })
    }
    fn clock(&self) -> &FixedClock {
        &self.clock
    }
    fn storage_bytes(&self) -> Result<u64, DbError> {
        Ok(self.data.borrow().iter().map(|((t, k), v)| (t.len() + k.len() + v.len()) as u64).sum())
    }
}

fn handle(b: &[u8]) -> usize {
    let mut a = [0u8; 8];
    if b.len() == 8 {
        a.copy_from_slice(b);
        u64::from_be_bytes(a) as usize
    } else {
        usize::MAX
    }
}

fn handle_bytes(i: usize) -> Vec<u8> {
    (i as u64).to_be_bytes().to_vec()
}

impl InMemoryStorage {
    fn new() -> Self {
        InMemoryStorage {
            data: RefCell::new(BTreeMap::new()),
            clock: FixedClock { now: Cell::new(0) },
            defs: RefCell::new(Vec::new()),
            items: RefCell::new(Vec::new()),
        }
    }

    fn set_now(&self, t: i64) {
        self.clock.now.set(t);
    }

    fn codec(
        &self,
    ) -> Codec<
        impl Fn(&[u8]) -> Result<TableDef, DbError> + '_,
        impl Fn(&TableDef) -> Result<Vec<u8>, DbError> + '_,
        impl Fn(&[u8]) -> Result<Item, DbError> + '_,
        impl Fn(&Item) -> Result<Vec<u8>, DbError> + '_,
    > {
        Codec {
            decode_def: move |b: &[u8]| -> Result<TableDef, DbError> {
                self.defs
                    .borrow()
                    .get(handle(b))
                    .cloned()
                    .ok_or_else(|| DbError::Serialization("unknown definition".to_string()))
            },
            encode_def: move |d: &TableDef| -> Result<Vec<u8>, DbError> {
                let mut defs = self.defs.borrow_mut();
                defs.push(d.clone());
                Ok(handle_bytes(defs.len() - 1))
            },
            decode_item: move |b: &[u8]| -> Result<Item, DbError> {
                self.items
                    .borrow()
                    .get(handle(b))
                    .map(|i| i.duplicate())
                    .ok_or_else(|| DbError::Serialization("unknown item".to_string()))
            },
            encode_item: move |i: &Item| -> Result<Vec<u8>, DbError> {
                let mut items = self.items.borrow_mut();
                items.push(i.duplicate());
                Ok(handle_bytes(items.len() - 1))
            },
        }
    }
}

fn vals(pairs: &[(&str, AttributeValue)]) -> AttrMap<AttributeValue> {
    let mut m = AttrMap::new();
    for (k, v) in pairs {
        m.insert(k.to_string(), v.duplicate());
    }
    m
}

fn names_of(pairs: &[(&str, &str)]) -> AttrMap<String> {
    let mut m = AttrMap::new();
    for (k, v) in pairs {
        m.insert(k.to_string(), v.to_string());
    }
    m
}

// The operations on the in-memory engine, with its stored forms.
use loom_core::application::usecases::{
    ConditionInput, ExprInput, KeyConditionInput, KeyRef, Page, ProjectionInput, QueryOptions,
    ScanOptions, TableStats, TransactWriteOp, UpdateInput, FORMAT_VERSION,
};
use loom_core::domain::IndexDef;

fn create_table(e: &InMemoryStorage, def: &TableDef) -> Result<(), DbError> {
    uc::create_table(e, def, &e.codec().encode_def)
}

fn delete_table(e: &InMemoryStorage, name: &str) -> Result<(), DbError> {
    uc::delete_table(e, name, &e.codec().decode_def)
}

fn describe_table(e: &InMemoryStorage, name: &str) -> Result<TableDef, DbError> {
    uc::describe_table(e, name, &e.codec().decode_def)
}

fn list_tables(e: &InMemoryStorage) -> Result<Vec<String>, DbError> {
    uc::list_tables(e)
}

fn stats(e: &InMemoryStorage, table: &str) -> Result<TableStats, DbError> {
    uc::stats(e, table, &e.codec().decode_def)
}

fn ensure_format(e: &InMemoryStorage) -> Result<u64, DbError> {
    uc::ensure_format(e)
}

fn put_item(
    e: &InMemoryStorage,
    table: &str,
    item: &Item,
    condition: Option<&ConditionInput>,
) -> Result<(), DbError> {
    uc::put_item(e, table, item, condition, &e.codec())
}

fn get_item_projected(
    e: &InMemoryStorage,
    table: &str,
    pk: &AttributeValue,
    sk: Option<&AttributeValue>,
    projection: Option<&ProjectionInput>,
) -> Result<Option<Item>, DbError> {
    match uc::get_item(e, table, pk, sk, &e.codec())? {
        Some(item) => Ok(Some(uc::project_item(item, projection)?)),
        None => Ok(None),
    }
}

fn delete_item(
    e: &InMemoryStorage,
    table: &str,
    pk: &AttributeValue,
    sk: Option<&AttributeValue>,
    condition: Option<&ConditionInput>,
) -> Result<Option<Item>, DbError> {
    uc::delete_item(e, table, pk, sk, condition, &e.codec())
}

fn update_item(
    e: &InMemoryStorage,
    table: &str,
    pk: &AttributeValue,
    sk: Option<&AttributeValue>,
    update: &UpdateInput,
    condition: Option<&ConditionInput>,
) -> Result<Item, DbError> {
    uc::update_item(e, table, pk, sk, update, condition, &e.codec())
}

fn query(
    e: &InMemoryStorage,
    table: &str,
    key_condition: &KeyConditionInput,
    opts: &QueryOptions,
) -> Result<Page, DbError> {
    uc::query(e, table, key_condition, opts, &e.codec())
}

fn scan(e: &InMemoryStorage, table: &str, opts: &ScanOptions) -> Result<Page, DbError> {
    uc::scan(e, table, opts, &e.codec())
}

fn sweep_expired(e: &InMemoryStorage, table: &str, budget: usize) -> Result<usize, DbError> {
    uc::sweep_expired(e, table, budget, &e.codec())
}

fn transact_get(e: &InMemoryStorage, keys: &[KeyRef]) -> Result<Vec<Option<Item>>, DbError> {
    uc::transact_get(e, keys, &e.codec())
}

fn batch_get(e: &InMemoryStorage, keys: &[KeyRef]) -> Result<Vec<Option<Item>>, DbError> {
    uc::batch_get(e, keys, &e.codec())
}

fn batch_write(
    e: &InMemoryStorage,
    puts: &[(String, Item)],
    deletes: &[KeyRef],
) -> Result<(), DbError> {
    uc::batch_write(e, puts, deletes, &e.codec())
}

fn transact_write(e: &InMemoryStorage, ops: &[TransactWriteOp]) -> Result<(), DbError> {
    uc::transact_write(e, ops, &e.codec())
}

fn update_table(
    e: &InMemoryStorage,
    table: &str,
    add: &[IndexDef],
    remove: &[String],
) -> Result<(), DbError> {
    uc::update_table(e, table, add, remove, &e.codec())
}

fn get_item(
    e: &InMemoryStorage,
    table: &str,
    pk: &AttributeValue,
    sk: Option<&AttributeValue>,
) -> Result<Option<Item>, DbError> {
    uc::get_item(e, table, pk, sk, &e.codec())
}


use loom_core::domain::{KeySchema};

fn s(v: &str) -> AttributeValue {
    AttributeValue::S(v.to_string())
}

fn def(name: &str) -> TableDef {
    TableDef {
        name: name.into(),
        key: KeySchema {
            pk: "id".into(),
            sk: None,
        },
        indexes: vec![],
        ttl_attr: None,
    }
}

fn item(id: &str) -> Item {
    let mut it = Item::new();
    it.insert("id".into(), s(id));
    it
}

#[test]
fn create_then_describe_round_trips() {
    let engine = InMemoryStorage::new();
    let d = def("orders");
    create_table(&engine, &d).expect("create_table");
    let got = describe_table(&engine, "orders").expect("describe_table");
    assert_eq!(got, d);
}

#[test]
fn create_duplicate_is_resource_in_use() {
    let engine = InMemoryStorage::new();
    create_table(&engine, &def("orders")).expect("create");
    let err = create_table(&engine, &def("orders")).expect_err("duplicate must fail");
    assert!(
        matches!(err, DbError::ResourceInUse(_)),
        "expected ResourceInUse, got {err:?}"
    );
}

#[test]
fn describe_missing_is_resource_not_found() {
    let engine = InMemoryStorage::new();
    let err = describe_table(&engine, "ghost").expect_err("must fail");
    assert!(
        matches!(err, DbError::ResourceNotFound(_)),
        "expected ResourceNotFound, got {err:?}"
    );
}

#[test]
fn list_tables_returns_sorted_names() {
    let engine = InMemoryStorage::new();
    for name in ["zebra", "alpha", "middle"] {
        create_table(&engine, &def(name)).expect("create");
    }
    let names = list_tables(&engine).expect("list_tables");
    assert_eq!(names, vec!["alpha", "middle", "zebra"]);
}

#[test]
fn delete_table_removes_definition_and_items() {
    let engine = InMemoryStorage::new();
    create_table(&engine, &def("orders")).expect("create");
    put_item(&engine, "orders", &item("a"), None).expect("put");

    delete_table(&engine, "orders").expect("delete_table");
    assert!(matches!(
        describe_table(&engine, "orders"),
        Err(DbError::ResourceNotFound(_))
    ));

    create_table(&engine, &def("orders")).expect("re-create");
    let got = get_item(&engine, "orders", &s("a"), None).expect("get");
    assert_eq!(got, None, "old items must not resurrect");
}

#[test]
fn delete_missing_table_is_resource_not_found() {
    let engine = InMemoryStorage::new();
    assert!(matches!(
        delete_table(&engine, "ghost"),
        Err(DbError::ResourceNotFound(_))
    ));
}

#[test]
fn invalid_table_names_are_rejected() {
    let engine = InMemoryStorage::new();
    let long = "x".repeat(256);
    for bad in ["", "ab", "bad name", "loom:meta", "日本語", &long] {
        let err = create_table(&engine, &def(bad)).expect_err("must reject");
        assert!(
            matches!(err, DbError::Validation(_)),
            "name {bad:?}: expected Validation, got {err:?}"
        );
    }
    for ok in ["abc", "a-b_c.d"] {
        create_table(&engine, &def(ok)).expect("must accept");
    }
    create_table(&engine, &def(&"y".repeat(255))).expect("must accept 255 chars");
}

#[test]
fn item_ops_on_missing_table_are_resource_not_found() {
    let engine = InMemoryStorage::new();
    assert!(matches!(
        put_item(&engine, "ghost", &item("a"), None),
        Err(DbError::ResourceNotFound(_))
    ));
    assert!(matches!(
        get_item(&engine, "ghost", &s("a"), None),
        Err(DbError::ResourceNotFound(_))
    ));
}

#[test]
fn transaction_level_steps_refuse_without_writing() {
    let e = InMemoryStorage::new();
    let c = e.codec();
    // Creating inside a transaction: a second create of the name is refused.
    let mut txn = e.begin_write().expect("begin");
    uc::create_table::create_in(&mut txn, &def("orders"), &c.encode_def).expect("create");
    assert!(matches!(
        uc::create_table::create_in(&mut txn, &def("orders"), &c.encode_def),
        Err(DbError::ResourceInUse(_))
    ));
    // A put and a read of it in the same transaction.
    uc::put_item::put_in(&mut txn, "orders", &item("a"), None, &c).expect("put");
    let got = uc::delete_item::delete_in(&mut txn, "orders", &s("a"), None, None, &c).expect("delete");
    assert_eq!(got, Some(item("a")));
    // Deleting what is not there writes nothing and returns nothing.
    assert_eq!(uc::delete_item::delete_in(&mut txn, "orders", &s("a"), None, None, &c).expect("noop"), None);
    // An unknown table is not found.
    assert!(matches!(
        uc::put_item::put_in(&mut txn, "ghost", &item("a"), None, &c),
        Err(DbError::ResourceNotFound(_))
    ));
    txn.commit().expect("commit");
    assert_eq!(list_tables(&e).expect("list"), vec!["orders".to_string()]);
    // Deleting the table inside a transaction removes its definition.
    let mut txn = e.begin_write().expect("begin");
    uc::delete_table::delete_table_in(&mut txn, "orders", &c.decode_def).expect("delete table");
    txn.commit().expect("commit");
    assert!(matches!(describe_table(&e, "orders"), Err(DbError::ResourceNotFound(_))));
}
