//! Operations on the store as a whole: the format version, statistics and compaction.
#![allow(dead_code)]

// In-memory engine for the tests: tables in a BTreeMap, a write
// transaction works on a copy that `commit` puts back, a clock that the
// test sets. Definitions and items are kept by handle: their stored form is
// the index of a copy.
use loom_core::application::usecases as uc;
use loom_core::application::usecases::Codec;
use loom_core::domain::{AttrMap, AttributeValue, DbError, Item, TableDef};
use loom_core::ports::{Clock, KvEntries, ReadTxn, StorageEngine, WriteTxn};
use std::cell::{Cell, RefCell};
use std::collections::BTreeMap;

type Tables = BTreeMap<(String, Vec<u8>), Vec<u8>>;

struct FixedClock {
    now: Cell<i64>,
}

impl Clock for FixedClock {
    fn now_epoch(&self) -> i64 {
        self.now.get()
    }
}

struct InMemoryStorage {
    data: RefCell<Tables>,
    clock: FixedClock,
    defs: RefCell<Vec<TableDef>>,
    items: RefCell<Vec<Item>>,
}

struct MemWrite<'a> {
    store: &'a InMemoryStorage,
    view: Tables,
}

struct MemRead {
    view: Tables,
}

fn scan_view(view: &Tables, table: &str, prefix: &[u8]) -> KvEntries {
    view.iter()
        .filter(|((t, k), _)| t == table && k.starts_with(prefix))
        .map(|((_, k), v)| (k.clone(), v.clone()))
        .collect()
}

impl<'a> WriteTxn for MemWrite<'a> {
    fn get(&self, table: &str, key: &[u8]) -> Result<Option<Vec<u8>>, DbError> {
        Ok(self.view.get(&(table.to_string(), key.to_vec())).cloned())
    }
    fn put(&mut self, table: &str, key: &[u8], value: &[u8]) -> Result<(), DbError> {
        self.view.insert((table.to_string(), key.to_vec()), value.to_vec());
        Ok(())
    }
    fn delete(&mut self, table: &str, key: &[u8]) -> Result<(), DbError> {
        self.view.remove(&(table.to_string(), key.to_vec()));
        Ok(())
    }
    fn scan_prefix(&self, table: &str, prefix: &[u8]) -> Result<KvEntries, DbError> {
        Ok(scan_view(&self.view, table, prefix))
    }
    fn commit(self) -> Result<(), DbError> {
        *self.store.data.borrow_mut() = self.view;
        Ok(())
    }
}

impl ReadTxn for MemRead {
    fn get(&self, table: &str, key: &[u8]) -> Result<Option<Vec<u8>>, DbError> {
        Ok(self.view.get(&(table.to_string(), key.to_vec())).cloned())
    }
    fn scan_prefix(&self, table: &str, prefix: &[u8]) -> Result<KvEntries, DbError> {
        Ok(scan_view(&self.view, table, prefix))
    }
}

impl StorageEngine for InMemoryStorage {
    type Write<'a> = MemWrite<'a> where Self: 'a;
    type Read<'a> = MemRead where Self: 'a;
    type Time = FixedClock;

    fn begin_write(&self) -> Result<MemWrite<'_>, DbError> {
        Ok(MemWrite { store: self, view: self.data.borrow().clone() })
    }
    fn begin_read(&self) -> Result<MemRead, DbError> {
        Ok(MemRead { view: self.data.borrow().clone() })
    }
    fn clock(&self) -> &FixedClock {
        &self.clock
    }
    fn storage_bytes(&self) -> Result<u64, DbError> {
        Ok(self.data.borrow().iter().map(|((t, k), v)| (t.len() + k.len() + v.len()) as u64).sum())
    }
}

fn handle(b: &[u8]) -> usize {
    let mut a = [0u8; 8];
    if b.len() == 8 {
        a.copy_from_slice(b);
        u64::from_be_bytes(a) as usize
    } else {
        usize::MAX
    }
}

fn handle_bytes(i: usize) -> Vec<u8> {
    (i as u64).to_be_bytes().to_vec()
}

impl InMemoryStorage {
    fn new() -> Self {
        InMemoryStorage {
            data: RefCell::new(BTreeMap::new()),
            clock: FixedClock { now: Cell::new(0) },
            defs: RefCell::new(Vec::new()),
            items: RefCell::new(Vec::new()),
        }
    }

    fn set_now(&self, t: i64) {
        self.clock.now.set(t);
    }

    fn codec(
        &self,
    ) -> Codec<
        impl Fn(&[u8]) -> Result<TableDef, DbError> + '_,
        impl Fn(&TableDef) -> Result<Vec<u8>, DbError> + '_,
        impl Fn(&[u8]) -> Result<Item, DbError> + '_,
        impl Fn(&Item) -> Result<Vec<u8>, DbError> + '_,
    > {
        Codec {
            decode_def: move |b: &[u8]| -> Result<TableDef, DbError> {
                self.defs
                    .borrow()
                    .get(handle(b))
                    .cloned()
                    .ok_or_else(|| DbError::Serialization("unknown definition".to_string()))
            },
            encode_def: move |d: &TableDef| -> Result<Vec<u8>, DbError> {
                let mut defs = self.defs.borrow_mut();
                defs.push(d.clone());
                Ok(handle_bytes(defs.len() - 1))
            },
            decode_item: move |b: &[u8]| -> Result<Item, DbError> {
                self.items
                    .borrow()
                    .get(handle(b))
                    .map(|i| i.duplicate())
                    .ok_or_else(|| DbError::Serialization("unknown item".to_string()))
            },
            encode_item: move |i: &Item| -> Result<Vec<u8>, DbError> {
                let mut items = self.items.borrow_mut();
                items.push(i.duplicate());
                Ok(handle_bytes(items.len() - 1))
            },
        }
    }
}

fn vals(pairs: &[(&str, AttributeValue)]) -> AttrMap<AttributeValue> {
    let mut m = AttrMap::new();
    for (k, v) in pairs {
        m.insert(k.to_string(), v.duplicate());
    }
    m
}

fn names_of(pairs: &[(&str, &str)]) -> AttrMap<String> {
    let mut m = AttrMap::new();
    for (k, v) in pairs {
        m.insert(k.to_string(), v.to_string());
    }
    m
}

// The operations on the in-memory engine, with its stored forms.
use loom_core::application::usecases::{
    ConditionInput, ExprInput, KeyConditionInput, KeyRef, Page, ProjectionInput, QueryOptions,
    ScanOptions, TableStats, TransactWriteOp, UpdateInput, FORMAT_VERSION,
};
use loom_core::domain::IndexDef;

fn create_table(e: &InMemoryStorage, def: &TableDef) -> Result<(), DbError> {
    uc::create_table(e, def, &e.codec().encode_def)
}

fn delete_table(e: &InMemoryStorage, name: &str) -> Result<(), DbError> {
    uc::delete_table(e, name, &e.codec().decode_def)
}

fn describe_table(e: &InMemoryStorage, name: &str) -> Result<TableDef, DbError> {
    uc::describe_table(e, name, &e.codec().decode_def)
}

fn list_tables(e: &InMemoryStorage) -> Result<Vec<String>, DbError> {
    uc::list_tables(e)
}

fn stats(e: &InMemoryStorage, table: &str) -> Result<TableStats, DbError> {
    uc::stats(e, table, &e.codec().decode_def)
}

fn ensure_format(e: &InMemoryStorage) -> Result<u64, DbError> {
    uc::ensure_format(e)
}

fn put_item(
    e: &InMemoryStorage,
    table: &str,
    item: &Item,
    condition: Option<&ConditionInput>,
) -> Result<(), DbError> {
    uc::put_item(e, table, item, condition, &e.codec())
}

fn get_item_projected(
    e: &InMemoryStorage,
    table: &str,
    pk: &AttributeValue,
    sk: Option<&AttributeValue>,
    projection: Option<&ProjectionInput>,
) -> Result<Option<Item>, DbError> {
    match uc::get_item(e, table, pk, sk, &e.codec())? {
        Some(item) => Ok(Some(uc::project_item(item, projection)?)),
        None => Ok(None),
    }
}

fn delete_item(
    e: &InMemoryStorage,
    table: &str,
    pk: &AttributeValue,
    sk: Option<&AttributeValue>,
    condition: Option<&ConditionInput>,
) -> Result<Option<Item>, DbError> {
    uc::delete_item(e, table, pk, sk, condition, &e.codec())
}

fn update_item(
    e: &InMemoryStorage,
    table: &str,
    pk: &AttributeValue,
    sk: Option<&AttributeValue>,
    update: &UpdateInput,
    condition: Option<&ConditionInput>,
) -> Result<Item, DbError> {
    uc::update_item(e, table, pk, sk, update, condition, &e.codec())
}

fn query(
    e: &InMemoryStorage,
    table: &str,
    key_condition: &KeyConditionInput,
    opts: &QueryOptions,
) -> Result<Page, DbError> {
    uc::query(e, table, key_condition, opts, &e.codec())
}

fn scan(e: &InMemoryStorage, table: &str, opts: &ScanOptions) -> Result<Page, DbError> {
    uc::scan(e, table, opts, &e.codec())
}

fn sweep_expired(e: &InMemoryStorage, table: &str, budget: usize) -> Result<usize, DbError> {
    uc::sweep_expired(e, table, budget, &e.codec())
}

fn transact_get(e: &InMemoryStorage, keys: &[KeyRef]) -> Result<Vec<Option<Item>>, DbError> {
    uc::transact_get(e, keys, &e.codec())
}

fn batch_get(e: &InMemoryStorage, keys: &[KeyRef]) -> Result<Vec<Option<Item>>, DbError> {
    uc::batch_get(e, keys, &e.codec())
}

fn batch_write(
    e: &InMemoryStorage,
    puts: &[(String, Item)],
    deletes: &[KeyRef],
) -> Result<(), DbError> {
    uc::batch_write(e, puts, deletes, &e.codec())
}

fn transact_write(e: &InMemoryStorage, ops: &[TransactWriteOp]) -> Result<(), DbError> {
    uc::transact_write(e, ops, &e.codec())
}

fn update_table(
    e: &InMemoryStorage,
    table: &str,
    add: &[IndexDef],
    remove: &[String],
) -> Result<(), DbError> {
    uc::update_table(e, table, add, remove, &e.codec())
}

fn get_item(
    e: &InMemoryStorage,
    table: &str,
    pk: &AttributeValue,
    sk: Option<&AttributeValue>,
) -> Result<Option<Item>, DbError> {
    uc::get_item(e, table, pk, sk, &e.codec())
}


use loom_core::application::meta::META_TABLE;
use loom_core::domain::{KeySchema, Number};

fn s(v: &str) -> AttributeValue {
    AttributeValue::S(v.into())
}
fn n(v: i64) -> AttributeValue {
    AttributeValue::N(Number(v.to_string()))
}

fn doc(id: &str) -> Item {
    let mut it = Item::new();
    it.insert("id".into(), s(id));
    it.insert("v".into(), n(1));
    it
}

fn docs_table(ttl: Option<&str>) -> TableDef {
    TableDef {
        name: "docs".into(),
        key: KeySchema {
            pk: "id".into(),
            sk: None,
        },
        indexes: vec![],
        ttl_attr: ttl.map(|a| a.to_string()),
    }
}

#[test]
fn ensure_format_records_and_rejects_unknown_versions() {
    let e = InMemoryStorage::new();
    assert_eq!(ensure_format(&e).expect("first"), FORMAT_VERSION);
    assert_eq!(ensure_format(&e).expect("second"), FORMAT_VERSION);

    let mut txn = e.begin_write().expect("txn");
    txn.put(META_TABLE, b"format_version", &99u64.to_be_bytes())
        .expect("tamper");
    txn.commit().expect("commit");
    let r = ensure_format(&e);
    assert!(matches!(r, Err(DbError::Validation(_))), "got {r:?}");
}

#[test]
fn stats_item_count_tracks_writes() {
    let e = InMemoryStorage::new();
    create_table(&e, &docs_table(None)).expect("create");
    assert_eq!(stats(&e, "docs").expect("stats").item_count, 0);

    put_item(&e, "docs", &doc("a"), None).expect("put a");
    put_item(&e, "docs", &doc("b"), None).expect("put b");
    put_item(&e, "docs", &doc("a"), None).expect("overwrite a");
    assert_eq!(stats(&e, "docs").expect("stats").item_count, 2);

    let upd = ExprInput {
        expression: "SET v = :v".into(),
        names: AttrMap::new(),
        values: vals(&[(":v", n(9))]),
    };
    update_item(&e, "docs", &s("c"), None, &upd, None).expect("upsert c");
    update_item(&e, "docs", &s("a"), None, &upd, None).expect("update a");
    assert_eq!(stats(&e, "docs").expect("stats").item_count, 3);

    delete_item(&e, "docs", &s("b"), None, None).expect("delete b");
    delete_item(&e, "docs", &s("ghost"), None, None).expect("delete ghost");
    assert_eq!(stats(&e, "docs").expect("stats").item_count, 2);

    assert!(stats(&e, "docs").expect("stats").storage_bytes > 0);

    assert!(matches!(
        stats(&e, "ghost"),
        Err(DbError::ResourceNotFound(_))
    ));
}

#[test]
fn stats_item_count_survives_transact_batch_sweep() {
    let e = InMemoryStorage::new();
    create_table(&e, &docs_table(Some("ttl"))).expect("create");
    put_item(&e, "docs", &doc("a"), None).expect("put");

    transact_write(
        &e,
        &[
            TransactWriteOp::Put {
                table: "docs".into(),
                item: doc("t1"),
                condition: None,
            },
            TransactWriteOp::Update {
                table: "docs".into(),
                pk: s("t2"),
                sk: None,
                update: ExprInput {
                    expression: "SET v = :v".into(),
                    names: AttrMap::new(),
                    values: vals(&[(":v", n(1))]),
                },
                condition: None,
            },
            TransactWriteOp::Delete {
                table: "docs".into(),
                pk: s("a"),
                sk: None,
                condition: None,
            },
        ],
    )
    .expect("transact");
    assert_eq!(stats(&e, "docs").expect("stats").item_count, 2); // +2 -1

    let r = transact_write(
        &e,
        &[
            TransactWriteOp::Put {
                table: "docs".into(),
                item: doc("t3"),
                condition: None,
            },
            TransactWriteOp::ConditionCheck {
                table: "docs".into(),
                pk: s("t1"),
                sk: None,
                condition: ExprInput {
                    expression: "v = :bad".into(),
                    names: AttrMap::new(),
                    values: vals(&[(":bad", n(-1))]),
                },
            },
        ],
    );
    assert!(r.is_err());
    assert_eq!(stats(&e, "docs").expect("stats").item_count, 2);

    batch_write(
        &e,
        &[
            ("docs".to_string(), doc("b1")),
            ("docs".to_string(), doc("b2")),
        ],
        &[KeyRef {
            table: "docs".into(),
            pk: s("t1"),
            sk: None,
        }],
    )
    .expect("batch");
    assert_eq!(stats(&e, "docs").expect("stats").item_count, 3);

    e.set_now(1_000);
    let mut expired = doc("x");
    expired.insert("ttl".into(), n(500));
    put_item(&e, "docs", &expired, None).expect("put expired");
    assert_eq!(stats(&e, "docs").expect("stats").item_count, 4);
    assert_eq!(sweep_expired(&e, "docs", 10).expect("sweep"), 1);
    assert_eq!(stats(&e, "docs").expect("stats").item_count, 3);

    delete_table(&e, "docs").expect("drop");
    create_table(&e, &docs_table(None)).expect("recreate");
    assert_eq!(stats(&e, "docs").expect("stats").item_count, 0);
}

#[test]
fn compact_is_false_on_unsupported_engines() {
    let mut e = InMemoryStorage::new();
    assert!(!e.compact().expect("compact"));
}
