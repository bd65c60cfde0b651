//! The JSON bridge that the language bindings share: plain JSON objects are
//! items, `values` / `names` are shared by the expressions of a request, and
//! the resume key of a page travels as an opaque hex token.
#![allow(dead_code)]

use loom_core::bridge::value::{json_to_attr, json_to_item, Json};
use loom_core::bridge::{to_hex, Bridge};
// In-memory engine for the tests: tables in a BTreeMap, a write
// transaction works on a copy that `commit` puts back, a clock that the
// test sets. Definitions and items are stored in a small binary form.
use loom_core::application::usecases::Codec;
use loom_core::domain::{AttrMap, AttributeValue, DbError, IndexDef, Item, KeySchema, Number, Projection, TableDef};
use loom_core::ports::{Clock, KvEntries, ReadTxn, StorageEngine, WriteTxn};
use std::cell::{Cell, RefCell};
use std::collections::BTreeMap;

type Tables = BTreeMap<(String, Vec<u8>), Vec<u8>>;

struct FixedClock {
    now: Cell<i64>,
}

impl Clock for FixedClock {
    fn now_epoch(&self) -> i64 {
        self.now.get()
    }
}

struct InMemoryStorage {
    data: RefCell<Tables>,
    clock: FixedClock,
}

struct MemWrite<'a> {
    store: &'a InMemoryStorage,
    view: Tables,
}

struct MemRead {
    view: Tables,
}

fn scan_view(view: &Tables, table: &str, prefix: &[u8]) -> KvEntries {
    view.iter()
        .filter(|((t, k), _)| t == table && k.starts_with(prefix))
        .map(|((_, k), v)| (k.clone(), v.clone()))
        .collect()
}

impl<'a> WriteTxn for MemWrite<'a> {
    fn get(&self, table: &str, key: &[u8]) -> Result<Option<Vec<u8>>, DbError> {
        Ok(self.view.get(&(table.to_string(), key.to_vec())).cloned())
    }
    fn put(&mut self, table: &str, key: &[u8], value: &[u8]) -> Result<(), DbError> {
        self.view.insert((table.to_string(), key.to_vec()), value.to_vec());
        Ok(())
    }
    fn delete(&mut self, table: &str, key: &[u8]) -> Result<(), DbError> {
        self.view.remove(&(table.to_string(), key.to_vec()));
        Ok(())
    }
    fn scan_prefix(&self, table: &str, prefix: &[u8]) -> Result<KvEntries, DbError> {
        Ok(scan_view(&self.view, table, prefix))
    }
    fn commit(self) -> Result<(), DbError> {
        *self.store.data.borrow_mut() = self.view;
        Ok(())
    }
}

impl ReadTxn for MemRead {
    fn get(&self, table: &str, key: &[u8]) -> Result<Option<Vec<u8>>, DbError> {
        Ok(self.view.get(&(table.to_string(), key.to_vec())).cloned())
    }
    fn scan_prefix(&self, table: &str, prefix: &[u8]) -> Result<KvEntries, DbError> {
        Ok(scan_view(&self.view, table, prefix))
    }
}

impl StorageEngine for InMemoryStorage {
    type Write<'a> = MemWrite<'a> where Self: 'a;
    type Read<'a> = MemRead where Self: 'a;
    type Time = FixedClock;

    fn begin_write(&self) -> Result<MemWrite<'_>, DbError> {
        Ok(MemWrite { store: self, view: self.data.borrow().clone() })
    }
    fn begin_read(&self) -> Result<MemRead, DbError> {
        Ok(MemRead { view: self.data.borrow().clone() })
    }
    fn clock(&self) -> &FixedClock {
        &self.clock
    }
    fn storage_bytes(&self) -> Result<u64, DbError> {
        Ok(self.data.borrow().iter().map(|((t, k), v)| (t.len() + k.len() + v.len()) as u64).sum())
    }
}

impl InMemoryStorage {
    fn new() -> Self {
        InMemoryStorage {
            data: RefCell::new(BTreeMap::new()),
            clock: FixedClock { now: Cell::new(0) },
        }
    }

    fn set_now(&self, t: i64) {
        self.clock.now.set(t);
    }
}

fn put_len(out: &mut Vec<u8>, n: usize) {
    out.extend_from_slice(&(n as u32).to_be_bytes());
}

fn put_bytes(out: &mut Vec<u8>, b: &[u8]) {
    put_len(out, b.len());
    out.extend_from_slice(b);
}

fn put_opt(out: &mut Vec<u8>, s: &Option<String>) {
    match s {
        Some(s) => {
            out.push(1);
            put_bytes(out, s.as_bytes());
        }
        None => out.push(0),
    }
}

fn enc_attr(v: &AttributeValue, out: &mut Vec<u8>) {
    match v {
        AttributeValue::S(s) => {
            out.push(0);
            put_bytes(out, s.as_bytes());
        }
        AttributeValue::N(n) => {
            out.push(1);
            put_bytes(out, n.0.as_bytes());
        }
        AttributeValue::B(b) => {
            out.push(2);
            put_bytes(out, b);
        }
        AttributeValue::Bool(b) => {
            out.push(3);
            out.push(*b as u8);
        }
        AttributeValue::Null => out.push(4),
        AttributeValue::M(m) => {
            out.push(5);
            put_len(out, m.entries.len());
            for (k, v) in &m.entries {
                put_bytes(out, k.as_bytes());
                enc_attr(v, out);
            }
        }
        AttributeValue::L(l) => {
            out.push(6);
            put_len(out, l.len());
            for v in l {
                enc_attr(v, out);
            }
        }
        AttributeValue::Ss(v) => {
            out.push(7);
            put_len(out, v.len());
            for s in v {
                put_bytes(out, s.as_bytes());
            }
        }
        AttributeValue::Ns(v) => {
            out.push(8);
            put_len(out, v.len());
            for n in v {
                put_bytes(out, n.0.as_bytes());
            }
        }
        AttributeValue::Bs(v) => {
            out.push(9);
            put_len(out, v.len());
            for b in v {
                put_bytes(out, b);
            }
        }
    }
}

struct Reader<'a> {
    b: &'a [u8],
    at: usize,
}

impl<'a> Reader<'a> {
    fn byte(&mut self) -> u8 {
        self.at += 1;
        self.b[self.at - 1]
    }
    fn len(&mut self) -> usize {
        let mut a = [0u8; 4];
        a.copy_from_slice(&self.b[self.at..self.at + 4]);
        self.at += 4;
        u32::from_be_bytes(a) as usize
    }
    fn bytes(&mut self) -> Vec<u8> {
        let n = self.len();
        self.at += n;
        self.b[self.at - n..self.at].to_vec()
    }
    fn string(&mut self) -> String {
        String::from_utf8(self.bytes()).expect("utf8")
    }
    fn opt(&mut self) -> Option<String> {
        if self.byte() == 1 {
            Some(self.string())
        } else {
            None
        }
    }
    fn attr(&mut self) -> AttributeValue {
        match self.byte() {
            0 => AttributeValue::S(self.string()),
            1 => AttributeValue::N(Number(self.string())),
            2 => AttributeValue::B(self.bytes()),
            3 => AttributeValue::Bool(self.byte() == 1),
            4 => AttributeValue::Null,
            5 => {
                let n = self.len();
                let mut entries = Vec::new();
                for _ in 0..n {
                    let k = self.string();
                    let v = self.attr();
                    entries.push((k, v));
                }
                AttributeValue::M(AttrMap { entries })
            }
            6 => {
                let n = self.len();
                AttributeValue::L((0..n).map(|_| self.attr()).collect())
            }
            7 => {
                let n = self.len();
                AttributeValue::Ss((0..n).map(|_| self.string()).collect())
            }
            8 => {
                let n = self.len();
                AttributeValue::Ns((0..n).map(|_| Number(self.string())).collect())
            }
            _ => {
                let n = self.len();
                AttributeValue::Bs((0..n).map(|_| self.bytes()).collect())
            }
        }
    }
}

fn encode_item(item: &Item) -> Result<Vec<u8>, DbError> {
    let mut out = Vec::new();
    enc_attr(&AttributeValue::M(item.duplicate()), &mut out);
    Ok(out)
}

fn decode_item(b: &[u8]) -> Result<Item, DbError> {
    match (Reader { b, at: 0 }).attr() {
        AttributeValue::M(m) => Ok(m),
        _ => Err(DbError::Serialization("not an item".to_string())),
    }
}

fn encode_def(d: &TableDef) -> Result<Vec<u8>, DbError> {
    let mut out = Vec::new();
    put_bytes(&mut out, d.name.as_bytes());
    put_bytes(&mut out, d.key.pk.as_bytes());
    put_opt(&mut out, &d.key.sk);
    put_len(&mut out, d.indexes.len());
    for idx in &d.indexes {
        put_bytes(&mut out, idx.name.as_bytes());
        put_bytes(&mut out, idx.key.pk.as_bytes());
        put_opt(&mut out, &idx.key.sk);
    }
    put_opt(&mut out, &d.ttl_attr);
    Ok(out)
}

fn decode_def(b: &[u8]) -> Result<TableDef, DbError> {
    let mut r = Reader { b, at: 0 };
    let name = r.string();
    let pk = r.string();
    let sk = r.opt();
    let n = r.len();
    let mut indexes = Vec::new();
    for _ in 0..n {
        let iname = r.string();
        let ipk = r.string();
        let isk = r.opt();
        indexes.push(IndexDef {
            name: iname,
            key: KeySchema { pk: ipk, sk: isk },
            projection: Projection::KeysOnly,
        });
    }
    let ttl_attr = r.opt();
    Ok(TableDef { name, key: KeySchema { pk, sk }, indexes, ttl_attr })
}

type DecodeDef = fn(&[u8]) -> Result<TableDef, DbError>;
type EncodeDef = fn(&TableDef) -> Result<Vec<u8>, DbError>;
type DecodeItem = fn(&[u8]) -> Result<Item, DbError>;
type EncodeItem = fn(&Item) -> Result<Vec<u8>, DbError>;
type TestBridge = Bridge<InMemoryStorage, DecodeDef, EncodeDef, DecodeItem, EncodeItem>;

fn new_bridge() -> TestBridge {
    Bridge::new(
        InMemoryStorage::new(),
        Codec {
            decode_def: decode_def as DecodeDef,
            encode_def: encode_def as EncodeDef,
            decode_item: decode_item as DecodeItem,
            encode_item: encode_item as EncodeItem,
        },
    )
}

fn to_json(v: &serde_json::Value) -> Json {
    match v {
        serde_json::Value::Null => Json::Null,
        serde_json::Value::Bool(b) => Json::Bool(*b),
        serde_json::Value::Number(n) => Json::Number(n.to_string()),
        serde_json::Value::String(s) => Json::Str(s.clone()),
        serde_json::Value::Array(a) => Json::Array(a.iter().map(to_json).collect()),
        serde_json::Value::Object(m) => {
            Json::Object(m.iter().map(|(k, v)| (k.clone(), to_json(v))).collect())
        }
    }
}

/// A JSON value from its text.
fn j(text: &str) -> Json {
    to_json(&serde_json::from_str(text).expect("json text"))
}

/// The attribute value that a JSON text stands for.
fn attr(text: &str) -> AttributeValue {
    json_to_attr(&j(text)).expect("attribute")
}

/// The item that a JSON object text stands for.
fn item(text: &str) -> Item {
    json_to_item(&j(text)).expect("item")
}

fn text_of(it: &Item, name: &str) -> String {
    match it.get(name) {
        Some(AttributeValue::S(s)) => s.clone(),
        other => panic!("unexpected {name} {other:?}"),
    }
}

fn bridge() -> TestBridge {
    let b = new_bridge();
    b.create_table(&j(r#"{
        "name": "orders",
        "key": { "pk": "userId", "sk": "orderId" },
        "indexes": [{ "name": "byStatus", "key": { "pk": "status", "sk": "amount" } }]
    }"#))
    .expect("create_table");
    b
}

fn seed(b: &TestBridge) {
    for (oid, status, amount) in [("o1", "open", 30), ("o2", "open", 10), ("o3", "shipped", 99)] {
        let text = format!(
            r#"{{ "userId": "u1", "orderId": "{oid}", "status": "{status}", "amount": {amount} }}"#
        );
        b.put("orders", &j(&text), None).expect("put");
    }
}

#[test]
fn plain_json_round_trips() {
    let b = bridge();
    let text = r#"{
        "userId": "u1", "orderId": "o1",
        "amount": 1200,
        "ratio": 0.5,
        "active": true,
        "note": null,
        "tags": ["red", "blue"],
        "addr": { "city": "tokyo", "zip": "100-0001" }
    }"#;
    b.put("orders", &j(text), None).expect("put");
    let got = b
        .get("orders", &j(r#"{ "userId": "u1", "orderId": "o1" }"#))
        .expect("get")
        .expect("item exists");
    assert_eq!(got, item(text));
}

#[test]
fn bridge_get_missing_returns_none() {
    let b = bridge();
    let got = b
        .get("orders", &j(r#"{ "userId": "u1", "orderId": "nope" }"#))
        .expect("get");
    assert_eq!(got, None);
}

#[test]
fn big_numbers_come_back_as_strings() {
    let b = bridge();
    b.put(
        "orders",
        &j(r#"{ "userId": "u1", "orderId": "big", "n": 9007199254740993 }"#),
        None,
    )
    .expect("put");
    let got = b
        .get("orders", &j(r#"{ "userId": "u1", "orderId": "big" }"#))
        .expect("get")
        .unwrap();
    assert_eq!(got.get("n"), Some(&attr("9007199254740993")));

    b.update(
        "orders",
        &j(r#"{ "userId": "u1", "orderId": "big" }"#),
        &j(r#"{ "update": "SET huge = :h", "values": { ":h": "12345678901234567890123456789012345678" } }"#),
    )
    .expect("update");
    let got = b
        .get("orders", &j(r#"{ "userId": "u1", "orderId": "big" }"#))
        .expect("get")
        .unwrap();
    assert_eq!(got.get("huge"), Some(&attr(r#""12345678901234567890123456789012345678""#)));
}

#[test]
fn conditional_put() {
    let b = bridge();
    let it = j(r#"{ "userId": "u1", "orderId": "o1", "v": 1 }"#);
    b.put("orders", &it, Some(&j(r#"{ "condition": "attribute_not_exists(userId)" }"#)))
        .expect("first put");
    let err = b
        .put("orders", &it, Some(&j(r#"{ "condition": "attribute_not_exists(userId)" }"#)))
        .expect_err("second must fail");
    assert!(matches!(err, DbError::ConditionalCheckFailed));
}

#[test]
fn update_returns_all_new_and_counts() {
    let b = bridge();
    for _ in 0..2 {
        b.update(
            "orders",
            &j(r#"{ "userId": "u1", "orderId": "page" }"#),
            &j(r#"{ "update": "ADD hits :one", "values": { ":one": 1 } }"#),
        )
        .expect("update");
    }
    let got = b
        .get("orders", &j(r#"{ "userId": "u1", "orderId": "page" }"#))
        .expect("get")
        .unwrap();
    assert_eq!(got.get("hits"), Some(&attr("2")));
}

#[test]
fn delete_returns_old() {
    let b = bridge();
    seed(&b);
    let old = b
        .delete("orders", &j(r#"{ "userId": "u1", "orderId": "o1" }"#), None)
        .expect("delete")
        .expect("old item");
    assert_eq!(old.get("amount"), Some(&attr("30")));
    let again = b
        .delete("orders", &j(r#"{ "userId": "u1", "orderId": "o1" }"#), None)
        .expect("delete");
    assert_eq!(again, None);
}

#[test]
fn query_with_shared_values_and_filter() {
    let b = bridge();
    seed(&b);
    let page = b
        .query(
            "orders",
            &j(r#"{
                "keyCondition": "userId = :u",
                "filter": "amount >= :min",
                "values": { ":u": "u1", ":min": 20 }
            }"#),
        )
        .expect("query");
    let ids: Vec<String> = page.items.iter().map(|i| text_of(i, "orderId")).collect();
    assert_eq!(ids, ["o1", "o3"]);
}

#[test]
fn query_pagination_with_opaque_token() {
    let b = bridge();
    seed(&b);
    let mut collected: Vec<String> = Vec::new();
    let mut start: Option<String> = None;
    loop {
        let mut params = j(r#"{
            "keyCondition": "userId = :u",
            "values": { ":u": "u1" },
            "scanForward": false,
            "limit": 1
        }"#);
        if let (Some(t), Json::Object(fields)) = (&start, &mut params) {
            fields.push(("startKey".to_string(), Json::Str(t.clone())));
        }
        let page = b.query("orders", &params).expect("query");
        for it in &page.items {
            collected.push(text_of(it, "orderId"));
        }
        match page.last_evaluated_key {
            Some(k) => start = Some(to_hex(&k)),
            None => break,
        }
        assert!(collected.len() <= 4, "must terminate");
    }
    assert_eq!(collected, ["o3", "o2", "o1"]);
}

#[test]
fn query_via_index() {
    let b = bridge();
    seed(&b);
    let page = b
        .query(
            "orders",
            &j(r##"{
                "index": "byStatus",
                "keyCondition": "#s = :s",
                "names": { "#s": "status" },
                "values": { ":s": "open" }
            }"##),
        )
        .expect("query");
    let ids: Vec<String> = page.items.iter().map(|i| text_of(i, "orderId")).collect();
    assert_eq!(ids, ["o2", "o1"]);
}

#[test]
fn table_management() {
    let b = bridge();
    assert_eq!(b.list_tables().expect("list"), vec!["orders"]);

    seed(&b);
    b.update_table(
        "orders",
        &j(r#"{ "add": [{ "name": "byAmount", "key": { "pk": "amount" } }] }"#),
    )
    .expect("update_table");
    let page = b
        .query(
            "orders",
            &j(r#"{
                "index": "byAmount",
                "keyCondition": "amount = :a",
                "values": { ":a": 30 }
            }"#),
        )
        .expect("query");
    assert_eq!(page.items.len(), 1);

    b.delete_table("orders").expect("delete");
    assert!(b.list_tables().expect("list").is_empty());
}

#[test]
fn transact_write_applies_all_ops() {
    let b = bridge();
    seed(&b);
    b.transact_write(&j(r#"[
        { "put": { "table": "orders",
                   "item": { "userId": "u1", "orderId": "o9", "status": "open", "amount": 1 } } },
        { "update": { "table": "orders",
                      "key": { "userId": "u1", "orderId": "o1" },
                      "update": "ADD amount :d", "values": { ":d": 5 } } },
        { "delete": { "table": "orders",
                      "key": { "userId": "u1", "orderId": "o2" } } },
        { "conditionCheck": { "table": "orders",
                              "key": { "userId": "u1", "orderId": "o3" },
                              "condition": "amount = :a", "values": { ":a": 99 } } }
    ]"#))
    .expect("transact_write");

    let get = |oid: &str| {
        b.get("orders", &j(&format!(r#"{{ "userId": "u1", "orderId": "{oid}" }}"#)))
            .expect("get")
    };
    assert_eq!(get("o9").unwrap().get("amount"), Some(&attr("1")));
    assert_eq!(get("o1").unwrap().get("amount"), Some(&attr("35")));
    assert_eq!(get("o2"), None);
}

#[test]
fn transact_write_cancels_all_on_condition_failure() {
    let b = bridge();
    seed(&b);
    let err = b
        .transact_write(&j(r#"[
            { "put": { "table": "orders",
                       "item": { "userId": "u1", "orderId": "o9", "amount": 1 } } },
            { "conditionCheck": { "table": "orders",
                                  "key": { "userId": "u1", "orderId": "o3" },
                                  "condition": "amount = :a", "values": { ":a": -1 } } }
        ]"#))
        .expect_err("must cancel");
    match &err {
        DbError::TransactionCanceled(reasons) => {
            assert_eq!(reasons, &vec!["None".to_string(), "ConditionalCheckFailed".into()]);
        }
        other => panic!("expected TransactionCanceled, got {other:?}"),
    }
    let got = b
        .get("orders", &j(r#"{ "userId": "u1", "orderId": "o9" }"#))
        .expect("get");
    assert_eq!(got, None);
}

#[test]
fn transact_get_returns_items_and_nulls_in_order() {
    let b = bridge();
    seed(&b);
    let keys = j(r#"[
        { "table": "orders", "key": { "userId": "u1", "orderId": "o3" } },
        { "table": "orders", "key": { "userId": "u1", "orderId": "ghost" } },
        { "table": "orders", "key": { "userId": "u1", "orderId": "o1" } }
    ]"#);
    let got = b.transact_get(&keys).expect("transact_get");
    assert_eq!(got[0].as_ref().and_then(|i| i.get("amount")), Some(&attr("99")));
    assert!(got[1].is_none());
    assert_eq!(got[2].as_ref().and_then(|i| i.get("amount")), Some(&attr("30")));
    assert_eq!(b.batch_get(&keys).expect("batch_get"), got);
}

#[test]
fn batch_write_puts_and_deletes() {
    let b = bridge();
    seed(&b);
    b.batch_write(&j(r#"{
        "puts": [
            { "table": "orders",
              "item": { "userId": "u2", "orderId": "b1", "amount": 7 } },
            { "table": "orders",
              "item": { "userId": "u2", "orderId": "b2", "amount": 8 } }
        ],
        "deletes": [
            { "table": "orders", "key": { "userId": "u1", "orderId": "o2" } },
            { "table": "orders", "key": { "userId": "u1", "orderId": "ghost" } }
        ]
    }"#))
    .expect("batch_write");
    assert!(b
        .get("orders", &j(r#"{ "userId": "u2", "orderId": "b1" }"#))
        .expect("get")
        .is_some());
    assert_eq!(
        b.get("orders", &j(r#"{ "userId": "u1", "orderId": "o2" }"#)).expect("get"),
        None
    );
}

#[test]
fn sweep_expired_via_bridge() {
    let b = new_bridge();
    b.create_table(&j(r#"{ "name": "sessions", "key": { "pk": "id" }, "ttlAttr": "expiresAt" }"#))
        .expect("create_table");
    b.engine().set_now(1_000);
    b.put("sessions", &j(r#"{ "id": "old", "expiresAt": 500 }"#), None).expect("put");
    b.put("sessions", &j(r#"{ "id": "live", "expiresAt": 2000 }"#), None).expect("put");

    assert_eq!(b.get("sessions", &j(r#"{ "id": "old" }"#)).expect("get"), None);
    assert_eq!(b.sweep_expired("sessions", 10).expect("sweep"), 1);
    assert!(b.get("sessions", &j(r#"{ "id": "live" }"#)).expect("get").is_some());
}

#[test]
fn malformed_transact_ops_are_validation_errors() {
    let b = bridge();
    seed(&b);
    for bad in [
        r#"{ "not": "an array" }"#,
        r#"[{ "teleport": { "table": "orders" } }]"#,
        r#"[{ "put": { "table": "orders" } }]"#,
        r#"[{ "update": { "table": "orders", "key": { "userId": "u1", "orderId": "o1" } } }]"#,
    ] {
        let r = b.transact_write(&j(bad));
        assert!(matches!(r, Err(DbError::Validation(_))), "{bad}: got {r:?}");
    }
}

#[test]
fn malformed_requests_are_validation_errors() {
    let b = bridge();
    for bad in [r#"{ "name": "x" }"#, r#"{ "key": { "pk": "id" } }"#, r#""just a string""#] {
        assert!(
            matches!(b.create_table(&j(bad)), Err(DbError::Validation(_))),
            "must reject {bad}"
        );
    }
    seed(&b);
    let r = b.get("orders", &j(r#"{ "orderId": "o1" }"#));
    assert!(matches!(r, Err(DbError::Validation(_))), "got {r:?}");
}

#[test]
fn sets_via_bridge() {
    let b = bridge();
    b.put(
        "orders",
        &j(r#"{
            "userId": "u1", "orderId": "s1",
            "tags":   { "$ss": ["red", "blue", "red"] },
            "scores": { "$ns": [2, "1.0"] },
            "blobs":  { "$bs": ["01", "00ff"] }
        }"#),
        None,
    )
    .expect("put");
    let got = b
        .get("orders", &j(r#"{ "userId": "u1", "orderId": "s1" }"#))
        .expect("get")
        .unwrap();
    assert_eq!(got.get("tags"), Some(&attr(r#"{ "$ss": ["blue", "red"] }"#)));
    assert_eq!(got.get("scores"), Some(&attr(r#"{ "$ns": [1, 2] }"#)));
    assert_eq!(got.get("blobs"), Some(&attr(r#"{ "$bs": ["00ff", "01"] }"#)));

    let after = b
        .update(
            "orders",
            &j(r#"{ "userId": "u1", "orderId": "s1" }"#),
            &j(r#"{
                "update": "ADD tags :t DELETE scores :s",
                "values": { ":t": { "$ss": ["green"] }, ":s": { "$ns": [1, 2] } }
            }"#),
        )
        .expect("update");
    assert_eq!(after.get("tags"), Some(&attr(r#"{ "$ss": ["blue", "green", "red"] }"#)));
    assert!(after.get("scores").is_none());

    let page = b
        .scan(
            "orders",
            &j(r#"{ "filter": "contains(tags, :v)", "values": { ":v": "green" } }"#),
        )
        .expect("scan");
    assert_eq!(page.items.len(), 1);

    let r = b.put(
        "orders",
        &j(r#"{ "userId": "u1", "orderId": "s2", "tags": { "$ss": [] } }"#),
        None,
    );
    assert!(matches!(r, Err(DbError::Validation(_))), "got {r:?}");
}
