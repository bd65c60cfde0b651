//! Put / Update / Delete / ConditionCheck operations applied all-or-nothing
//! in one write transaction. When a condition fails, the whole transaction
//! is rolled back with `TransactionCanceled`, one reason code per operation.
//! Two operations on the same item are refused. The number of operations
//! is not limited (a large transaction holds the single writer until it
//! commits).
use vstd::prelude::*;
use crate::application::meta::{adjust_count, load_def_write};
use crate::application::usecases::inputs::{
    check_condition, condition_readable, decode_item_or_empty, opt_condition_readable, parsed_condition,
    decoded_item,
    update_index_entries, update_readable, Codec, ConditionInput, UpdateInput,
};
use crate::application::usecases::put_item::{decode_old, encode_item_key, item_key_spec};
use crate::application::usecases::update_item::{touches_key, upsert_base};
use crate::domain::attribute::{copy_string, AttributeValue, Item, Model};
use crate::domain::byte_order::bytes_eq;
use crate::domain::error::{DbError, validation};
use crate::domain::expr::ast::Expr;
use crate::domain::expr::eval::{eval_spec, ExprContext};
use crate::domain::expr::parser::parse_update;
use crate::domain::expr::update::{apply_update, touched_roots};
use crate::domain::key_codec::{enc_key, encode_key};
use crate::domain::table::TableDef;
use crate::domain::text::str_eq;
use crate::ports::storage::{Contents, StorageEngine, WriteTxn};
use crate::application::effects::{delete_effect, put_effect, stored_item, stored_view};

verus! {

/// One operation of a write transaction.
#[allow(inconsistent_fields)]
#[derive(Debug)]
pub enum TransactWriteOp {
    Put { table: String, item: Item, condition: Option<ConditionInput> },
    Update {
        table: String,
        pk: AttributeValue,
        sk: Option<AttributeValue>,
        update: UpdateInput,
        condition: Option<ConditionInput>,
    },
    Delete {
        table: String,
        pk: AttributeValue,
        sk: Option<AttributeValue>,
        condition: Option<ConditionInput>,
    },
    ConditionCheck {
        table: String,
        pk: AttributeValue,
        sk: Option<AttributeValue>,
        condition: ConditionInput,
    },
}

/// The model of an optional sort key value.
pub open spec fn sk_model(sk: Option<AttributeValue>) -> Option<Model> {
    match sk {
        Some(v) => Some(v@),
        None => None,
    }
}

/// The (table, encoded key) an operation is on, as far as the operation
/// itself fixes it: a put's key depends on its table's key schema.
pub open spec fn op_target(op: TransactWriteOp, t: Seq<char>, k: Seq<u8>) -> bool {
    match op {
        TransactWriteOp::Put { table, item, .. } => t == table@ && exists|d: TableDef|
            item_key_spec(d, item) == Ok::<Seq<u8>, ()>(k),
        TransactWriteOp::Update { table, pk, sk, .. } => t == table@ && enc_key(pk@, sk_model(sk))
            == Some(k),
        TransactWriteOp::Delete { table, pk, sk, .. } => t == table@ && enc_key(pk@, sk_model(sk))
            == Some(k),
        TransactWriteOp::ConditionCheck { table, pk, sk, .. } => t == table@ && enc_key(
            pk@,
            sk_model(sk),
        ) == Some(k),
    }
}

/// The item an operation other than a put is on, named by its table and the
/// encoding of its key.
pub open spec fn keyed_target(op: TransactWriteOp) -> Option<(Seq<char>, Option<Seq<u8>>)> {
    match op {
        TransactWriteOp::Put { .. } => None,
        TransactWriteOp::Update { table, pk, sk, .. } => Some((table@, enc_key(pk@, sk_model(sk)))),
        TransactWriteOp::Delete { table, pk, sk, .. } => Some((table@, enc_key(pk@, sk_model(sk)))),
        TransactWriteOp::ConditionCheck { table, pk, sk, .. } => Some(
            (table@, enc_key(pk@, sk_model(sk))),
        ),
    }
}

/// The expressions of an operation are readable: its condition, and the
/// update expression of an update.
pub open spec fn op_readable(op: TransactWriteOp) -> bool {
    match op {
        TransactWriteOp::Put { condition, .. } => opt_condition_readable(condition),
        TransactWriteOp::Update { update, condition, .. } => update_readable(update.expression@)
            && opt_condition_readable(condition),
        TransactWriteOp::Delete { condition, .. } => opt_condition_readable(condition),
        TransactWriteOp::ConditionCheck { condition, .. } => condition_readable(condition.expression@),
    }
}

/// The condition an operation carries, if any.
pub open spec fn op_condition(op: TransactWriteOp) -> Option<ConditionInput> {
    match op {
        TransactWriteOp::Put { condition, .. } => condition,
        TransactWriteOp::Update { condition, .. } => condition,
        TransactWriteOp::Delete { condition, .. } => condition,
        TransactWriteOp::ConditionCheck { condition, .. } => Some(condition),
    }
}

/// The operation's condition holds of the item it was judged on (the stored
/// item, or an empty one where none is stored); an operation without a
/// condition is never held back.
pub open spec fn condition_held(op: TransactWriteOp, current: Item) -> bool {
    match op_condition(op) {
        None => true,
        Some(c) => exists|e: Expr|
            parsed_condition(c.expression@, e) && eval_spec(e, current, c.names, c.values) == Ok::<
                bool,
                (),
            >(true),
    }
}

/// The operation's condition does not hold of the item it was judged on.
pub open spec fn condition_refused(op: TransactWriteOp, current: Item) -> bool {
    op_condition(op) matches Some(c) && exists|e: Expr|
        parsed_condition(c.expression@, e) && eval_spec(e, current, c.names, c.values) == Ok::<
            bool,
            (),
        >(false)
}

/// The operation was refused by its condition on an item the store could
/// hold under its key (one the item decoder gives, or the empty item).
pub open spec fn op_refused<DI: Fn(&[u8]) -> Result<Item, DbError>>(decode: DI, op: TransactWriteOp) -> bool {
    exists|current: Item|
        (current.entries@.len() == 0 || decoded_item(decode, current)) && #[trigger] condition_refused(
            op,
            current,
        )
}

/// The operation went through its condition: it has none, or it holds of an
/// item that the store could hold under its key (one the item decoder gives,
/// or the empty item where none is stored).
pub open spec fn op_passed<DI: Fn(&[u8]) -> Result<Item, DbError>>(decode: DI, op: TransactWriteOp) -> bool {
    op_condition(op) is None || exists|current: Item|
        (current.entries@.len() == 0 || decoded_item(decode, current)) && #[trigger] condition_held(
            op,
            current,
        )
}

/// The reason codes of a cancelled transaction: `ConditionalCheckFailed`
/// for the operation whose condition failed, `None` for every other one.
pub open spec fn reasons_spec(n: nat, failed: int) -> Seq<Seq<char>> {
    Seq::new(n, |i: int| if i == failed { "ConditionalCheckFailed"@ } else { "None"@ })
}

/// The texts of reason codes.
pub open spec fn texts(r: Seq<String>) -> Seq<Seq<char>> {
    r.map_values(|s: String| s@)
}

/// The reason codes of a transaction of `n` operations cancelled at `failed`.
pub fn cancel_reasons(n: usize, failed: usize) -> (r: Vec<String>)
    ensures
        texts(r@) == reasons_spec(n as nat, failed as int),
{
    let mut out: Vec<String> = Vec::new();
    let mut i: usize = 0;
    while i < n
        invariant
            i <= n,
            out@.len() == i,
            forall|k: int|
                0 <= k < i ==> (#[trigger] out@[k])@ == reasons_spec(n as nat, failed as int)[k],
        decreases n - i,
    {
        if i == failed {
            out.push("ConditionalCheckFailed".to_owned());
        } else {
            out.push("None".to_owned());
        }
        i = i + 1;
    }
    assert(texts(out@) =~= reasons_spec(n as nat, failed as int));
    out
}

/// The error a transaction of `n` operations ends with when the operation at
/// `failed` fails with `e`: a failed condition cancels the whole transaction
/// with one reason code per operation; any other error is passed on.
pub fn op_failure(n: usize, failed: usize, e: DbError) -> (r: DbError)
    ensures
        e is ConditionalCheckFailed ==> (r matches DbError::TransactionCanceled(rs) && texts(rs@)
            == reasons_spec(n as nat, failed as int)),
        !(e is ConditionalCheckFailed) ==> r == e,
{
    match e {
        DbError::ConditionalCheckFailed => DbError::TransactionCanceled(cancel_reasons(n, failed)),
        other => other,
    }
}

/// Whether the item (table, key) is already among the ones seen.
pub fn seen_before(seen: &Vec<(String, Vec<u8>)>, table: &str, key: &[u8]) -> (r: bool)
    ensures
        r == exists|i: int|
            0 <= i < seen@.len() && (#[trigger] seen@[i]).0@ == table@ && seen@[i].1@ == key@,
{
    let mut i: usize = 0;
    while i < seen.len()
        invariant
            i <= seen@.len(),
            forall|k: int|
                0 <= k < i ==> !((#[trigger] seen@[k]).0@ == table@ && seen@[k].1@ == key@),
        decreases seen@.len() - i,
    {
        if str_eq(seen[i].0.as_str(), table) && bytes_eq(seen[i].1.as_slice(), key) {
            return true;
        }
        i = i + 1;
    }
    false
}

/// The (table, encoded key) an operation is on; its table must exist.
fn op_identity<T: WriteTxn, DD: Fn(&[u8]) -> Result<TableDef, DbError>>(
    txn: &T,
    op: &TransactWriteOp,
    decode_def: &DD,
) -> (r: Result<(String, Vec<u8>), DbError>)
    requires
        forall|b: &[u8]| decode_def.requires((b,)),
        forall|b: &[u8], r: Result<TableDef, DbError>|
            #[trigger] decode_def.ensures((b,), r) ==> !(r matches Err(e) && !(e is Serialization)),
    ensures
        r matches Ok((t, k)) ==> op_target(*op, t@, k@),
        r matches Err(e) ==> !(e is TransactionCanceled),
        match keyed_target(*op) {
            Some((_, None)) => r is Err,
            _ => true,
        },
{
    match op {
        TransactWriteOp::Put { table, item, .. } => {
            let def = load_def_write(txn, table.as_str(), decode_def)?;
            let key = encode_item_key(&def, item)?;
            Ok((copy_string(table), key))
        },
        TransactWriteOp::Update { table, pk, sk, .. } | TransactWriteOp::Delete {
            table,
            pk,
            sk,
            ..
        } | TransactWriteOp::ConditionCheck { table, pk, sk, .. } => {
            load_def_write(txn, table.as_str(), decode_def)?;
            let key = encode_key(pk, sk.as_ref())?;
            Ok((copy_string(table), key))
        },
    }
}

/// Applies one operation inside the transaction, and gives the item its
/// condition was judged on. Nothing is written before the condition has
/// held: where the transaction changed, the condition held of that item. A
/// condition check never writes.
fn apply_op<T: WriteTxn, DD, ED, DI, EI>(
    txn: &mut T,
    op: &TransactWriteOp,
    codec: &Codec<DD, ED, DI, EI>,
) -> (r: (Result<(), DbError>, Ghost<Item>)) where
    DD: Fn(&[u8]) -> Result<TableDef, DbError>,
    ED: Fn(&TableDef) -> Result<Vec<u8>, DbError>,
    DI: Fn(&[u8]) -> Result<Item, DbError>,
    EI: Fn(&Item) -> Result<Vec<u8>, DbError>,

    requires
        codec.total(),
    ensures
        r.0 is Ok ==> op_readable(*op) && condition_held(*op, r.1@),
        op_condition(*op) is Some && (r.0 is Ok || *final(txn) != *old(txn)) ==> (
        r.1@.entries@.len() == 0 || decoded_item(
            codec.decode_item,
            r.1@,
        )),
        *final(txn) != *old(txn) ==> condition_held(*op, r.1@),
        op is ConditionCheck ==> *final(txn) == *old(txn),
        r.0 matches Err(DbError::ConditionalCheckFailed) ==> *final(txn) == *old(txn)
            && condition_refused(*op, r.1@) && (r.1@.entries@.len() == 0 || decoded_item(
            codec.decode_item,
            r.1@,
        )),
        r.0 matches Err(e) ==> !(e is TransactionCanceled),
{
    let ghost mut judged: Item = vstd::pervasive::arbitrary();
    match op {
        TransactWriteOp::Put { table, item, condition } => {
            let def = match load_def_write(txn, table.as_str(), &codec.decode_def) {
                Ok(d) => d,
                Err(e) => { return (Err(e), Ghost(judged)); },
            };
            let key = match encode_item_key(&def, item) {
                Ok(k) => k,
                Err(e) => { return (Err(e), Ghost(judged)); },
            };
            let existing = match txn.get(def.name.as_str(), key.as_slice()) {
                Ok(x) => x,
                Err(e) => { return (Err(e), Ghost(judged)); },
            };
            if let Some(cond) = condition {
                let current = match decode_item_or_empty(existing.as_ref(), &codec.decode_item) {
                    Ok(c) => c,
                    Err(e) => { return (Err(e), Ghost(judged)); },
                };
                proof { judged = current; }
                if let Err(e) = check_condition(cond, &current) {
                    return (Err(e), Ghost(judged));
                }
            }
            assert(condition_held(*op, judged));
            (write_put(txn, &def, key.as_slice(), existing.as_ref(), item, codec), Ghost(judged))
        },
        TransactWriteOp::Update { table, pk, sk, update, condition } => {
            let def = match load_def_write(txn, table.as_str(), &codec.decode_def) {
                Ok(d) => d,
                Err(e) => { return (Err(e), Ghost(judged)); },
            };
            if def.key.sk.is_some() != sk.is_some() {
                return (
                    Err(validation("sort key presence does not match the schema of the table")),
                    Ghost(judged),
                );
            }
            let key = match encode_key(pk, sk.as_ref()) {
                Ok(k) => k,
                Err(e) => { return (Err(e), Ghost(judged)); },
            };
            let existing = match txn.get(def.name.as_str(), key.as_slice()) {
                Ok(x) => x,
                Err(e) => { return (Err(e), Ghost(judged)); },
            };
            let current = match decode_item_or_empty(existing.as_ref(), &codec.decode_item) {
                Ok(c) => c,
                Err(e) => { return (Err(e), Ghost(judged)); },
            };
            proof { judged = current; }
            if let Some(cond) = condition {
                if let Err(e) = check_condition(cond, &current) {
                    return (Err(e), Ghost(judged));
                }
            }
            assert(condition_held(*op, judged));
            let existed = existing.is_some();
            (apply_update_op(txn, &def, key.as_slice(), current, existed, pk, sk, update, codec), Ghost(judged))
        },
        TransactWriteOp::Delete { table, pk, sk, condition } => {
            let def = match load_def_write(txn, table.as_str(), &codec.decode_def) {
                Ok(d) => d,
                Err(e) => { return (Err(e), Ghost(judged)); },
            };
            let key = match encode_key(pk, sk.as_ref()) {
                Ok(k) => k,
                Err(e) => { return (Err(e), Ghost(judged)); },
            };
            let existing = match txn.get(def.name.as_str(), key.as_slice()) {
                Ok(x) => x,
                Err(e) => { return (Err(e), Ghost(judged)); },
            };
            if let Some(cond) = condition {
                let current = match decode_item_or_empty(existing.as_ref(), &codec.decode_item) {
                    Ok(c) => c,
                    Err(e) => { return (Err(e), Ghost(judged)); },
                };
                proof { judged = current; }
                if let Err(e) = check_condition(cond, &current) {
                    return (Err(e), Ghost(judged));
                }
            }
            assert(condition_held(*op, judged));
            (
                match write_delete(txn, &def, key.as_slice(), existing.as_ref(), codec) {
                    Ok(_) => Ok(()),
                    Err(e) => Err(e),
                },
                Ghost(judged),
            )
        },
        TransactWriteOp::ConditionCheck { table, pk, sk, condition } => {
            let def = match load_def_write(txn, table.as_str(), &codec.decode_def) {
                Ok(d) => d,
                Err(e) => { return (Err(e), Ghost(judged)); },
            };
            let key = match encode_key(pk, sk.as_ref()) {
                Ok(k) => k,
                Err(e) => { return (Err(e), Ghost(judged)); },
            };
            let existing = match txn.get(def.name.as_str(), key.as_slice()) {
                Ok(x) => x,
                Err(e) => { return (Err(e), Ghost(judged)); },
            };
            let current = match decode_item_or_empty(existing.as_ref(), &codec.decode_item) {
                Ok(c) => c,
                Err(e) => { return (Err(e), Ghost(judged)); },
            };
            proof { judged = current; }
            (check_condition(condition, &current), Ghost(judged))
        },
    }
}

/// The writes of a put whose condition held: index entries, the item, and
/// the count when the item is new (`put_effect`, over the item that
/// `existing`, the bytes stored under the key, holds).
pub fn write_put<T: WriteTxn, DD, ED, DI, EI>(
    txn: &mut T,
    def: &TableDef,
    key: &[u8],
    existing: Option<&Vec<u8>>,
    item: &Item,
    codec: &Codec<DD, ED, DI, EI>,
) -> (r: Result<(), DbError>) where
    DD: Fn(&[u8]) -> Result<TableDef, DbError>,
    ED: Fn(&TableDef) -> Result<Vec<u8>, DbError>,
    DI: Fn(&[u8]) -> Result<Item, DbError>,
    EI: Fn(&Item) -> Result<Vec<u8>, DbError>,

    requires
        codec.total(),
    ensures
        r matches Err(e) ==> e is Storage || e is Serialization || e is Validation,
        r is Ok ==> exists|prior: Option<Item>, bytes: Vec<u8>|
            #[trigger] put_done(codec, old(txn).contents(), *def, key@, stored_view(existing), prior, *item, bytes, final(txn).contents()),
{
    let ghost c0 = txn.contents();
    let old = decode_old(existing, &codec.decode_item)?;
    let ghost oi = old;
    update_index_entries(txn, def, key, old.as_ref(), Some(item))?;
    let bytes = (codec.encode_item)(item)?;
    txn.put(def.name.as_str(), key, bytes.as_slice())?;
    if old.is_none() {
        adjust_count(txn, def.name.as_str(), 1)?;
    }
    assert(put_done(codec, c0, *def, key@, stored_view(existing), oi, *item, bytes, txn.contents()));
    Ok(())
}

/// The put of `item` (encoded as `bytes`) over `old`, the item stored as
/// `existing`, took the store from `c0` to `c1` (`put_effect`).
pub open spec fn put_done<DD, ED, DI, EI>(
    codec: &Codec<DD, ED, DI, EI>,
    c0: Contents,
    def: TableDef,
    key: Seq<u8>,
    existing: Option<Seq<u8>>,
    old: Option<Item>,
    item: Item,
    bytes: Vec<u8>,
    c1: Contents,
) -> bool where
    DD: Fn(&[u8]) -> Result<TableDef, DbError>,
    ED: Fn(&TableDef) -> Result<Vec<u8>, DbError>,
    DI: Fn(&[u8]) -> Result<Item, DbError>,
    EI: Fn(&Item) -> Result<Vec<u8>, DbError>,
 {
    &&& stored_item(codec.decode_item, existing, old)
    &&& codec.encode_item.ensures((&item,), Ok::<Vec<u8>, DbError>(bytes))
    &&& put_effect(c0, def, key, old, item, bytes@) == Some(c1)
}

/// The work of an update whose condition held: the update expression is
/// read and applied to the item (or to its key, where none is stored), and
/// the result written with its index entries and the count.
fn apply_update_op<T: WriteTxn, DD, ED, DI, EI>(
    txn: &mut T,
    def: &TableDef,
    key: &[u8],
    current: Item,
    existed: bool,
    pk: &AttributeValue,
    sk: &Option<AttributeValue>,
    update: &UpdateInput,
    codec: &Codec<DD, ED, DI, EI>,
) -> (r: Result<(), DbError>) where
    DD: Fn(&[u8]) -> Result<TableDef, DbError>,
    ED: Fn(&TableDef) -> Result<Vec<u8>, DbError>,
    DI: Fn(&[u8]) -> Result<Item, DbError>,
    EI: Fn(&Item) -> Result<Vec<u8>, DbError>,

    requires
        codec.total(),
    ensures
        r matches Err(e) ==> !(e is ConditionalCheckFailed) && !(e is TransactionCanceled),
        r is Ok ==> update_readable(update.expression@),
{
    let ast = parse_update(update.expression.as_str())?;
    let ctx = ExprContext { names: &update.names, values: &update.values };
    let roots = touched_roots(&ast, &ctx)?;
    if touches_key(&roots, &def.key) {
        return Err(validation("cannot update a key attribute"));
    }
    let base = upsert_base(current, existed, &def.key, pk, sk.as_ref());
    let new_item = apply_update(&ast, &base, &ctx)?;
    let old = if existed {
        Some(&base)
    } else {
        None
    };
    update_index_entries(txn, def, key, old, Some(&new_item))?;
    let bytes = (codec.encode_item)(&new_item)?;
    txn.put(def.name.as_str(), key, bytes.as_slice())?;
    if !existed {
        adjust_count(txn, def.name.as_str(), 1)?;
    }
    Ok(())
}

/// The writes of a delete whose condition held: when an item is stored, its
/// index entries, the item and one from the count (`delete_effect`, over the
/// item that `existing`, the bytes stored under the key, holds).
pub fn write_delete<T: WriteTxn, DD, ED, DI, EI>(
    txn: &mut T,
    def: &TableDef,
    key: &[u8],
    existing: Option<&Vec<u8>>,
    codec: &Codec<DD, ED, DI, EI>,
) -> (r: Result<Option<Item>, DbError>) where
    DD: Fn(&[u8]) -> Result<TableDef, DbError>,
    ED: Fn(&TableDef) -> Result<Vec<u8>, DbError>,
    DI: Fn(&[u8]) -> Result<Item, DbError>,
    EI: Fn(&Item) -> Result<Vec<u8>, DbError>,

    requires
        codec.total(),
    ensures
        r matches Err(e) ==> e is Storage || e is Serialization || e is Validation,
        existing is None ==> (r matches Ok(None) && *final(txn) == *old(txn)),
        r matches Ok(prior) ==> stored_item(codec.decode_item, stored_view(existing), prior)
            && delete_effect(old(txn).contents(), *def, key@, prior) == Some(final(txn).contents()),
{
    match decode_old(existing, &codec.decode_item)? {
        Some(old) => {
            update_index_entries(txn, def, key, Some(&old), None)?;
            txn.delete(def.name.as_str(), key)?;
            adjust_count(txn, def.name.as_str(), -1)?;
            Ok(Some(old))
        },
        None => Ok(None),
    }
}

/// Applies the operations all-or-nothing. A failed condition cancels the
/// whole transaction with one reason code per operation; two operations on
/// the same item are a `Validation` error.
pub fn transact_write<E, DD, ED, DI, EI>(
    engine: &E,
    ops: &[TransactWriteOp],
    codec: &Codec<DD, ED, DI, EI>,
) -> (r: Result<(), DbError>) where
    E: StorageEngine,
    DD: Fn(&[u8]) -> Result<TableDef, DbError>,
    ED: Fn(&TableDef) -> Result<Vec<u8>, DbError>,
    DI: Fn(&[u8]) -> Result<Item, DbError>,
    EI: Fn(&Item) -> Result<Vec<u8>, DbError>,

    requires
        codec.total(),
    ensures
        r is Ok ==> forall|i: int| 0 <= i < ops@.len() ==> op_readable(#[trigger] ops@[i]),
        r is Ok ==> forall|i: int|
            0 <= i < ops@.len() ==> op_passed(codec.decode_item, #[trigger] ops@[i]),
        r matches Err(DbError::TransactionCanceled(rs)) ==> exists|j: int|
            0 <= j < ops@.len() && texts(rs@) == reasons_spec(ops@.len(), j) && #[trigger] op_refused(
                codec.decode_item,
                ops@[j],
            ),
        r is Ok ==> forall|i: int, j: int|
            0 <= i < j < ops@.len() && (#[trigger] keyed_target(ops@[i])) is Some ==> keyed_target(
                ops@[i],
            ) != #[trigger] keyed_target(ops@[j]),
{
    let mut txn = engine.begin_write()?;
    let mut seen: Vec<(String, Vec<u8>)> = Vec::new();
    let mut i: usize = 0;
    while i < ops.len()
        invariant
            i <= ops@.len(),
            codec.total(),
            seen@.len() == i,
            forall|k: int| 0 <= k < i ==> op_target(#[trigger] ops@[k], seen@[k].0@, seen@[k].1@),
            forall|a: int, b: int|
                0 <= a < b < i && (#[trigger] keyed_target(ops@[a])) is Some ==> keyed_target(ops@[a])
                    != #[trigger] keyed_target(ops@[b]),
        decreases ops@.len() - i,
    {
        let (table, key) = op_identity(&txn, &ops[i], &codec.decode_def)?;
        if seen_before(&seen, table.as_str(), key.as_slice()) {
            return Err(validation("transaction cannot include multiple operations on the same item"));
        }
        proof {
            assert forall|a: int| 0 <= a < i && (#[trigger] keyed_target(ops@[a])) is Some implies keyed_target(
                ops@[a],
            ) != keyed_target(ops@[i as int]) by {
                assert(op_target(ops@[a], seen@[a].0@, seen@[a].1@));
                if keyed_target(ops@[a]) == keyed_target(ops@[i as int]) {
                    assert(seen@[a].0@ == table@ && seen@[a].1@ == key@);
                }
            }
        }
        seen.push((table, key));
        i = i + 1;
    }
    let mut j: usize = 0;
    while j < ops.len()
        invariant
            j <= ops@.len(),
            codec.total(),
            forall|k: int| 0 <= k < j ==> op_readable(#[trigger] ops@[k]),
            forall|k: int| 0 <= k < j ==> op_passed(codec.decode_item, #[trigger] ops@[k]),
            forall|a: int, b: int|
                0 <= a < b < ops@.len() && (#[trigger] keyed_target(ops@[a])) is Some ==> keyed_target(
                    ops@[a],
                ) != #[trigger] keyed_target(ops@[b]),
        decreases ops@.len() - j,
    {
        let (outcome, judged) = apply_op(&mut txn, &ops[j], codec);
        if outcome.is_ok() {
            assert(op_passed(codec.decode_item, ops@[j as int])) by {
                if op_condition(ops@[j as int]) is Some {
                    assert(condition_held(ops@[j as int], judged@));
                }
            }
        }
        if let Err(e) = outcome {
            let failure = op_failure(ops.len(), j, e);
            proof {
                if e is ConditionalCheckFailed {
                    assert(condition_refused(ops@[j as int], judged@));
                    assert(op_refused(codec.decode_item, ops@[j as int]));
                }
            }
            return Err(failure);
        }
        j = j + 1;
    }
    txn.commit()
}

} // verus!
