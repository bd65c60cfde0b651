//! Writing an item under the table's key schema. A condition is evaluated
//! against the current item (an empty one when there is none) in the same
//! transaction; when it does not hold, nothing is written
//! (`ConditionalCheckFailed`). Index entries and the item count change in the
//! same transaction.
use vstd::prelude::*;
use crate::application::meta::{def_loaded, load_def_write, META_TABLE};
use crate::application::effects::stored_view;
use crate::application::usecases::transact_write::{put_done, write_put};
use crate::domain::text::utf8;
use crate::application::usecases::inputs::{
    held_on_stored, holds,
    condition_readable,
    check_condition, decode_item_or_empty, update_index_entries, Codec, ConditionInput,
};
use crate::domain::attribute::{AttributeValue, Item};
use crate::domain::error::{DbError, validation};
use crate::domain::key_codec::{enc_key, encode_key};
use crate::domain::table::TableDef;
use crate::ports::storage::{lookup, StorageEngine, WriteTxn};

verus! {

/// The encoded primary key of an item under a table's key schema; an error
/// when a key attribute is missing or cannot be a key.
pub open spec fn item_key_spec(def: TableDef, item: Item) -> Result<Seq<u8>, ()> {
    match item.find(def.key.pk@) {
        None => Err(()),
        Some(pk) => match def.key.sk {
            None => match enc_key(pk@, None) {
                Some(b) => Ok(b),
                None => Err(()),
            },
            Some(sk_name) => match item.find(sk_name@) {
                None => Err(()),
                Some(sk) => match enc_key(pk@, Some(sk@)) {
                    Some(b) => Ok(b),
                    None => Err(()),
                },
            },
        },
    }
}

/// A key attribute of an item; a `Validation` error when it is missing.
fn require_attr<'a>(item: &'a Item, name: &str) -> (r: Result<&'a AttributeValue, DbError>)
    ensures
        match r {
            Ok(v) => item.find(name@) == Some(*v),
            Err(e) => item.find(name@) is None && e is Validation,
        },
{
    match item.get(name) {
        Some(v) => Ok(v),
        None => Err(validation("missing key attribute")),
    }
}

/// Some key schema reads a key out of the item.
pub open spec fn item_keyable(item: Item) -> bool {
    exists|d: TableDef| item_key_spec(d, item) is Ok
}

/// The encoded primary key of an item, as `item_key_spec` says.
pub fn encode_item_key(def: &TableDef, item: &Item) -> (r: Result<Vec<u8>, DbError>)
    ensures
        match r {
            Ok(b) => item_key_spec(*def, *item) == Ok::<Seq<u8>, ()>(b@),
            Err(e) => item_key_spec(*def, *item) is Err && e is Validation,
        },
{
    let pk = require_attr(item, def.key.pk.as_str())?;
    match &def.key.sk {
        Some(sk_name) => {
            let sk = require_attr(item, sk_name.as_str())?;
            encode_key(pk, Some(sk))
        },
        None => encode_key(pk, None),
    }
}

/// The stored item under a key, decoded; `None` when nothing is stored.
pub fn decode_old<DI: Fn(&[u8]) -> Result<Item, DbError>>(
    bytes: Option<&Vec<u8>>,
    decode_item: &DI,
) -> (r: Result<Option<Item>, DbError>)
    requires
        forall|b: &[u8]| decode_item.requires((b,)),
    ensures
        bytes is None ==> r matches Ok(None),
        bytes is Some ==> !(r matches Ok(None)),
        match (bytes, r) {
            (Some(b), Ok(Some(it))) => exists|s: &[u8]|
                s@ == b@ && decode_item.ensures((s,), Ok::<Item, DbError>(it)),
            (Some(b), Err(e)) => exists|s: &[u8]|
                s@ == b@ && decode_item.ensures((s,), Err::<Item, DbError>(e)),
            _ => true,
        },
{
    match bytes {
        Some(b) => {
            let item = decode_item(b.as_slice())?;
            Ok(Some(item))
        },
        None => Ok(None),
    }
}

/// Writes an item (a new one or over the one with the same key).
/// A put inside a write transaction: the table's definition is read, the
/// item's key formed, the condition (if any) judged on the stored item (an
/// empty one where none is stored), and then the writes of `write_put` are
/// made. A failed condition, an unknown table and an item without its key
/// attributes write nothing.
pub fn put_in<T: WriteTxn, DD, ED, DI, EI>(
    txn: &mut T,
    table: &str,
    item: &Item,
    condition: Option<&ConditionInput>,
    codec: &Codec<DD, ED, DI, EI>,
) -> (r: Result<(), DbError>) where
    DD: Fn(&[u8]) -> Result<TableDef, DbError>,
    ED: Fn(&TableDef) -> Result<Vec<u8>, DbError>,
    DI: Fn(&[u8]) -> Result<Item, DbError>,
    EI: Fn(&Item) -> Result<Vec<u8>, DbError>,

    requires
        codec.total(),
    ensures
        r matches Err(DbError::ConditionalCheckFailed) ==> *final(txn) == *old(txn),
        r matches Err(DbError::ResourceNotFound(n)) ==> *final(txn) == *old(txn) && n@ == table@
            && lookup(old(txn).contents(), META_TABLE@, utf8("table:"@ + table@)) is None,
        lookup(old(txn).contents(), META_TABLE@, utf8("table:"@ + table@)) is None ==> r is Err,
        r is Ok ==> item_keyable(*item) && match condition {
            Some(c) => condition_readable(c.expression@) && held_on_stored(codec.decode_item, *c),
            None => true,
        },
        r is Ok ==> exists|def: TableDef, key: Seq<u8>, prior: Option<Item>, bytes: Vec<u8>|
            #[trigger] put_done(
                codec,
                old(txn).contents(),
                def,
                key,
                lookup(old(txn).contents(), def.name@, key),
                prior,
                *item,
                bytes,
                final(txn).contents(),
            ) && def_loaded(codec.decode_def, old(txn).contents(), table@, Ok::<TableDef, DbError>(def))
                && item_key_spec(def, *item) == Ok::<Seq<u8>, ()>(key),
{
    let ghost c0 = txn.contents();
    let def = load_def_write(txn, table, &codec.decode_def)?;
    let key = encode_item_key(&def, item)?;
    let existing = txn.get(def.name.as_str(), key.as_slice())?;
    if let Some(cond) = condition {
        let current = decode_item_or_empty(existing.as_ref(), &codec.decode_item)?;
        check_condition(cond, &current)?;
        assert(holds(*cond, current));
        assert(held_on_stored(codec.decode_item, *cond));
    }
    let stored = existing.as_ref();
    assert(stored_view(stored) == lookup(c0, def.name@, key@));
    write_put(txn, &def, key.as_slice(), stored, item, codec)
}

/// Writes an item: `put_in` in a write transaction of its own, committed
/// when it succeeds.
pub fn put_item<E, DD, ED, DI, EI>(
    engine: &E,
    table: &str,
    item: &Item,
    condition: Option<&ConditionInput>,
    codec: &Codec<DD, ED, DI, EI>,
) -> (r: Result<(), DbError>) where
    E: StorageEngine,
    DD: Fn(&[u8]) -> Result<TableDef, DbError>,
    ED: Fn(&TableDef) -> Result<Vec<u8>, DbError>,
    DI: Fn(&[u8]) -> Result<Item, DbError>,
    EI: Fn(&Item) -> Result<Vec<u8>, DbError>,

    requires
        codec.total(),
    ensures
        r is Ok ==> match condition {
            Some(c) => condition_readable(c.expression@),
            None => true,
        },
        r is Ok ==> match condition {
            Some(c) => held_on_stored(codec.decode_item, *c),
            None => true,
        },
        r is Ok ==> item_keyable(*item),
{
    let mut txn = engine.begin_write()?;
    put_in(&mut txn, table, item, condition, codec)?;
    txn.commit()
}

} // verus!
