//! Reading several keys in one read transaction (one consistent snapshot).
//! Locally `batch_get` has the same meaning; nothing is ever left
//! unprocessed.
use vstd::prelude::*;
use crate::application::meta::load_def_read;
use crate::application::usecases::get_item::{visible_item, visible_under};
use crate::application::usecases::inputs::{decoded_item, Codec};
use crate::domain::attribute::{AttributeValue, Item, Model};
use crate::domain::error::DbError;
use crate::domain::key_codec::{enc_key, encode_key};
use crate::domain::table::TableDef;
use crate::ports::storage::{Clock, ReadTxn, StorageEngine};

verus! {

/// A key to read or delete: the table and the item's key values.
#[derive(Debug)]
pub struct KeyRef {
    pub table: String,
    pub pk: AttributeValue,
    pub sk: Option<AttributeValue>,
}

/// The model of a key reference's sort key value.
pub open spec fn opt_key(sk: Option<AttributeValue>) -> Option<Model> {
    match sk {
        Some(v) => Some(v@),
        None => None,
    }
}

/// The items under the keys, in the keys' order (`None` for a missing or
/// expired item).
pub fn transact_get<E, DD, ED, DI, EI>(
    engine: &E,
    keys: &[KeyRef],
    codec: &Codec<DD, ED, DI, EI>,
) -> (r: Result<Vec<Option<Item>>, DbError>) where
    E: StorageEngine,
    DD: Fn(&[u8]) -> Result<TableDef, DbError>,
    ED: Fn(&TableDef) -> Result<Vec<u8>, DbError>,
    DI: Fn(&[u8]) -> Result<Item, DbError>,
    EI: Fn(&Item) -> Result<Vec<u8>, DbError>,

    requires
        codec.total(),
    ensures
        r matches Ok(v) ==> v@.len() == keys@.len(),
        r is Ok ==> forall|i: int|
            0 <= i < keys@.len() ==> enc_key((#[trigger] keys@[i]).pk@, opt_key(keys@[i].sk)) is Some,
        r matches Ok(v) ==> forall|i: int|
            0 <= i < v@.len() && (#[trigger] v@[i]) is Some ==> decoded_item(codec.decode_item, v@[i]->0),
        r matches Ok(v) ==> forall|i: int|
            0 <= i < v@.len() && (#[trigger] v@[i]) is Some ==> exists|def: TableDef, now: int|
                #[trigger] visible_under(codec.decode_def, def, v@[i]->0, now),
{
    let now = engine.clock().now_epoch();
    let txn = engine.begin_read()?;
    let mut out: Vec<Option<Item>> = Vec::new();
    let mut i: usize = 0;
    while i < keys.len()
        invariant
            i <= keys@.len(),
            out@.len() == i,
            codec.total(),
            forall|j: int| 0 <= j < i ==> enc_key((#[trigger] keys@[j]).pk@, opt_key(keys@[j].sk)) is Some,
            forall|j: int|
                0 <= j < i && (#[trigger] out@[j]) is Some ==> decoded_item(codec.decode_item, out@[j]->0),
            forall|j: int|
                0 <= j < i && (#[trigger] out@[j]) is Some ==> exists|def: TableDef, now: int|
                    #[trigger] visible_under(codec.decode_def, def, out@[j]->0, now),
        decreases keys@.len() - i,
    {
        let k = &keys[i];
        let def = load_def_read(&txn, k.table.as_str(), &codec.decode_def)?;
        let key = encode_key(&k.pk, k.sk.as_ref())?;
        let got = match txn.get(def.name.as_str(), key.as_slice())? {
            Some(bytes) => {
                let item = (codec.decode_item)(bytes.as_slice())?;
                let shown = visible_item(&def, item, now);
                if let Some(it) = &shown {
                    assert(visible_under(codec.decode_def, def, *it, now as int));
                }
                shown
            },
            None => None,
        };
        out.push(got);
        i = i + 1;
    }
    Ok(out)
}

/// Locally the same as `transact_get` (one snapshot).
pub fn batch_get<E, DD, ED, DI, EI>(
    engine: &E,
    keys: &[KeyRef],
    codec: &Codec<DD, ED, DI, EI>,
) -> (r: Result<Vec<Option<Item>>, DbError>) where
    E: StorageEngine,
    DD: Fn(&[u8]) -> Result<TableDef, DbError>,
    ED: Fn(&TableDef) -> Result<Vec<u8>, DbError>,
    DI: Fn(&[u8]) -> Result<Item, DbError>,
    EI: Fn(&Item) -> Result<Vec<u8>, DbError>,

    requires
        codec.total(),
    ensures
        r matches Ok(v) ==> v@.len() == keys@.len(),
        r is Ok ==> forall|i: int|
            0 <= i < keys@.len() ==> enc_key((#[trigger] keys@[i]).pk@, opt_key(keys@[i].sk)) is Some,
        r matches Ok(v) ==> forall|i: int|
            0 <= i < v@.len() && (#[trigger] v@[i]) is Some ==> decoded_item(codec.decode_item, v@[i]->0),
        r matches Ok(v) ==> forall|i: int|
            0 <= i < v@.len() && (#[trigger] v@[i]) is Some ==> exists|def: TableDef, now: int|
                #[trigger] visible_under(codec.decode_def, def, v@[i]->0, now),
{
    transact_get(engine, keys, codec)
}

} // verus!
