//! Reading one item by table name and primary key (always strongly
//! consistent locally).
use vstd::prelude::*;
use crate::application::meta::{def_loaded, load_def_read, META_TABLE};
use crate::application::usecases::scan::value_item;
use crate::domain::text::utf8;
use crate::application::usecases::inputs::{decoded_item, key_model, Codec};
use crate::domain::attribute::{AttributeValue, Item};
use crate::domain::error::DbError;
use crate::domain::key_codec::{enc_key, encode_key};
use crate::domain::table::TableDef;
use crate::domain::ttl::{expired_spec, is_expired};
use crate::ports::storage::{lookup, Clock, ReadTxn, StorageEngine};

verus! {

/// What a read shows of a stored item at `now`: nothing once it has expired
/// (a logical delete until the sweep removes it), else the item.
pub fn visible_item(def: &TableDef, item: Item, now: i64) -> (r: Option<Item>)
    ensures
        expired_spec(*def, item, now as int) ==> r is None,
        !expired_spec(*def, item, now as int) ==> r == Some(item),
{
    if is_expired(def, &item, now) {
        None
    } else {
        Some(item)
    }
}

/// `it` is shown by a read at `now` under the table definition `def` (one
/// the definition decoder gives): it has not expired.
pub open spec fn visible_under<DD: Fn(&[u8]) -> Result<TableDef, DbError>>(
    decode_def: DD,
    def: TableDef,
    it: Item,
    now: int,
) -> bool {
    &&& exists|b: &[u8]| decode_def.ensures((b,), Ok::<TableDef, DbError>(def))
    &&& !expired_spec(def, it, now)
}

/// What a read at `now` shows of the bytes stored under a key of the table
/// `def` (if any): nothing where nothing is stored or the decoded item has
/// expired, else the decoded item.
pub open spec fn shown<DI: Fn(&[u8]) -> Result<Item, DbError>>(
    decode: DI,
    def: TableDef,
    stored: Option<Seq<u8>>,
    now: int,
    r: Option<Item>,
) -> bool {
    match stored {
        None => r is None,
        Some(b) => exists|it: Item|
            #[trigger] value_item(decode, b, it) && if expired_spec(def, it, now) {
                r is None
            } else {
                r == Some(it)
            },
    }
}

/// A read of one item in a read transaction, at `now`: the table's
/// definition, the key, then what `shown` gives of the bytes stored there.
pub fn get_in<T: ReadTxn, DD, ED, DI, EI>(
    txn: &T,
    table: &str,
    pk: &AttributeValue,
    sk: Option<&AttributeValue>,
    now: i64,
    codec: &Codec<DD, ED, DI, EI>,
) -> (r: Result<Option<Item>, DbError>) where
    DD: Fn(&[u8]) -> Result<TableDef, DbError>,
    ED: Fn(&TableDef) -> Result<Vec<u8>, DbError>,
    DI: Fn(&[u8]) -> Result<Item, DbError>,
    EI: Fn(&Item) -> Result<Vec<u8>, DbError>,

    requires
        codec.total(),
    ensures
        r matches Err(DbError::ResourceNotFound(n)) ==> n@ == table@ && lookup(
            txn.contents(),
            META_TABLE@,
            utf8("table:"@ + table@),
        ) is None,
        lookup(txn.contents(), META_TABLE@, utf8("table:"@ + table@)) is None ==> r is Err,
        r matches Ok(o) ==> exists|def: TableDef|
            #[trigger] def_loaded(codec.decode_def, txn.contents(), table@, Ok::<TableDef, DbError>(def))
                && (enc_key(pk@, key_model(sk)) matches Some(key) && shown(
                codec.decode_item,
                def,
                lookup(txn.contents(), def.name@, key),
                now as int,
                o,
            )),
        r matches Ok(Some(it)) ==> decoded_item(codec.decode_item, it) && exists|def: TableDef, t: int|
            #[trigger] visible_under(codec.decode_def, def, it, t),
{
    let def = load_def_read(txn, table, &codec.decode_def)?;
    let key = encode_key(pk, sk)?;
    match txn.get(def.name.as_str(), key.as_slice())? {
        Some(bytes) => {
            let item = (codec.decode_item)(bytes.as_slice())?;
            assert(value_item(codec.decode_item, bytes@, item));
            let shown_item = visible_item(&def, item, now);
            if let Some(it) = &shown_item {
                assert(visible_under(codec.decode_def, def, *it, now as int));
            }
            assert(lookup(txn.contents(), def.name@, key@) == Some(bytes@));
            assert(value_item(codec.decode_item, lookup(txn.contents(), def.name@, key@)->0, item));
            assert(shown(codec.decode_item, def, lookup(txn.contents(), def.name@, key@), now as int, shown_item));
            assert(def_loaded(codec.decode_def, txn.contents(), table@, Ok::<TableDef, DbError>(def)));
            Ok(shown_item)
        },
        None => {
            assert(shown(codec.decode_item, def, lookup(txn.contents(), def.name@, key@), now as int, None));
            assert(def_loaded(codec.decode_def, txn.contents(), table@, Ok::<TableDef, DbError>(def)));
            Ok(None)
        },
    }
}

/// Reads one item; `None` when there is none or it has expired.
pub fn get_item<E, DD, ED, DI, EI>(
    engine: &E,
    table: &str,
    pk: &AttributeValue,
    sk: Option<&AttributeValue>,
    codec: &Codec<DD, ED, DI, EI>,
) -> (r: Result<Option<Item>, DbError>) where
    E: StorageEngine,
    DD: Fn(&[u8]) -> Result<TableDef, DbError>,
    ED: Fn(&TableDef) -> Result<Vec<u8>, DbError>,
    DI: Fn(&[u8]) -> Result<Item, DbError>,
    EI: Fn(&Item) -> Result<Vec<u8>, DbError>,

    requires
        codec.total(),
    ensures
        r is Ok ==> enc_key(pk@, key_model(sk)) is Some,
        r matches Ok(Some(it)) ==> decoded_item(codec.decode_item, it),
        r matches Ok(Some(it)) ==> exists|def: TableDef, now: int|
            #[trigger] visible_under(codec.decode_def, def, it, now),
{
    let now = engine.clock().now_epoch();
    let txn = engine.begin_read()?;
    get_in(&txn, table, pk, sk, now, codec)
}

} // verus!
