//! Deleting one item, under an optional condition; the deleted item is
//! returned (`None` when there was none: deleting a missing key is a no-op).
use vstd::prelude::*;
use crate::application::meta::{def_loaded, load_def_write, META_TABLE};
use crate::application::effects::{delete_effect, stored_item, stored_view};
use crate::application::usecases::transact_write::write_delete;
use crate::domain::text::utf8;
use crate::application::usecases::inputs::{
    held_on_stored, holds,
    decoded_item, key_model,
    condition_readable,
    check_condition, decode_item_or_empty, update_index_entries, Codec, ConditionInput,
};
use crate::domain::attribute::{AttributeValue, Item};
use crate::domain::error::DbError;
use crate::domain::key_codec::{enc_key, encode_key};
use crate::domain::table::TableDef;
use crate::ports::storage::{lookup, StorageEngine, WriteTxn};

verus! {

/// A delete inside a write transaction: the table's definition is read, the
/// key formed, the condition (if any) judged on the stored item (an empty
/// one where none is stored), and then the writes of `write_delete` are
/// made; the deleted item is returned. A failed condition, an unknown table
/// and a key that cannot be formed write nothing.
pub fn delete_in<T: WriteTxn, DD, ED, DI, EI>(
    txn: &mut T,
    table: &str,
    pk: &AttributeValue,
    sk: Option<&AttributeValue>,
    condition: Option<&ConditionInput>,
    codec: &Codec<DD, ED, DI, EI>,
) -> (r: Result<Option<Item>, DbError>) where
    DD: Fn(&[u8]) -> Result<TableDef, DbError>,
    ED: Fn(&TableDef) -> Result<Vec<u8>, DbError>,
    DI: Fn(&[u8]) -> Result<Item, DbError>,
    EI: Fn(&Item) -> Result<Vec<u8>, DbError>,

    requires
        codec.total(),
    ensures
        r matches Err(DbError::ConditionalCheckFailed) ==> *final(txn) == *old(txn),
        r matches Err(DbError::ResourceNotFound(n)) ==> *final(txn) == *old(txn) && n@ == table@
            && lookup(old(txn).contents(), META_TABLE@, utf8("table:"@ + table@)) is None,
        lookup(old(txn).contents(), META_TABLE@, utf8("table:"@ + table@)) is None ==> r is Err,
        r is Ok ==> enc_key(pk@, key_model(sk)) is Some && match condition {
            Some(c) => condition_readable(c.expression@) && held_on_stored(codec.decode_item, *c),
            None => true,
        },
        r matches Ok(prior) ==> exists|def: TableDef|
            #[trigger] def_loaded(codec.decode_def, old(txn).contents(), table@, Ok::<TableDef, DbError>(def))
                && (enc_key(pk@, key_model(sk)) matches Some(key) && stored_item(
                codec.decode_item,
                lookup(old(txn).contents(), def.name@, key),
                prior,
            ) && delete_effect(old(txn).contents(), def, key, prior) == Some(final(txn).contents())),
{
    let ghost c0 = txn.contents();
    let def = load_def_write(txn, table, &codec.decode_def)?;
    let key = encode_key(pk, sk)?;
    let existing = txn.get(def.name.as_str(), key.as_slice())?;
    if let Some(cond) = condition {
        let current = decode_item_or_empty(existing.as_ref(), &codec.decode_item)?;
        check_condition(cond, &current)?;
        assert(holds(*cond, current));
        assert(held_on_stored(codec.decode_item, *cond));
    }
    let stored = existing.as_ref();
    assert(stored_view(stored) == lookup(c0, def.name@, key@));
    write_delete(txn, &def, key.as_slice(), stored, codec)
}

/// Deletes one item and returns it: `delete_in` in a write transaction of its
/// own, committed when an item was deleted.
pub fn delete_item<E, DD, ED, DI, EI>(
    engine: &E,
    table: &str,
    pk: &AttributeValue,
    sk: Option<&AttributeValue>,
    condition: Option<&ConditionInput>,
    codec: &Codec<DD, ED, DI, EI>,
) -> (r: Result<Option<Item>, DbError>) where
    E: StorageEngine,
    DD: Fn(&[u8]) -> Result<TableDef, DbError>,
    ED: Fn(&TableDef) -> Result<Vec<u8>, DbError>,
    DI: Fn(&[u8]) -> Result<Item, DbError>,
    EI: Fn(&Item) -> Result<Vec<u8>, DbError>,

    requires
        codec.total(),
    ensures
        r is Ok ==> match condition {
            Some(c) => condition_readable(c.expression@),
            None => true,
        },
        r is Ok ==> match condition {
            Some(c) => held_on_stored(codec.decode_item, *c),
            None => true,
        },
        r is Ok ==> enc_key(pk@, key_model(sk)) is Some,
        r matches Ok(Some(it)) ==> decoded_item(codec.decode_item, it),
{
    let mut txn = engine.begin_write()?;
    let deleted = delete_in(&mut txn, table, pk, sk, condition, codec)?;
    if deleted.is_some() {
        txn.commit()?;
    }
    Ok(deleted)
}

} // verus!
