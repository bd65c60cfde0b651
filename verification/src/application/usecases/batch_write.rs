//! A non-transactional, idempotent loop of puts (overwriting) and deletes (a
//! missing key is fine). Locally nothing is ever left unprocessed: all is
//! done, or an error stops it.
use vstd::prelude::*;
use crate::application::usecases::delete_item::delete_item;
use crate::application::usecases::inputs::Codec;
use crate::application::usecases::put_item::{item_keyable, put_item};
use crate::application::usecases::transact_get::{opt_key, KeyRef};
use crate::domain::key_codec::enc_key;
use crate::domain::attribute::Item;
use crate::domain::error::DbError;
use crate::domain::table::TableDef;
use crate::ports::storage::StorageEngine;

verus! {

/// Puts every `(table, item)`, then deletes every key.
pub fn batch_write<E, DD, ED, DI, EI>(
    engine: &E,
    puts: &[(String, Item)],
    deletes: &[KeyRef],
    codec: &Codec<DD, ED, DI, EI>,
) -> (r: Result<(), DbError>) where
    E: StorageEngine,
    DD: Fn(&[u8]) -> Result<TableDef, DbError>,
    ED: Fn(&TableDef) -> Result<Vec<u8>, DbError>,
    DI: Fn(&[u8]) -> Result<Item, DbError>,
    EI: Fn(&Item) -> Result<Vec<u8>, DbError>,

    requires
        codec.total(),
    ensures
        r is Ok ==> forall|i: int|
            0 <= i < puts@.len() ==> item_keyable(#[trigger] puts@[i].1),
        r is Ok ==> forall|j: int|
            0 <= j < deletes@.len() ==> enc_key((#[trigger] deletes@[j]).pk@, opt_key(deletes@[j].sk))
                is Some,
{
    let mut i: usize = 0;
    while i < puts.len()
        invariant
            i <= puts@.len(),
            codec.total(),
            forall|k: int|
                0 <= k < i ==> item_keyable(#[trigger] puts@[k].1),
        decreases puts@.len() - i,
    {
        put_item(engine, puts[i].0.as_str(), &puts[i].1, None, codec)?;
        i = i + 1;
    }
    let mut j: usize = 0;
    while j < deletes.len()
        invariant
            j <= deletes@.len(),
            codec.total(),
            forall|k: int|
                0 <= k < puts@.len() ==> item_keyable(#[trigger] puts@[k].1),
            forall|k: int|
                0 <= k < j ==> enc_key((#[trigger] deletes@[k]).pk@, opt_key(deletes@[k].sk)) is Some,
        decreases deletes@.len() - j,
    {
        let k = &deletes[j];
        delete_item(engine, k.table.as_str(), &k.pk, k.sk.as_ref(), None, codec)?;
        j = j + 1;
    }
    Ok(())
}

} // verus!
