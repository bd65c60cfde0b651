//! Physically removing expired items, at most `budget` of them, with their
//! index entries, in one write transaction; the number removed is returned.
use vstd::prelude::*;
use crate::application::meta::{adjust_count, load_def_write};
use crate::application::usecases::inputs::{update_index_entries, Codec};
use crate::domain::attribute::Item;
use crate::domain::error::DbError;
use crate::domain::table::TableDef;
use crate::domain::ttl::is_expired;
use crate::ports::storage::{Clock, StorageEngine, WriteTxn};

verus! {

/// Removes up to `budget` expired items; a table without a TTL attribute has
/// none.
pub fn sweep_expired<E, DD, ED, DI, EI>(
    engine: &E,
    table: &str,
    budget: usize,
    codec: &Codec<DD, ED, DI, EI>,
) -> (r: Result<usize, DbError>) where
    E: StorageEngine,
    DD: Fn(&[u8]) -> Result<TableDef, DbError>,
    ED: Fn(&TableDef) -> Result<Vec<u8>, DbError>,
    DI: Fn(&[u8]) -> Result<Item, DbError>,
    EI: Fn(&Item) -> Result<Vec<u8>, DbError>,

    requires
        codec.total(),
    ensures
        r matches Ok(n) ==> n <= budget,
{
    let now = engine.clock().now_epoch();
    let mut txn = engine.begin_write()?;
    let def = load_def_write(&txn, table, &codec.decode_def)?;
    if def.ttl_attr.is_none() {
        return Ok(0);
    }
    let all: Vec<u8> = Vec::new();
    let entries = txn.scan_prefix(def.name.as_str(), all.as_slice())?;
    let mut removed: usize = 0;
    let mut i: usize = 0;
    while i < entries.len()
        invariant
            i <= entries@.len(),
            removed <= i,
            removed <= budget,
            codec.total(),
        decreases entries@.len() - i,
    {
        if removed >= budget {
            break;
        }
        let key = entries[i].0.as_slice();
        let item = (codec.decode_item)(entries[i].1.as_slice())?;
        if is_expired(&def, &item, now) {
            update_index_entries(&mut txn, &def, key, Some(&item), None)?;
            txn.delete(def.name.as_str(), key)?;
            removed = removed + 1;
        }
        i = i + 1;
    }
    if removed > 0 {
        let delta: i64 = if removed as u64 > i64::MAX as u64 {
            i64::MIN
        } else {
            -(removed as i64)
        };
        adjust_count(&mut txn, def.name.as_str(), delta)?;
    }
    txn.commit()?;
    Ok(removed)
}

} // verus!
