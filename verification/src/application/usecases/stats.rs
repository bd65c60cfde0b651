//! Table statistics: the item count kept by the write paths (read without a
//! scan) and the engine's physical size.
use vstd::prelude::*;
use crate::application::meta::{load_count, load_def_read};
use crate::application::counts::count_of;
use crate::application::meta::META_TABLE;
use crate::domain::text::utf8;
use crate::ports::storage::{lookup, Contents, ReadTxn};
use crate::domain::error::DbError;
use crate::domain::table::TableDef;
use crate::ports::storage::StorageEngine;

verus! {

/// A table's statistics.
#[derive(Debug, Clone, PartialEq, Eq)]
pub struct TableStats {
    pub item_count: u64,
    pub storage_bytes: u64,
}

/// The statistics of a table; `ResourceNotFound` when it does not exist.
pub fn stats<E: StorageEngine, D: Fn(&[u8]) -> Result<TableDef, DbError>>(
    engine: &E,
    table: &str,
    decode_def: &D,
) -> (r: Result<TableStats, DbError>)
    requires
        forall|b: &[u8]| decode_def.requires((b,)),
    ensures
        r is Ok ==> exists|b: &[u8], d: TableDef| decode_def.ensures((b,), Ok::<TableDef, DbError>(d)),
        r matches Ok(st) ==> exists|c: Contents|
            #[trigger] count_of(lookup(c, META_TABLE@, utf8("count:"@ + table@))) == Some(
                st.item_count as nat,
            ) && lookup(c, META_TABLE@, utf8("table:"@ + table@)) is Some,
{
    let txn = engine.begin_read()?;
    let _def = load_def_read(&txn, table, decode_def)?;
    assert(lookup(txn.contents(), META_TABLE@, utf8("table:"@ + table@)) is Some);
    let item_count = load_count(&txn, table)?;
    let storage_bytes = engine.storage_bytes()?;
    Ok(TableStats { item_count, storage_bytes })
}

} // verus!
