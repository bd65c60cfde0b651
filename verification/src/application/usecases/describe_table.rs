//! Describing a table: its stored definition.
use vstd::prelude::*;
use crate::application::meta::{def_loaded, load_def_read};
use crate::domain::error::DbError;
use crate::domain::table::TableDef;
use crate::ports::storage::{Contents, ReadTxn, StorageEngine};

verus! {

/// The definition of a table; `ResourceNotFound` when there is none.
pub fn describe_table<E: StorageEngine, D: Fn(&[u8]) -> Result<TableDef, DbError>>(
    engine: &E,
    name: &str,
    decode_def: &D,
) -> (r: Result<TableDef, DbError>)
    requires
        forall|b: &[u8]| decode_def.requires((b,)),
    ensures
        r is Ok ==> exists|b: &[u8]| decode_def.ensures((b,), r),
        exists|c: Contents| #[trigger] def_loaded(*decode_def, c, name@, r),
{
    let txn = match engine.begin_read() {
        Ok(t) => t,
        Err(e) => {
            assert(def_loaded(*decode_def, Map::empty(), name@, Err::<TableDef, DbError>(e)));
            return Err(e);
        },
    };
    let r = load_def_read(&txn, name, decode_def);
    assert(def_loaded(*decode_def, txn.contents(), name@, r));
    r
}

} // verus!
