//! Creating a table: its key schema, indexes and TTL attribute are
//! registered in the meta table. A table of the same name is `ResourceInUse`.
use vstd::prelude::*;
use crate::application::meta::{def_key, META_TABLE};
use crate::domain::error::DbError;
use crate::domain::table::{table_name_ok, validate_table_name, TableDef};
use crate::domain::attribute::copy_string;
use crate::ports::storage::{lookup, StorageEngine, WriteTxn};
use crate::domain::text::utf8;

verus! {

/// The answer to a create request once the stored definition under the
/// name has been read: `ResourceInUse` naming the table when one is there.
pub fn create_decision(name: &String, existing: &Option<Vec<u8>>) -> (r: Result<(), DbError>)
    ensures
        existing is None ==> r is Ok,
        existing is Some ==> (r matches Err(DbError::ResourceInUse(n)) && n@ == name@),
{
    if existing.is_some() {
        Err(DbError::ResourceInUse(copy_string(name)))
    } else {
        Ok(())
    }
}

/// A create was refused because the table exists (or the adapter failed).
pub open spec fn in_use(r: Result<(), DbError>, name: Seq<char>) -> bool {
    match r {
        Err(DbError::ResourceInUse(n)) => n@ == name,
        Err(DbError::Storage(_)) => true,
        _ => false,
    }
}

/// A create inside a write transaction: where a definition is stored under
/// the name, `ResourceInUse` naming the table and nothing written; else the
/// encoded definition is stored under its definition key.
pub fn create_in<T: WriteTxn, F: Fn(&TableDef) -> Result<Vec<u8>, DbError>>(
    txn: &mut T,
    def: &TableDef,
    encode_def: &F,
) -> (r: Result<(), DbError>)
    requires
        forall|d: &TableDef| encode_def.requires((d,)),
    ensures
        lookup(old(txn).contents(), META_TABLE@, utf8("table:"@ + def.name@)) is Some ==> (
        *final(txn) == *old(txn) && in_use(r, def.name@)),
        r is Ok ==> lookup(old(txn).contents(), META_TABLE@, utf8("table:"@ + def.name@)) is None
            && exists|bytes: Vec<u8>|
            #[trigger] encode_def.ensures((def,), Ok::<Vec<u8>, DbError>(bytes))
                && final(txn).contents() == old(txn).contents().insert(
                (META_TABLE@, utf8("table:"@ + def.name@)),
                bytes@,
            ),
{
    let key = def_key(def.name.as_str());
    let existing = txn.get(META_TABLE, &key)?;
    create_decision(&def.name, &existing)?;
    let bytes = encode_def(def)?;
    txn.put(META_TABLE, &key, &bytes)?;
    assert(encode_def.ensures((def,), Ok::<Vec<u8>, DbError>(bytes)));
    Ok(())
}

/// Creates a table. An invalid name is a `Validation` error before the
/// store is touched; then `create_in` runs in a write transaction of its
/// own, committed when it succeeds. `encode_def` gives the stored form of
/// the definition.
pub fn create_table<E: StorageEngine, F: Fn(&TableDef) -> Result<Vec<u8>, DbError>>(
    engine: &E,
    def: &TableDef,
    encode_def: &F,
) -> (r: Result<(), DbError>)
    requires
        forall|d: &TableDef| encode_def.requires((d,)),
    ensures
        !table_name_ok(def.name@) ==> (r matches Err(e) && e is Validation),
        r is Ok ==> table_name_ok(def.name@) && exists|bytes: Vec<u8>|
            #[trigger] encode_def.ensures((def,), Ok::<Vec<u8>, DbError>(bytes)),
{
    validate_table_name(def.name.as_str())?;
    let mut txn = engine.begin_write()?;
    create_in(&mut txn, def, encode_def)?;
    txn.commit()
}

} // verus!
