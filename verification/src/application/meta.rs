//! Where table definitions and item counts are kept: keys in a reserved
//! logical table.
use vstd::prelude::*;
use crate::application::counts::{
    be_bytes, count_bytes, count_of, decode_count, moved_count, next_count, stored_view,
};
use crate::domain::error::DbError;
use crate::domain::table::TableDef;
use crate::domain::text::{lemma_utf8_concat, owned, utf8};
use crate::ports::storage::{lookup, Contents, ReadTxn, WriteTxn};

verus! {

/// The reserved logical table of definitions and counts. A `:` never occurs
/// in a table name, so it cannot collide with a user table.
pub const META_TABLE: &'static str = "loom:meta";

fn prefixed_key(prefix: &str, name: &str) -> (r: Vec<u8>)
    ensures
        r@ == utf8(prefix@ + name@),
{
    let p = prefix.as_bytes();
    let n = name.as_bytes();
    let mut out: Vec<u8> = Vec::new();
    let mut i: usize = 0;
    while i < p.len()
        invariant
            i <= p@.len(),
            out@ == p@.take(i as int),
        decreases p@.len() - i,
    {
        out.push(p[i]);
        i = i + 1;
        assert(out@ =~= p@.take(i as int));
    }
    assert(p@.take(i as int) =~= p@);
    let mut j: usize = 0;
    while j < n.len()
        invariant
            j <= n@.len(),
            out@ == p@ + n@.take(j as int),
        decreases n@.len() - j,
    {
        out.push(n[j]);
        j = j + 1;
        assert(out@ =~= p@ + n@.take(j as int));
    }
    assert(n@.take(j as int) =~= n@);
    proof {
        lemma_utf8_concat(prefix@, name@);
    }
    out
}

/// The key of a table's definition: `table:{name}`.
pub fn def_key(name: &str) -> (r: Vec<u8>)
    ensures
        r@ == utf8("table:"@ + name@),
{
    prefixed_key("table:", name)
}

/// The key of a table's item count: `count:{name}`.
pub fn count_key(name: &str) -> (r: Vec<u8>)
    ensures
        r@ == utf8("count:"@ + name@),
{
    prefixed_key("count:", name)
}

/// The bytes a stored definition lookup gives: the stored bytes, or
/// `ResourceNotFound` naming the table when nothing is stored.
pub fn stored_def(name: &str, stored: Option<Vec<u8>>) -> (r: Result<Vec<u8>, DbError>)
    ensures
        match stored {
            Some(b) => r == Ok::<Vec<u8>, DbError>(b),
            None => r matches Err(DbError::ResourceNotFound(n)) && n@ == name@,
        },
{
    match stored {
        Some(b) => Ok(b),
        None => Err(DbError::ResourceNotFound(owned(name))),
    }
}

/// Reads a table's item count in a read transaction (0 when none is
/// recorded; corrupt bytes are a `Serialization` error).
pub fn load_count<T: ReadTxn>(txn: &T, name: &str) -> (r: Result<u64, DbError>)
    ensures
        r matches Ok(n) ==> count_of(lookup(txn.contents(), META_TABLE@, utf8("count:"@ + name@)))
            == Some(n as nat),
        r matches Err(e) ==> e is Storage || (e is Serialization && count_of(
            lookup(txn.contents(), META_TABLE@, utf8("count:"@ + name@)),
        ) is None),
        count_of(lookup(txn.contents(), META_TABLE@, utf8("count:"@ + name@))) is None ==> r is Err,
{
    let stored = txn.get(META_TABLE, &count_key(name))?;
    decode_count(stored)
}

/// Moves a table's item count by `delta` inside a write transaction, so
/// that it changes atomically with the data; it saturates at 0 and at
/// `u64::MAX`. A stored count that is not 8 bytes is a `Serialization`
/// error, and nothing is written then.
pub fn adjust_count<T: WriteTxn>(txn: &mut T, name: &str, delta: i64) -> (r: Result<(), DbError>)
    ensures
        r is Ok ==> (count_of(lookup(old(txn).contents(), META_TABLE@, utf8("count:"@ + name@)))
            matches Some(n) && final(txn).contents() == old(txn).contents().insert(
            (META_TABLE@, utf8("count:"@ + name@)),
            be_bytes(moved_count(n, delta as int), 8),
        )),
        r matches Err(e) ==> e is Storage || (e is Serialization && count_of(
            lookup(old(txn).contents(), META_TABLE@, utf8("count:"@ + name@)),
        ) is None && *final(txn) == *old(txn)),
        count_of(lookup(old(txn).contents(), META_TABLE@, utf8("count:"@ + name@))) is None ==> r is Err,
{
    let key = count_key(name);
    let stored = txn.get(META_TABLE, &key)?;
    let current = decode_count(stored)?;
    let next = next_count(current, delta);
    let bytes = count_bytes(next);
    txn.put(META_TABLE, &key, &bytes)
}

/// `r` is what reading the definition of `name` gives where the store holds
/// `c`: `ResourceNotFound` naming the table when no definition is stored,
/// else what the definition decoder gives for the stored bytes (or an
/// adapter's `Storage` error).
pub open spec fn def_loaded<D: Fn(&[u8]) -> Result<TableDef, DbError>>(
    decode_def: D,
    c: Contents,
    name: Seq<char>,
    r: Result<TableDef, DbError>,
) -> bool {
    match lookup(c, META_TABLE@, utf8("table:"@ + name)) {
        None => r matches Err(e) && (e is Storage || (e matches DbError::ResourceNotFound(n) && n@ == name)),
        Some(b) => (r matches Err(e) && e is Storage) || exists|s: &[u8]|
            s@ == b && #[trigger] decode_def.ensures((s,), r),
    }
}

/// Reads a table's definition in a read transaction; `ResourceNotFound`
/// when the table does not exist. `decode_def` turns the stored bytes into
/// the definition.
pub fn load_def_read<T: ReadTxn, D: Fn(&[u8]) -> Result<TableDef, DbError>>(
    txn: &T,
    name: &str,
    decode_def: &D,
) -> (r: Result<TableDef, DbError>)
    requires
        forall|b: &[u8]| decode_def.requires((b,)),
    ensures
        r is Ok ==> exists|b: &[u8]| decode_def.ensures((b,), r),
        def_loaded(*decode_def, txn.contents(), name@, r),
{
    let stored = txn.get(META_TABLE, &def_key(name))?;
    let bytes = stored_def(name, stored)?;
    decode_def(bytes.as_slice())
}

/// Reads a table's definition in a write transaction; `ResourceNotFound`
/// when the table does not exist.
pub fn load_def_write<T: WriteTxn, D: Fn(&[u8]) -> Result<TableDef, DbError>>(
    txn: &T,
    name: &str,
    decode_def: &D,
) -> (r: Result<TableDef, DbError>)
    requires
        forall|b: &[u8]| decode_def.requires((b,)),
    ensures
        r is Ok ==> exists|b: &[u8]| decode_def.ensures((b,), r),
        def_loaded(*decode_def, txn.contents(), name@, r),
{
    let stored = txn.get(META_TABLE, &def_key(name))?;
    let bytes = stored_def(name, stored)?;
    decode_def(bytes.as_slice())
}

} // verus!
