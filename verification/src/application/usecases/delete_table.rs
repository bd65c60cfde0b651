//! Deleting a table: its definition, item count, every item and every index
//! entry go in one transaction, so a table created again under the same
//! name starts empty.
use vstd::prelude::*;
use crate::application::meta::{count_key, def_key, def_loaded, load_def_write, META_TABLE};
use crate::application::usecases::inputs::index_table;
use crate::domain::text::utf8;
use crate::domain::error::DbError;
use crate::domain::index::index_table_name;
use crate::domain::table::TableDef;
use crate::ports::storage::{
    entries_view, lemma_lookup_remove, lookup, scan_of, Contents, StorageEngine, WriteTxn,
};

verus! {

/// `c1` is `c0` with every entry of `table` gone and every other table as
/// it was.
pub open spec fn cleared(c0: Contents, c1: Contents, table: Seq<char>) -> bool {
    &&& forall|k: Seq<u8>| #[trigger] lookup(c1, table, k) is None
    &&& forall|t: Seq<char>, k: Seq<u8>| t != table ==> #[trigger] lookup(c1, t, k) == lookup(c0, t, k)
}

/// Deletes every entry of a logical table inside a write transaction.
pub fn clear_logical_table<T: WriteTxn>(txn: &mut T, table: &str) -> (r: Result<(), DbError>)
    ensures
        r is Ok ==> cleared(old(txn).contents(), final(txn).contents(), table@),
        r matches Err(e) ==> e is Storage,
{
    let ghost c0 = txn.contents();
    let all: Vec<u8> = Vec::new();
    let entries = txn.scan_prefix(table, all.as_slice())?;
    let ghost es = entries_view(entries@);
    assert(all@ =~= Seq::<u8>::empty());
    let mut i: usize = 0;
    while i < entries.len()
        invariant
            i <= entries@.len(),
            es == entries_view(entries@),
            scan_of(c0, table@, Seq::empty(), es),
            forall|j: int| 0 <= j < i ==> #[trigger] lookup(txn.contents(), table@, es[j].0) is None,
            forall|t: Seq<char>, k: Seq<u8>|
                (t != table@ || forall|j: int| 0 <= j < i ==> es[j].0 != k) ==> #[trigger] lookup(
                    txn.contents(),
                    t,
                    k,
                ) == lookup(c0, t, k),
        decreases entries@.len() - i,
    {
        let ghost cb = txn.contents();
        txn.delete(table, entries[i].0.as_slice())?;
        let ghost ki = es[i as int].0;
        assert(ki == entries@[i as int].0@);
        assert forall|j: int| 0 <= j < i + 1 implies #[trigger] lookup(txn.contents(), table@, es[j].0)
            is None by {
            lemma_lookup_remove(cb, table@, ki, table@, es[j].0);
        }
        assert forall|t: Seq<char>, k: Seq<u8>|
            (t != table@ || forall|j: int| 0 <= j < i + 1 ==> es[j].0 != k) implies #[trigger] lookup(
                txn.contents(),
                t,
                k,
            ) == lookup(c0, t, k) by {
            lemma_lookup_remove(cb, table@, ki, t, k);
            if t == table@ {
                assert(es[i as int].0 != k);
            }
        }
        i = i + 1;
    }
    assert forall|k: Seq<u8>| #[trigger] lookup(txn.contents(), table@, k) is None by {
        if exists|j: int| 0 <= j < i && es[j].0 == k {
            let j = choose|j: int| 0 <= j < i && es[j].0 == k;
            assert(lookup(txn.contents(), table@, es[j].0) is None);
        } else {
            if lookup(c0, table@, k) is Some {
                assert(Seq::<u8>::empty().is_prefix_of(k));
                let j = choose|j: int| 0 <= j < es.len() && (#[trigger] es[j]).0 == k;
                assert(false);
            }
        }
    }
    Ok(())
}

/// What a deleted table leaves: no definition, no count, no item of the
/// table and no entry of any of its indexes.
pub open spec fn table_gone(c: Contents, name: Seq<char>, def: TableDef) -> bool {
    &&& lookup(c, META_TABLE@, utf8("table:"@ + name)) is None
    &&& lookup(c, META_TABLE@, utf8("count:"@ + name)) is None
    &&& forall|k: Seq<u8>| #[trigger] lookup(c, name, k) is None
    &&& forall|i: int, k: Seq<u8>|
        0 <= i < def.indexes@.len() ==> #[trigger] lookup(c, index_table(name, def.indexes@[i].name@), k)
            is None
}

/// A delete of a table inside a write transaction: its definition is read
/// (`ResourceNotFound` when none is stored, with nothing written), then the
/// definition, the count, the items and the index entries go.
pub fn delete_table_in<T: WriteTxn, D: Fn(&[u8]) -> Result<TableDef, DbError>>(
    txn: &mut T,
    name: &str,
    decode_def: &D,
) -> (r: Result<(), DbError>)
    requires
        forall|b: &[u8]| decode_def.requires((b,)),
    ensures
        r matches Err(DbError::ResourceNotFound(_)) ==> *final(txn) == *old(txn),
        lookup(old(txn).contents(), META_TABLE@, utf8("table:"@ + name@)) is None ==> r is Err
            && *final(txn) == *old(txn),
        r is Ok ==> exists|def: TableDef|
            #[trigger] def_loaded(*decode_def, old(txn).contents(), name@, Ok::<TableDef, DbError>(def))
                && table_gone(final(txn).contents(), name@, def),
{
    let ghost c0 = txn.contents();
    // The definition is read first: it lists the indexes.
    let def = load_def_write(txn, name, decode_def)?;
    assert(def_loaded(*decode_def, c0, name@, Ok::<TableDef, DbError>(def)));
    assert(lookup(c0, META_TABLE@, utf8("table:"@ + name@)) is Some);
    let dk = def_key(name);
    let ck = count_key(name);
    txn.delete(META_TABLE, &dk)?;
    txn.delete(META_TABLE, &ck)?;
    let ghost c1 = txn.contents();
    assert(lookup(c1, META_TABLE@, dk@) is None && lookup(c1, META_TABLE@, ck@) is None) by {
        lemma_lookup_remove(c1, META_TABLE@, ck@, META_TABLE@, dk@);
    }
    clear_logical_table(txn, name)?;
    let mut i: usize = 0;
    while i < def.indexes.len()
        invariant
            i <= def.indexes@.len(),
            lookup(old(txn).contents(), META_TABLE@, utf8("table:"@ + name@)) is Some,
            lookup(txn.contents(), META_TABLE@, dk@) is None,
            lookup(txn.contents(), META_TABLE@, ck@) is None,
            dk@ == utf8("table:"@ + name@),
            ck@ == utf8("count:"@ + name@),
            forall|k: Seq<u8>| #[trigger] lookup(txn.contents(), name@, k) is None,
            forall|j: int, k: Seq<u8>|
                0 <= j < i ==> #[trigger] lookup(txn.contents(), index_table(name@, def.indexes@[j].name@), k)
                    is None,
        decreases def.indexes@.len() - i,
    {
        let idx_table = index_table_name(name, def.indexes[i].name.as_str());
        let ghost cb = txn.contents();
        clear_logical_table(txn, idx_table.as_str())?;
        assert(idx_table@ == index_table(name@, def.indexes@[i as int].name@));
        assert forall|j: int, k: Seq<u8>| 0 <= j < i + 1 implies #[trigger] lookup(
            txn.contents(),
            index_table(name@, def.indexes@[j].name@),
            k,
        ) is None by {
            if index_table(name@, def.indexes@[j].name@) != idx_table@ {
                assert(lookup(cb, index_table(name@, def.indexes@[j].name@), k) is None);
            }
        }
        assert forall|k: Seq<u8>| #[trigger] lookup(txn.contents(), name@, k) is None by {
            if name@ != idx_table@ {
                assert(lookup(cb, name@, k) is None);
            }
        }
        proof {
            if META_TABLE@ != idx_table@ {
                assert(lookup(cb, META_TABLE@, dk@) is None);
                assert(lookup(cb, META_TABLE@, ck@) is None);
            }
        }
        i = i + 1;
    }
    assert(table_gone(txn.contents(), name@, def));
    Ok(())
}

/// Deletes a table with its items and index entries: `delete_table_in` in a
/// write transaction of its own, committed when it succeeds;
/// `ResourceNotFound` when the table does not exist.
pub fn delete_table<E: StorageEngine, D: Fn(&[u8]) -> Result<TableDef, DbError>>(
    engine: &E,
    name: &str,
    decode_def: &D,
) -> (r: Result<(), DbError>)
    requires
        forall|b: &[u8]| decode_def.requires((b,)),
    ensures
        r is Ok ==> exists|b: &[u8], d: TableDef| decode_def.ensures((b,), Ok::<TableDef, DbError>(d)),
{
    let mut txn = engine.begin_write()?;
    delete_table_in(&mut txn, name, decode_def)?;
    txn.commit()
}

} // verus!
