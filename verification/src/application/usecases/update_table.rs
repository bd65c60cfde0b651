//! Adding and removing secondary indexes of an existing table. An added
//! index is backfilled from the items already there; the definition change,
//! the backfill and the removal of entries happen in one write transaction,
//! so only complete indexes are ever visible.
use vstd::prelude::*;
use crate::application::meta::{def_key, def_loaded, load_def_write, META_TABLE};
use crate::domain::text::utf8;
use crate::application::usecases::delete_table::clear_logical_table;
use crate::application::usecases::inputs::Codec;
use crate::domain::attribute::Item;
use crate::domain::error::{DbError, validation};
use crate::domain::index::{index_entry_key, index_table_name};
use crate::domain::key::KeySchema;
use crate::domain::table::{IndexDef, Projection, TableDef};
use crate::domain::text::str_eq;
use crate::ports::storage::{lemma_lookup_insert, lookup, StorageEngine, WriteTxn};

verus! {

/// Whether an index of that name is among the definitions.
pub open spec fn has_index(s: Seq<IndexDef>, name: Seq<char>) -> bool {
    exists|i: int| 0 <= i < s.len() && (#[trigger] s[i]).name@ == name
}

/// Whether the index at `i` shares its name with another one of `s`.
pub open spec fn named_twice(s: Seq<IndexDef>, i: int) -> bool {
    exists|j: int| 0 <= j < s.len() && j != i && (#[trigger] s[j]).name@ == s[i].name@
}

/// A change of indexes is valid when every added name is new and given once,
/// and every removed name exists.
pub open spec fn changes_ok(existing: Seq<IndexDef>, add: Seq<IndexDef>, remove: Seq<String>) -> bool {
    &&& forall|i: int|
        0 <= i < add.len() ==> !has_index(existing, (#[trigger] add[i]).name@) && !named_twice(
            add,
            i,
        )
    &&& forall|i: int| 0 <= i < remove.len() ==> has_index(existing, (#[trigger] remove[i])@)
}

/// Whether an index of that name is among the definitions.
pub fn index_named(s: &[IndexDef], name: &str) -> (r: bool)
    ensures
        r == has_index(s@, name@),
{
    let mut i: usize = 0;
    while i < s.len()
        invariant
            i <= s@.len(),
            forall|k: int| 0 <= k < i ==> (#[trigger] s@[k]).name@ != name@,
        decreases s@.len() - i,
    {
        if str_eq(s[i].name.as_str(), name) {
            return true;
        }
        i = i + 1;
    }
    false
}

/// Checks a change of indexes, as `changes_ok` says.
pub fn check_index_changes(existing: &Vec<IndexDef>, add: &[IndexDef], remove: &[String]) -> (r: Result<
    (),
    DbError,
>)
    ensures
        r is Ok <==> changes_ok(existing@, add@, remove@),
        r matches Err(e) ==> e is Validation,
{
    let mut i: usize = 0;
    while i < add.len()
        invariant
            i <= add@.len(),
            forall|k: int|
                0 <= k < i ==> !has_index(existing@, (#[trigger] add@[k]).name@) && !named_twice(
                    add@,
                    k,
                ),
        decreases add@.len() - i,
    {
        let name = add[i].name.as_str();
        if index_named(existing.as_slice(), name) {
            return Err(validation("the index already exists on the table"));
        }
        let mut j: usize = 0;
        while j < add.len()
            invariant
                i < add@.len(),
                j <= add@.len(),
                name@ == add@[i as int].name@,
                forall|k: int| 0 <= k < j && k != i ==> (#[trigger] add@[k]).name@ != name@,
            decreases add@.len() - j,
        {
            if j != i && str_eq(add[j].name.as_str(), name) {
                assert(named_twice(add@, i as int));
                return Err(validation("the index already exists on the table"));
            }
            j = j + 1;
        }
        i = i + 1;
    }
    let mut k: usize = 0;
    while k < remove.len()
        invariant
            k <= remove@.len(),
            forall|m: int|
                0 <= m < add@.len() ==> !has_index(existing@, (#[trigger] add@[m]).name@)
                    && !named_twice(add@, m),
            forall|m: int| 0 <= m < k ==> has_index(existing@, (#[trigger] remove@[m])@),
        decreases remove@.len() - k,
    {
        if !index_named(existing.as_slice(), remove[k].as_str()) {
            return Err(validation("the index does not exist on the table"));
        }
        k = k + 1;
    }
    Ok(())
}

/// The definitions without the ones of that name, in order.
pub fn without_index(s: Vec<IndexDef>, name: &str) -> (r: Vec<IndexDef>)
    ensures
        r@ == s@.filter(|d: IndexDef| d.name@ != name@),
{
    let ghost all = s@;
    let mut out: Vec<IndexDef> = Vec::new();
    let mut rest = s;
    let n = rest.len();
    let mut i: usize = 0;
    while rest.len() > 0
        invariant
            all.len() == n,
            rest@.len() + i == n,
            rest@ == all.skip(i as int),
            out@ == all.take(i as int).filter(|d: IndexDef| d.name@ != name@),
        decreases rest@.len(),
    {
        let d = rest.remove(0);
        proof {
            assert(all.take(i as int + 1) =~= all.take(i as int).push(d));
            assert(rest@ =~= all.skip(i as int + 1));
            all.take(i as int).lemma_filter_push(d, |d: IndexDef| d.name@ != name@);
        }
        let keep = !str_eq(d.name.as_str(), name);
        if keep {
            out.push(d);
        }
        i = i + 1;
    }
    assert(all.take(i as int) =~= all);
    out
}

/// The definitions left once each name of `names` is removed in turn.
pub open spec fn without_names(s: Seq<IndexDef>, names: Seq<String>) -> Seq<IndexDef>
    decreases names.len(),
{
    if names.len() == 0 {
        s
    } else {
        without_names(s, names.drop_last()).filter(|d: IndexDef| d.name@ != names.last()@)
    }
}

/// Two projections store the same attributes.
pub open spec fn same_projection(a: Projection, b: Projection) -> bool {
    match (a, b) {
        (Projection::KeysOnly, Projection::KeysOnly) => true,
        (Projection::All, Projection::All) => true,
        (Projection::Include(x), Projection::Include(y)) => x@ == y@,
        _ => false,
    }
}

/// Two index definitions say the same: name, key schema and projection.
pub open spec fn same_index(a: IndexDef, b: IndexDef) -> bool {
    a.name == b.name && a.key == b.key && same_projection(a.projection, b.projection)
}

/// `out` is the index list after a change: the existing indexes without
/// the removed ones, in order, then the added ones, in order.
pub open spec fn indexes_updated(
    existing: Seq<IndexDef>,
    add: Seq<IndexDef>,
    remove: Seq<String>,
    out: Seq<IndexDef>,
) -> bool {
    let kept = without_names(existing, remove);
    &&& out.len() == kept.len() + add.len()
    &&& forall|i: int| 0 <= i < kept.len() ==> out[i] == #[trigger] kept[i]
    &&& forall|j: int| 0 <= j < add.len() ==> same_index(out[kept.len() + j], #[trigger] add[j])
}

/// A copy of an index definition.
pub fn copy_index(d: &IndexDef) -> (r: IndexDef)
    ensures
        same_index(r, *d),
{
    let projection = match &d.projection {
        Projection::KeysOnly => Projection::KeysOnly,
        Projection::All => Projection::All,
        Projection::Include(attrs) => {
            let copy = attrs.clone();
            assert(copy@ =~= attrs@);
            Projection::Include(copy)
        },
    };
    let sk = match &d.key.sk {
        Some(s) => Some(s.clone()),
        None => None,
    };
    IndexDef { name: d.name.clone(), key: KeySchema { pk: d.key.pk.clone(), sk }, projection }
}

/// The definition a table has after an index change, or the validation
/// error that refuses the change (an added name that exists or is given
/// twice, a removed name that does not exist).
pub fn plan_index_change(def: TableDef, add: &[IndexDef], remove: &[String]) -> (r: Result<
    TableDef,
    DbError,
>)
    ensures
        r is Ok <==> changes_ok(def.indexes@, add@, remove@),
        r matches Err(e) ==> e is Validation,
        r matches Ok(n) ==> n.name == def.name && n.key == def.key && n.ttl_attr == def.ttl_attr
            && indexes_updated(def.indexes@, add@, remove@, n.indexes@),
{
    check_index_changes(&def.indexes, add, remove)?;
    let ghost existing = def.indexes@;
    let TableDef { name, key, indexes, ttl_attr } = def;
    let mut indexes = indexes;
    let mut k: usize = 0;
    while k < remove.len()
        invariant
            k <= remove@.len(),
            indexes@ == without_names(existing, remove@.take(k as int)),
        decreases remove@.len() - k,
    {
        indexes = without_index(indexes, remove[k].as_str());
        proof {
            assert(remove@.take(k + 1).drop_last() =~= remove@.take(k as int));
        }
        k = k + 1;
    }
    assert(remove@.take(k as int) =~= remove@);
    let ghost kept = indexes@;
    let mut a: usize = 0;
    while a < add.len()
        invariant
            a <= add@.len(),
            indexes@.len() == kept.len() + a,
            forall|i: int| 0 <= i < kept.len() ==> indexes@[i] == #[trigger] kept[i],
            forall|j: int| 0 <= j < a ==> same_index(indexes@[kept.len() + j], #[trigger] add@[j]),
        decreases add@.len() - a,
    {
        let copy = copy_index(&add[a]);
        indexes.push(copy);
        a = a + 1;
    }
    Ok(TableDef { name, key, indexes, ttl_attr })
}

/// The definition `written` (encoded as `bytes`) is the one `loaded` (as the
/// decoder gave it) after the index change, which `loaded` admits.
pub open spec fn index_change_written<DD, ED, DI, EI>(
    codec: &Codec<DD, ED, DI, EI>,
    loaded: TableDef,
    written: TableDef,
    bytes: Vec<u8>,
    add: Seq<IndexDef>,
    remove: Seq<String>,
) -> bool where
    DD: Fn(&[u8]) -> Result<TableDef, DbError>,
    ED: Fn(&TableDef) -> Result<Vec<u8>, DbError>,
    DI: Fn(&[u8]) -> Result<Item, DbError>,
    EI: Fn(&Item) -> Result<Vec<u8>, DbError>,
 {
    &&& exists|b: &[u8]| codec.decode_def.ensures((b,), Ok::<TableDef, DbError>(loaded))
    &&& changes_ok(loaded.indexes@, add, remove)
    &&& written.name == loaded.name && written.key == loaded.key && written.ttl_attr == loaded.ttl_attr
    &&& indexes_updated(loaded.indexes@, add, remove, written.indexes@)
    &&& codec.encode_def.ensures((&written,), Ok::<Vec<u8>, DbError>(bytes))
}

/// An index change inside a write transaction: the definition is read, the
/// change planned (`plan_index_change`; a refused change is a `Validation`
/// error), the entries of each removed index cleared, each added index
/// backfilled from the table's items, and the new definition stored. Nothing
/// is written before a definition read from the store admitted the change.
pub fn change_indexes_in<T: WriteTxn, DD, ED, DI, EI>(
    txn: &mut T,
    table: &str,
    add_indexes: &[IndexDef],
    remove_indexes: &[String],
    codec: &Codec<DD, ED, DI, EI>,
) -> (r: Result<(), DbError>) where
    DD: Fn(&[u8]) -> Result<TableDef, DbError>,
    ED: Fn(&TableDef) -> Result<Vec<u8>, DbError>,
    DI: Fn(&[u8]) -> Result<Item, DbError>,
    EI: Fn(&Item) -> Result<Vec<u8>, DbError>,

    requires
        codec.total(),
    ensures
        *final(txn) != *old(txn) ==> exists|d: TableDef|
            #[trigger] def_loaded(codec.decode_def, old(txn).contents(), table@, Ok::<TableDef, DbError>(d))
                && changes_ok(d.indexes@, add_indexes@, remove_indexes@),
        r is Ok ==> exists|loaded: TableDef, written: TableDef, bytes: Vec<u8>|
            #[trigger] index_change_written(codec, loaded, written, bytes, add_indexes@, remove_indexes@)
                && def_loaded(codec.decode_def, old(txn).contents(), table@, Ok::<TableDef, DbError>(loaded))
                && lookup(final(txn).contents(), META_TABLE@, utf8("table:"@ + table@)) == Some(bytes@),
{
    let ghost c0 = txn.contents();
    let def = load_def_write(txn, table, &codec.decode_def)?;
    let ghost loaded = def;
    let new_def = plan_index_change(def, add_indexes, remove_indexes)?;
    assert(def_loaded(codec.decode_def, c0, table@, Ok::<TableDef, DbError>(loaded)));
    let mut k: usize = 0;
    while k < remove_indexes.len()
        invariant
            k <= remove_indexes@.len(),
            codec.total(),
            c0 == old(txn).contents(),
            def_loaded(codec.decode_def, c0, table@, Ok::<TableDef, DbError>(loaded)),
            changes_ok(loaded.indexes@, add_indexes@, remove_indexes@),
        decreases remove_indexes@.len() - k,
    {
        let name = remove_indexes[k].as_str();
        let idx_table = index_table_name(table, name);
        clear_logical_table(txn, idx_table.as_str())?;
        k = k + 1;
    }
    if add_indexes.len() > 0 {
        let all: Vec<u8> = Vec::new();
        let entries = txn.scan_prefix(table, all.as_slice())?;
        let none: Vec<u8> = Vec::new();
        let mut a: usize = 0;
        while a < add_indexes.len()
            invariant
                a <= add_indexes@.len(),
                codec.total(),
                c0 == old(txn).contents(),
                def_loaded(codec.decode_def, c0, table@, Ok::<TableDef, DbError>(loaded)),
                changes_ok(loaded.indexes@, add_indexes@, remove_indexes@),
            decreases add_indexes@.len() - a,
        {
            let idx = &add_indexes[a];
            let idx_table = index_table_name(table, idx.name.as_str());
            let mut e: usize = 0;
            while e < entries.len()
                invariant
                    e <= entries@.len(),
                    codec.total(),
                    c0 == old(txn).contents(),
                    def_loaded(codec.decode_def, c0, table@, Ok::<TableDef, DbError>(loaded)),
                    changes_ok(loaded.indexes@, add_indexes@, remove_indexes@),
                decreases entries@.len() - e,
            {
                let main_key = entries[e].0.as_slice();
                let item = (codec.decode_item)(entries[e].1.as_slice())?;
                if let Some(entry_key) = index_entry_key(idx, &item, main_key)? {
                    txn.put(idx_table.as_str(), entry_key.as_slice(), none.as_slice())?;
                }
                e = e + 1;
            }
            a = a + 1;
        }
    }
    let bytes = (codec.encode_def)(&new_def)?;
    let dk = def_key(table);
    txn.put(META_TABLE, &dk, bytes.as_slice())?;
    proof {
        lemma_lookup_insert(txn.contents(), META_TABLE@, dk@, bytes@, META_TABLE@, dk@);
    }
    assert(index_change_written(codec, loaded, new_def, bytes, add_indexes@, remove_indexes@));
    Ok(())
}

/// Adds and removes indexes of a table; an added index is backfilled:
/// `change_indexes_in` in a write transaction of its own, committed when it
/// succeeds.
pub fn update_table<E, DD, ED, DI, EI>(
    engine: &E,
    table: &str,
    add_indexes: &[IndexDef],
    remove_indexes: &[String],
    codec: &Codec<DD, ED, DI, EI>,
) -> (r: Result<(), DbError>) where
    E: StorageEngine,
    DD: Fn(&[u8]) -> Result<TableDef, DbError>,
    ED: Fn(&TableDef) -> Result<Vec<u8>, DbError>,
    DI: Fn(&[u8]) -> Result<Item, DbError>,
    EI: Fn(&Item) -> Result<Vec<u8>, DbError>,

    requires
        codec.total(),
    ensures
        r is Ok ==> exists|loaded: TableDef, written: TableDef, bytes: Vec<u8>|
            #[trigger] index_change_written(codec, loaded, written, bytes, add_indexes@, remove_indexes@),
{
    let mut txn = engine.begin_write()?;
    change_indexes_in(&mut txn, table, add_indexes, remove_indexes, codec)?;
    txn.commit()
}

} // verus!
