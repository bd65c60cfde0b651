//! What the writing operations do to the store, as functions of what a
//! write transaction sees: the item under its key, its index entries and
//! the table's item count.
use vstd::prelude::*;
use crate::application::counts::{be_bytes, count_of, moved_count};
use crate::application::meta::META_TABLE;
use crate::application::usecases::inputs::index_writes;
use crate::domain::attribute::Item;
use crate::domain::error::DbError;
use crate::domain::table::TableDef;
use crate::domain::text::{lemma_utf8_concat, utf8};
use crate::domain::table::{name_byte_ok, table_name_ok, IndexDef};
use crate::application::usecases::inputs::index_table;
use vstd::utf8::{is_ascii_chars, is_ascii_chars_encode_utf8};
use crate::ports::storage::{lookup, Contents};

verus! {

/// The bytes of an optional stored value given by reference.
pub open spec fn stored_view(v: Option<&Vec<u8>>) -> Option<Seq<u8>> {
    match v {
        Some(b) => Some(b@),
        None => None,
    }
}

/// `old` is the item stored as `existing`: none where nothing is stored,
/// else what the item decoder gives for the stored bytes.
pub open spec fn stored_item<DI: Fn(&[u8]) -> Result<Item, DbError>>(
    decode: DI,
    existing: Option<Seq<u8>>,
    old: Option<Item>,
) -> bool {
    match (existing, old) {
        (None, None) => true,
        (Some(b), Some(it)) => exists|s: &[u8]|
            s@ == b && #[trigger] decode.ensures((s,), Ok::<Item, DbError>(it)),
        _ => false,
    }
}

/// The store with a table's item count moved by `delta` (saturating);
/// nothing where the stored count is corrupt.
pub open spec fn count_moved(c: Contents, table: Seq<char>, delta: int) -> Option<Contents> {
    let k = utf8("count:"@ + table);
    match count_of(lookup(c, META_TABLE@, k)) {
        Some(n) => Some(c.insert((META_TABLE@, k), be_bytes(moved_count(n, delta), 8))),
        None => None,
    }
}

/// The store after a put of `item` (stored as `bytes`) under `key` of the
/// table `def`, over `old`, the item stored there before: the index
/// entries follow the change, the item is stored, and the count grows by
/// one where the item is new. Nothing where an index entry cannot be formed
/// or the count is corrupt.
pub open spec fn put_effect(
    c: Contents,
    def: TableDef,
    key: Seq<u8>,
    old: Option<Item>,
    item: Item,
    bytes: Seq<u8>,
) -> Option<Contents> {
    match index_writes(c, def.name@, def.indexes@, key, old, Some(item)) {
        Ok(c1) => {
            let c2 = c1.insert((def.name@, key), bytes);
            if old is None {
                count_moved(c2, def.name@, 1)
            } else {
                Some(c2)
            }
        },
        Err(_) => None,
    }
}

/// The store after the delete of the item `old` stored under `key` (if
/// any): its index entries go, the item goes and the count drops by one;
/// where nothing is stored, the store is as it was.
pub open spec fn delete_effect(c: Contents, def: TableDef, key: Seq<u8>, old: Option<Item>) -> Option<
    Contents,
> {
    match old {
        None => Some(c),
        Some(o) => match index_writes(c, def.name@, def.indexes@, key, old, None) {
            Ok(c1) => count_moved(c1.remove((def.name@, key)), def.name@, -1),
            Err(_) => None,
        },
    }
}

/// The bytes of an ASCII text are its characters.
proof fn lemma_ascii_bytes(t: Seq<char>)
    requires
        is_ascii_chars(t),
    ensures
        utf8(t).len() == t.len(),
        forall|i: int| 0 <= i < t.len() ==> utf8(t)[i] == t[i] as u8,
{
    is_ascii_chars_encode_utf8(t);
}

/// A valid table name holds no `:`, so it is neither the reserved meta table
/// nor the table of an index.
pub proof fn lemma_table_not_reserved(name: Seq<char>, t: Seq<char>, ix: Seq<char>)
    requires
        table_name_ok(name),
    ensures
        name != META_TABLE@,
        name != index_table(t, ix),
{
    reveal_strlit("loom:meta");
    reveal_strlit("idx:");
    reveal_strlit(":");
    if name == META_TABLE@ {
        let m = "loom:meta"@;
        assert(is_ascii_chars(m));
        lemma_ascii_bytes(m);
        assert(utf8(name)[4] == 58u8);
        assert(!name_byte_ok(utf8(name)[4]));
    }
    if name == index_table(t, ix) {
        let p = "idx:"@;
        let rest = t + ":"@ + ix;
        assert(index_table(t, ix) =~= p + rest);
        lemma_utf8_concat(p, rest);
        assert(is_ascii_chars(p));
        lemma_ascii_bytes(p);
        assert(utf8(name)[3] == 58u8);
        assert(!name_byte_ok(utf8(name)[3]));
    }
}

/// Bringing the indexes of `t` in line leaves every other table as it was.
pub proof fn lemma_index_writes_frame(
    c: Contents,
    t: Seq<char>,
    ixs: Seq<IndexDef>,
    key: Seq<u8>,
    old: Option<Item>,
    new: Option<Item>,
    c1: Contents,
    t2: Seq<char>,
    k2: Seq<u8>,
)
    requires
        index_writes(c, t, ixs, key, old, new) == Ok::<Contents, ()>(c1),
        forall|i: int| 0 <= i < ixs.len() ==> index_table(t, (#[trigger] ixs[i]).name@) != t2,
    ensures
        lookup(c1, t2, k2) == lookup(c, t2, k2),
    decreases ixs.len(),
{
    if ixs.len() > 0 {
        let init = ixs.drop_last();
        let c0 = index_writes(c, t, init, key, old, new)->Ok_0;
        assert forall|i: int| 0 <= i < init.len() implies index_table(t, (#[trigger] init[i]).name@)
            != t2 by {
            assert(init[i] == ixs[i]);
        }
        lemma_index_writes_frame(c, t, init, key, old, new, c0, t2, k2);
        assert(index_table(t, ixs[ixs.len() - 1].name@) != t2);
    }
}

/// A read after a put gives back what the put stored: under the item's key
/// of its table the store holds the bytes written.
pub proof fn lemma_put_then_read(
    c0: Contents,
    def: TableDef,
    key: Seq<u8>,
    old: Option<Item>,
    item: Item,
    bytes: Seq<u8>,
    c1: Contents,
)
    requires
        table_name_ok(def.name@),
        put_effect(c0, def, key, old, item, bytes) == Some(c1),
    ensures
        lookup(c1, def.name@, key) == Some(bytes),
{
    lemma_table_not_reserved(def.name@, def.name@, Seq::empty());
}

/// A read after a delete finds nothing: where an item was stored under the
/// key, the store holds nothing there afterwards; where none was, the store
/// is unchanged.
pub proof fn lemma_delete_then_read(c0: Contents, def: TableDef, key: Seq<u8>, old: Option<Item>, c1: Contents)
    requires
        table_name_ok(def.name@),
        delete_effect(c0, def, key, old) == Some(c1),
    ensures
        old is Some ==> lookup(c1, def.name@, key) is None,
        old is None ==> c1 == c0,
{
    lemma_table_not_reserved(def.name@, def.name@, Seq::empty());
}

/// Writing an item of a table leaves the items of every other table as they
/// were.
pub proof fn lemma_put_frame(
    c0: Contents,
    def: TableDef,
    key: Seq<u8>,
    old: Option<Item>,
    item: Item,
    bytes: Seq<u8>,
    c1: Contents,
    t2: Seq<char>,
    k2: Seq<u8>,
)
    requires
        table_name_ok(def.name@),
        table_name_ok(t2),
        t2 != def.name@,
        put_effect(c0, def, key, old, item, bytes) == Some(c1),
    ensures
        lookup(c1, t2, k2) == lookup(c0, t2, k2),
{
    let c_idx = index_writes(c0, def.name@, def.indexes@, key, old, Some(item))->Ok_0;
    assert forall|i: int| 0 <= i < def.indexes@.len() implies index_table(
        def.name@,
        (#[trigger] def.indexes@[i]).name@,
    ) != t2 by {
        lemma_table_not_reserved(t2, def.name@, def.indexes@[i].name@);
    }
    lemma_index_writes_frame(c0, def.name@, def.indexes@, key, old, Some(item), c_idx, t2, k2);
    lemma_table_not_reserved(t2, def.name@, Seq::empty());
}

} // verus!
