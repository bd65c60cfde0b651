//! Listing tables: the `table:` keys of the meta table. The scan is in key
//! order, so the names come sorted.
use vstd::prelude::*;
use vstd::utf8::valid_utf8;
use crate::application::meta::{def_key, META_TABLE};
use crate::domain::byte_order::{lemma_lex_order_common_prefix, lex_order, starts_with_bytes};
use crate::domain::error::DbError;
use crate::domain::text::{lemma_utf8_concat, string_from_utf8, utf8};
use crate::ports::storage::{entries_view, scan_of, Contents, KvEntries, ReadTxn, StorageEngine};

verus! {

/// The name bytes of a definition key: what follows `table:`, if the key
/// starts with it.
pub open spec fn def_key_name(k: Seq<u8>) -> Option<Seq<u8>> {
    let p = utf8("table:"@);
    if p.len() <= k.len() && k.subrange(0, p.len() as int) == p {
        Some(k.skip(p.len() as int))
    } else {
        None
    }
}

/// A listed name is the name a definition was stored under: the key that
/// `def_key` writes for a name reads back as that name.
pub proof fn lemma_def_key_name(name: Seq<char>)
    ensures
        def_key_name(utf8("table:"@ + name)) == Some(utf8(name)),
{
    lemma_utf8_concat("table:"@, name);
    let p = utf8("table:"@);
    let k = utf8("table:"@ + name);
    assert(k.subrange(0, p.len() as int) =~= p);
    assert(k.skip(p.len() as int) =~= utf8(name));
}

/// Definition keys sort as the names they hold (by their UTF-8 bytes), so a
/// scan of them in key order lists the names sorted.
pub proof fn lemma_def_key_order(a: Seq<char>, b: Seq<char>)
    ensures
        lex_order(utf8("table:"@ + a), utf8("table:"@ + b)) == lex_order(utf8(a), utf8(b)),
{
    lemma_utf8_concat("table:"@, a);
    lemma_utf8_concat("table:"@, b);
    lemma_lex_order_common_prefix(utf8("table:"@), utf8(a), utf8(b));
}

/// Whether a definition key holds a readable name.
pub open spec fn name_readable(k: Seq<u8>) -> bool {
    def_key_name(k) matches Some(n) && valid_utf8(n)
}

/// The table names held by the definition keys of a meta scan, in scan
/// order; a key that is not `table:` and UTF-8 is a `Storage` error.
pub fn table_names(entries: &KvEntries) -> (r: Result<Vec<String>, DbError>)
    ensures
        r is Ok <==> forall|i: int| 0 <= i < entries@.len() ==> name_readable(
            #[trigger] entries@[i].0@,
        ),
        r matches Ok(v) ==> v@.len() == entries@.len() && forall|i: int|
            0 <= i < v@.len() ==> def_key_name(entries@[i].0@) == Some(utf8(#[trigger] v@[i]@)),
        r matches Err(e) ==> e is Storage,
{
    let prefix = def_key("");
    proof {
        reveal_strlit("");
    }
    assert(""@ =~= Seq::<char>::empty());
    assert("table:"@ + ""@ =~= "table:"@);
    let mut names: Vec<String> = Vec::new();
    let mut i: usize = 0;
    while i < entries.len()
        invariant
            prefix@ == utf8("table:"@),
            i <= entries@.len(),
            names@.len() == i,
            forall|k: int| 0 <= k < i ==> name_readable(#[trigger] entries@[k].0@),
            forall|k: int|
                0 <= k < i ==> def_key_name(entries@[k].0@) == Some(utf8(#[trigger] names@[k]@)),
        decreases entries@.len() - i,
    {
        let key = &entries[i].0;
        if !starts_with_bytes(key.as_slice(), prefix.as_slice()) {
            return Err(DbError::Storage("corrupt table name in meta".to_owned()));
        }
        let mut rest: Vec<u8> = Vec::new();
        let mut j: usize = prefix.len();
        while j < key.len()
            invariant
                prefix@.len() <= j <= key@.len(),
                rest@ == key@.subrange(prefix@.len() as int, j as int),
            decreases key@.len() - j,
        {
            rest.push(key[j]);
            j = j + 1;
            assert(rest@ =~= key@.subrange(prefix@.len() as int, j as int));
        }
        assert(rest@ =~= key@.skip(prefix@.len() as int));
        let ghost rb = rest@;
        match string_from_utf8(rest) {
            Some(s) => {
                names.push(s);
            },
            None => {
                return Err(DbError::Storage("corrupt table name in meta".to_owned()));
            },
        }
        i = i + 1;
    }
    Ok(names)
}

/// `names` are the table names held by the definition keys of `entries`, in
/// order.
pub open spec fn names_of_keys(entries: KvEntries, names: Vec<String>) -> bool {
    &&& names@.len() == entries@.len()
    &&& forall|i: int|
        0 <= i < names@.len() ==> def_key_name(entries@[i].0@) == Some(utf8(#[trigger] names@[i]@))
}

/// The names of all tables, sorted by their bytes: the names held by the
/// definition keys of a scan of the meta table, in key order.
pub fn list_tables<E: StorageEngine>(engine: &E) -> (r: Result<Vec<String>, DbError>)
    ensures
        r matches Ok(v) ==> exists|c: Contents, entries: KvEntries|
            #![trigger names_of_keys(entries, v), scan_of(c, META_TABLE@, utf8("table:"@), entries_view(entries@))]
            names_of_keys(entries, v) && scan_of(
                c,
                META_TABLE@,
                utf8("table:"@),
                entries_view(entries@),
            ),
        r matches Ok(v) ==> forall|i: int, j: int|
            #![trigger v@[i], v@[j]]
            0 <= i < j < v@.len() ==> lex_order(utf8(v@[i]@), utf8(v@[j]@)) < 0,
{
    let txn = engine.begin_read()?;
    let prefix = def_key("");
    proof {
        reveal_strlit("");
        assert(""@ =~= Seq::<char>::empty());
        assert("table:"@ + ""@ =~= "table:"@);
    }
    let entries = txn.scan_prefix(META_TABLE, &prefix)?;
    let r = table_names(&entries);
    if let Ok(v) = &r {
        let ghost es = entries_view(entries@);
        let ghost p = utf8("table:"@);
        assert(names_of_keys(entries, *v));
        assert forall|i: int, j: int|
            #![trigger v@[i], v@[j]]
            0 <= i < j < v@.len() implies lex_order(utf8(v@[i]@), utf8(v@[j]@)) < 0 by {
            assert(es[i] == (entries@[i].0@, entries@[i].1@));
            assert(es[j] == (entries@[j].0@, entries@[j].1@));
            assert(lex_order(es[i].0, es[j].0) < 0);
            assert(entries@[i].0@ =~= p + utf8(v@[i]@));
            assert(entries@[j].0@ =~= p + utf8(v@[j]@));
            lemma_lex_order_common_prefix(p, utf8(v@[i]@), utf8(v@[j]@));
        }
    }
    r
}

} // verus!
