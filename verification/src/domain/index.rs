//! Secondary indexes: where an index lives and the key of an item's entry.
use vstd::prelude::*;
use vstd::string::StringExecFns;
use crate::domain::attribute::{Item, Model, model_of};
use crate::domain::error::DbError;
use crate::domain::byte_order::{lemma_lex_order_common_prefix, lex_order};
use crate::domain::key_codec::{enc_value, encode_value, lemma_value_then};
use crate::domain::table::IndexDef;

verus! {

/// The logical table of an index: `idx:{table}:{index}`. A `:` never occurs
/// in a table name, so it cannot collide with a user table.
pub fn index_table_name(table: &str, index: &str) -> (r: String)
    ensures
        r@ == "idx:"@ + table@ + ":"@ + index@,
{
    let mut r = String::new();
    r.append("idx:");
    r.append(table);
    r.append(":");
    r.append(index);
    assert(r@ =~= "idx:"@ + table@ + ":"@ + index@);
    r
}

/// The key of an item's index entry: the encoded index key values, then the
/// item's encoded main key (which keeps entries with equal index keys
/// apart). `None` when the item lacks an index key attribute (a sparse
/// index); an error when an index key value cannot be a key.
pub open spec fn entry_key_spec(idx: IndexDef, item: Item, main_key: Seq<u8>) -> Result<
    Option<Seq<u8>>,
    (),
> {
    match item.find(idx.key.pk@) {
        None => Ok(None),
        Some(pk) => match enc_value(model_of(pk)) {
            None => Err(()),
            Some(a) => match idx.key.sk {
                None => Ok(Some(a + main_key)),
                Some(sk_attr) => match item.find(sk_attr@) {
                    None => Ok(None),
                    Some(sk) => match enc_value(model_of(sk)) {
                        None => Err(()),
                        Some(b) => Ok(Some(a + b + main_key)),
                    },
                },
            },
        },
    }
}

/// The entries of one index partition sort by the index sort key value (in
/// its own order), and entries with equal values by the items' own keys.
pub proof fn lemma_entry_order(p: Model, s1: Model, s2: Model, m1: Seq<u8>, m2: Seq<u8>)
    requires
        enc_value(p) is Some,
        enc_value(s1) is Some,
        enc_value(s2) is Some,
        m1.len() > 0 && m1[0] < 0xFF,
        m2.len() > 0 && m2[0] < 0xFF,
    ensures
        lex_order(
            enc_value(p)->0 + enc_value(s1)->0 + m1,
            enc_value(p)->0 + enc_value(s2)->0 + m2,
        ) == if enc_value(s1) == enc_value(s2) {
            lex_order(m1, m2)
        } else {
            lex_order(enc_value(s1)->0, enc_value(s2)->0)
        },
{
    let a = enc_value(p)->0;
    assert(a + enc_value(s1)->0 + m1 =~= a + (enc_value(s1)->0 + m1));
    assert(a + enc_value(s2)->0 + m2 =~= a + (enc_value(s2)->0 + m2));
    lemma_lex_order_common_prefix(a, enc_value(s1)->0 + m1, enc_value(s2)->0 + m2);
    lemma_value_then(s1, s2, m1, m2);
}

/// The key of an item's entry in an index, as `entry_key_spec` says.
pub fn index_entry_key(idx: &IndexDef, item: &Item, main_key: &[u8]) -> (r: Result<
    Option<Vec<u8>>,
    DbError,
>)
    ensures
        match r {
            Ok(Some(k)) => entry_key_spec(*idx, *item, main_key@) == Ok::<Option<Seq<u8>>, ()>(
                Some(k@),
            ),
            Ok(None) => entry_key_spec(*idx, *item, main_key@) == Ok::<Option<Seq<u8>>, ()>(None),
            Err(e) => entry_key_spec(*idx, *item, main_key@) is Err && e is Validation,
        },
{
    let ipk = match item.get(idx.key.pk.as_str()) {
        Some(v) => v,
        None => {
            return Ok(None);
        },
    };
    let mut key = encode_value(ipk)?;
    if let Some(sk_attr) = &idx.key.sk {
        let isk = match item.get(sk_attr.as_str()) {
            Some(v) => v,
            None => {
                return Ok(None);
            },
        };
        let mut tail = encode_value(isk)?;
        key.append(&mut tail);
    }
    let ghost before = key@;
    let mut i: usize = 0;
    while i < main_key.len()
        invariant
            i <= main_key@.len(),
            key@ == before + main_key@.take(i as int),
        decreases main_key@.len() - i,
    {
        key.push(main_key[i]);
        i = i + 1;
        assert(key@ =~= before + main_key@.take(i as int));
    }
    assert(main_key@.take(i as int) =~= main_key@);
    Ok(Some(key))
}

} // verus!
