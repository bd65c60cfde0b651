//! Applying an update expression to one item and returning the whole new
//! item. Updating a missing key creates the item with its key attributes
//! (an upsert). A failed condition writes nothing (`ConditionalCheckFailed`);
//! an expression that touches a key attribute is a `Validation` error.
use vstd::prelude::*;
use crate::application::meta::{adjust_count, def_loaded, load_def_write};
use crate::application::effects::put_effect;
use crate::application::usecases::scan::value_item;
use crate::ports::storage::{lookup, Contents};
use crate::application::usecases::inputs::{
    held_on_stored, holds,
    key_model,
    condition_readable, update_readable,
    check_condition, decode_item_or_empty, update_index_entries, Codec, ConditionInput,
    UpdateInput,
};
use crate::domain::attribute::Model;
use crate::domain::expr::ast::UpdateExpr;
use crate::domain::expr::grammar::update_ok;
use crate::domain::expr::lexer::lex_spec;
use crate::domain::expr::update::{apply_spec, item_model, touched_spec};
use crate::domain::text::utf8;
use crate::domain::attribute::{copy_string, AttributeValue, Item};
use crate::domain::error::{DbError, validation};
use crate::domain::expr::eval::ExprContext;
use crate::domain::expr::parser::parse_update;
use crate::domain::expr::update::{apply_update, touched_roots};
use crate::domain::key::KeySchema;
use crate::domain::key_codec::{enc_key, encode_key};
use crate::domain::table::TableDef;
use crate::domain::text::str_eq;
use crate::ports::storage::{StorageEngine, WriteTxn};

verus! {

/// Whether an attribute name is one of a key schema's attributes.
pub open spec fn is_key_attr(key: KeySchema, name: Seq<char>) -> bool {
    name == key.pk@ || (key.sk matches Some(s) && name == s@)
}

/// Whether any of the touched top-level attributes is a key attribute.
pub fn touches_key(roots: &Vec<String>, key: &KeySchema) -> (r: bool)
    ensures
        r == exists|i: int| 0 <= i < roots@.len() && is_key_attr(*key, #[trigger] roots@[i]@),
{
    let mut i: usize = 0;
    while i < roots.len()
        invariant
            i <= roots@.len(),
            forall|k: int| 0 <= k < i ==> !is_key_attr(*key, #[trigger] roots@[k]@),
        decreases roots@.len() - i,
    {
        let root = roots[i].as_str();
        let hit = str_eq(root, key.pk.as_str()) || match &key.sk {
            Some(s) => str_eq(root, s.as_str()),
            None => false,
        };
        if hit {
            assert(is_key_attr(*key, roots@[i as int]@));
            return true;
        }
        i = i + 1;
    }
    false
}

/// The item an update starts from: the current one, or, when nothing is
/// stored, a new one holding just the key attributes.
pub fn upsert_base(
    current: Item,
    existed: bool,
    key: &KeySchema,
    pk: &AttributeValue,
    sk: Option<&AttributeValue>,
) -> (r: Item)
    ensures
        existed ==> r == current,
        (!existed && (sk is None || !(key.sk matches Some(s) && s@ == key.pk@))) ==> (r.find(
            key.pk@,
        ) matches Some(v) && v@ == pk@),
        !existed ==> forall|n: Seq<char>|
            #![trigger r.find(n)]
            !is_key_attr(*key, n) ==> r.find(n) == current.find(n),
        (!existed && key.sk is Some && sk is Some) ==> (r.find(key.sk->0@) matches Some(v)
            && v@ == sk->0@),
{
    let mut base = current;
    if !existed {
        base.insert(copy_string(&key.pk), pk.duplicate());
        assert(base.find(key.pk@) is Some);
        if let (Some(sk_name), Some(sk_val)) = (&key.sk, sk) {
            base.insert(copy_string(sk_name), sk_val.duplicate());
            assert(base.find(key.pk@) is Some);
        }
    }
    base
}

/// `u` is a syntax tree that the parser gives for the update text.
pub open spec fn parsed_update(text: Seq<char>, u: UpdateExpr) -> bool {
    lex_spec(utf8(text)) matches Some(t) && update_ok(t, u)
}

/// Some of the touched top-level attributes is a key attribute.
pub open spec fn touches_key_spec(key: KeySchema, roots: Seq<Seq<char>>) -> bool {
    exists|i: int| 0 <= i < roots.len() && is_key_attr(key, #[trigger] roots[i])
}

#[verifier::opaque]
/// `base` is the item an update starts from: the stored item, or, where
/// none is stored, the (empty) current item with the key attributes set.
pub open spec fn upsert_of(
    current: Item,
    existed: bool,
    key: KeySchema,
    pk: AttributeValue,
    sk: Option<AttributeValue>,
    base: Item,
) -> bool {
    &&& existed ==> base == current
    &&& (!existed && (sk is None || !(key.sk matches Some(s) && s@ == key.pk@))) ==> (base.find(
        key.pk@,
    ) matches Some(v) && v@ == pk@)
    &&& !existed ==> forall|n: Seq<char>|
        #![trigger base.find(n)]
        !is_key_attr(key, n) ==> base.find(n) == current.find(n)
    &&& (!existed && key.sk is Some && sk is Some) ==> (base.find(key.sk->0@) matches Some(v)
        && v@ == sk->0@)
}

#[verifier::opaque]
/// `new` is what the update makes of `base`: the update text parses to an
/// expression that touches no key attribute, and applying it to `base`
/// gives `new`.
pub open spec fn update_result(update: UpdateInput, key: KeySchema, base: Item, new: Item) -> bool {
    exists|u: UpdateExpr|
        #![trigger apply_spec(u, base, update.names, update.values)]
        parsed_update(update.expression@, u) && (touched_spec(u, update.names) matches Ok(roots)
            && !touches_key_spec(key, roots)) && apply_spec(u, base, update.names, update.values)
            == Ok::<Seq<(Seq<char>, Model)>, ()>(item_model(new))
}

/// The start and the result of an update of one item, from the item as it
/// is (`existed` tells whether one is stored): an update that touches a key
/// attribute is a `Validation` error, as is one that does not parse or
/// cannot be applied.
pub fn updated_item(
    current: Item,
    existed: bool,
    key: &KeySchema,
    pk: &AttributeValue,
    sk: Option<&AttributeValue>,
    update: &UpdateInput,
) -> (r: Result<(Item, Item), DbError>)
    ensures
        r matches Err(e) ==> e is Validation,
        r matches Ok((base, new)) ==> upsert_of(
            current,
            existed,
            *key,
            *pk,
            match sk {
                Some(v) => Some(*v),
                None => None,
            },
            base,
        ) && update_result(*update, *key, base, new),
        r is Ok ==> update_readable(update.expression@),
{
    let ast = parse_update(update.expression.as_str())?;
    let ctx = ExprContext { names: &update.names, values: &update.values };
    let roots = touched_roots(&ast, &ctx)?;
    if touches_key(&roots, key) {
        return Err(validation("cannot update a key attribute"));
    }
    let base = upsert_base(current, existed, key, pk, sk);
    assert(upsert_of(
        current,
        existed,
        *key,
        *pk,
        match sk {
            Some(v) => Some(*v),
            None => None,
        },
        base,
    )) by {
        reveal(upsert_of);
    }
    let new_item = apply_update(&ast, &base, &ctx)?;
    assert(update_result(*update, *key, base, new_item)) by {
        reveal(update_result);
    }
    Ok((base, new_item))
}

/// The writes of an update that was computed: the index entries follow the
/// change from `base` (the stored item, where one `existed`) to `new`, `new`
/// is stored, and the count grows by one where no item existed
/// (`put_effect`).
pub fn write_update<T: WriteTxn, DD, ED, DI, EI>(
    txn: &mut T,
    def: &TableDef,
    key: &[u8],
    existed: bool,
    base: &Item,
    new_item: &Item,
    codec: &Codec<DD, ED, DI, EI>,
) -> (r: Result<(), DbError>) where
    DD: Fn(&[u8]) -> Result<TableDef, DbError>,
    ED: Fn(&TableDef) -> Result<Vec<u8>, DbError>,
    DI: Fn(&[u8]) -> Result<Item, DbError>,
    EI: Fn(&Item) -> Result<Vec<u8>, DbError>,

    requires
        codec.total(),
    ensures
        r matches Err(e) ==> e is Storage || e is Serialization || e is Validation,
        r is Ok ==> exists|bytes: Vec<u8>|
            #[trigger] codec.encode_item.ensures((new_item,), Ok::<Vec<u8>, DbError>(bytes)) && put_effect(
                old(txn).contents(),
                *def,
                key@,
                if existed {
                    Some(*base)
                } else {
                    None
                },
                *new_item,
                bytes@,
            ) == Some(final(txn).contents()),
{
    let old = if existed {
        Some(base)
    } else {
        None
    };
    update_index_entries(txn, def, key, old, Some(new_item))?;
    let bytes = (codec.encode_item)(new_item)?;
    txn.put(def.name.as_str(), key, bytes.as_slice())?;
    if !existed {
        adjust_count(txn, def.name.as_str(), 1)?;
    }
    Ok(())
}

/// An update inside a write transaction: the definition is read, the key
/// formed (its sort key must be present exactly when the schema has one),
/// the condition (if any) judged on the stored item (an empty one where none
/// is stored), the update applied (`updated_item`), and the result written
/// (`write_update`). A failed condition and an unknown table write nothing;
/// nothing is written before the update was computed.
pub fn update_in<T: WriteTxn, DD, ED, DI, EI>(
    txn: &mut T,
    table: &str,
    pk: &AttributeValue,
    sk: Option<&AttributeValue>,
    update: &UpdateInput,
    condition: Option<&ConditionInput>,
    codec: &Codec<DD, ED, DI, EI>,
) -> (r: Result<Item, DbError>) where
    DD: Fn(&[u8]) -> Result<TableDef, DbError>,
    ED: Fn(&TableDef) -> Result<Vec<u8>, DbError>,
    DI: Fn(&[u8]) -> Result<Item, DbError>,
    EI: Fn(&Item) -> Result<Vec<u8>, DbError>,

    requires
        codec.total(),
    ensures
        r matches Err(DbError::ConditionalCheckFailed) ==> *final(txn) == *old(txn),
        r matches Err(DbError::ResourceNotFound(_)) ==> *final(txn) == *old(txn),
        r is Ok ==> update_readable(update.expression@) && enc_key(pk@, key_model(sk)) is Some
            && match condition {
            Some(c) => condition_readable(c.expression@) && held_on_stored(codec.decode_item, *c),
            None => true,
        },
{
    let ghost c0 = txn.contents();
    let def = load_def_write(txn, table, &codec.decode_def)?;
    if def.key.sk.is_some() != sk.is_some() {
        return Err(validation("sort key presence does not match the schema of the table"));
    }
    let key = encode_key(pk, sk)?;
    let existing = txn.get(def.name.as_str(), key.as_slice())?;
    let current = decode_item_or_empty(existing.as_ref(), &codec.decode_item)?;
    if let Some(cond) = condition {
        check_condition(cond, &current)?;
        assert(holds(*cond, current));
        assert(held_on_stored(codec.decode_item, *cond));
    }
    let existed = existing.is_some();
    let (base, new_item) = updated_item(current, existed, &def.key, pk, sk, update)?;
    write_update(txn, &def, key.as_slice(), existed, &base, &new_item, codec)?;
    Ok(new_item)
}

/// Updates one item and returns it as it is after the update.
pub fn update_item<E, DD, ED, DI, EI>(
    engine: &E,
    table: &str,
    pk: &AttributeValue,
    sk: Option<&AttributeValue>,
    update: &UpdateInput,
    condition: Option<&ConditionInput>,
    codec: &Codec<DD, ED, DI, EI>,
) -> (r: Result<Item, DbError>) where
    E: StorageEngine,
    DD: Fn(&[u8]) -> Result<TableDef, DbError>,
    ED: Fn(&TableDef) -> Result<Vec<u8>, DbError>,
    DI: Fn(&[u8]) -> Result<Item, DbError>,
    EI: Fn(&Item) -> Result<Vec<u8>, DbError>,

    requires
        codec.total(),
    ensures
        r is Ok ==> update_readable(update.expression@) && match condition {
            Some(c) => condition_readable(c.expression@),
            None => true,
        },
        r is Ok ==> enc_key(pk@, key_model(sk)) is Some,
        r is Ok ==> match condition {
            Some(c) => held_on_stored(codec.decode_item, *c),
            None => true,
        },
{
    let mut txn = engine.begin_write()?;
    let new_item = update_in(&mut txn, table, pk, sk, update, condition, codec)?;
    txn.commit()?;
    Ok(new_item)
}

} // verus!
