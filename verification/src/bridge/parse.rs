//! Reading the requests of the bindings: JSON objects with named members
//! (`table`, `key`, `condition`, `values`, `names`, ...). A member of the
//! wrong JSON type, or a missing required one, is a `Validation` error.
use vstd::prelude::*;
use crate::application::usecases::{ConditionInput, ExprInput};
use crate::bridge::value::{attr_of, binary_of_hex, hex_bytes, json_to_attr, Json};
use crate::domain::attribute::{copy_string, AttrMap, AttributeValue, Model};
use crate::domain::error::{DbError, validation};
use crate::domain::key::KeySchema;
use crate::domain::table::{IndexDef, Projection, TableDef};
use crate::domain::text::{str_eq, utf8};

verus! {

/// The first member of an object with that name.
pub open spec fn member(fields: Seq<(String, Json)>, key: Seq<char>) -> Option<Json>
    decreases fields.len(),
{
    if fields.len() == 0 {
        None
    } else if fields[0].0@ == key {
        Some(fields[0].1)
    } else {
        member(fields.drop_first(), key)
    }
}

/// The text of a string member.
pub open spec fn str_member(fields: Seq<(String, Json)>, key: Seq<char>) -> Option<Seq<char>> {
    match member(fields, key) {
        Some(Json::Str(s)) => Some(s@),
        _ => None,
    }
}

/// The first member of an object with that name, as `member` says.
pub fn get_member<'a>(fields: &'a Vec<(String, Json)>, key: &str) -> (r: Option<&'a Json>)
    ensures
        match r {
            Some(v) => member(fields@, key@) == Some(*v),
            None => member(fields@, key@) is None,
        },
{
    let mut i: usize = 0;
    assert(fields@.skip(0) =~= fields@);
    while i < fields.len()
        invariant
            i <= fields@.len(),
            member(fields@, key@) == member(fields@.skip(i as int), key@),
        decreases fields@.len() - i,
    {
        assert(fields@.skip(i as int).drop_first() =~= fields@.skip(i + 1));
        if str_eq(fields[i].0.as_str(), key) {
            return Some(&fields[i].1);
        }
        i = i + 1;
    }
    None
}

/// The members of a JSON object.
pub fn as_object<'a>(v: &'a Json, what: &str) -> (r: Result<&'a Vec<(String, Json)>, DbError>)
    ensures
        match r {
            Ok(f) => *v == Json::Object(*f),
            Err(e) => !(v is Object) && e is Validation,
        },
{
    match v {
        Json::Object(f) => Ok(f),
        _ => Err(validation("expected a JSON object")),
    }
}

/// The elements of a JSON array.
pub fn as_array<'a>(v: &'a Json, what: &str) -> (r: Result<&'a Vec<Json>, DbError>)
    ensures
        match r {
            Ok(a) => *v == Json::Array(*a),
            Err(e) => !(v is Array) && e is Validation,
        },
{
    match v {
        Json::Array(a) => Ok(a),
        _ => Err(validation("expected a JSON array")),
    }
}

/// The text of a JSON string.
pub fn as_str<'a>(v: &'a Json, what: &str) -> (r: Result<&'a str, DbError>)
    ensures
        match r {
            Ok(s) => v matches Json::Str(t) && t@ == s@,
            Err(e) => !(v is Str) && e is Validation,
        },
{
    match v {
        Json::Str(s) => Ok(s.as_str()),
        _ => Err(validation("expected a JSON string")),
    }
}

/// A required member.
pub fn require<'a>(fields: &'a Vec<(String, Json)>, key: &str) -> (r: Result<&'a Json, DbError>)
    ensures
        match r {
            Ok(v) => member(fields@, key@) == Some(*v),
            Err(e) => member(fields@, key@) is None && e is Validation,
        },
{
    match get_member(fields, key) {
        Some(v) => Ok(v),
        None => Err(validation("a required member is missing")),
    }
}

/// A required string member.
pub fn require_str(fields: &Vec<(String, Json)>, key: &str) -> (r: Result<String, DbError>)
    ensures
        match r {
            Ok(s) => str_member(fields@, key@) == Some(s@),
            Err(e) => str_member(fields@, key@) is None && e is Validation,
        },
{
    let v = require(fields, key)?;
    let s = as_str(v, key)?;
    Ok(s.to_owned())
}

/// The text of a string, as an optional view.
pub open spec fn opt_text(o: Option<String>) -> Option<Seq<char>> {
    match o {
        Some(s) => Some(s@),
        None => None,
    }
}

/// An optional string member: absent, a string, or of another type.
pub open spec fn opt_str_member(fields: Seq<(String, Json)>, key: Seq<char>) -> Result<
    Option<Seq<char>>,
    (),
> {
    match member(fields, key) {
        None => Ok(None),
        Some(Json::Str(s)) => Ok(Some(s@)),
        Some(_) => Err(()),
    }
}

/// An optional string member; a member of another type is refused.
pub fn opt_string(fields: &Vec<(String, Json)>, key: &str) -> (r: Result<Option<String>, DbError>)
    ensures
        match r {
            Ok(o) => opt_str_member(fields@, key@) == Ok::<Option<Seq<char>>, ()>(opt_text(o)),
            Err(e) => opt_str_member(fields@, key@) is Err && e is Validation,
        },
{
    match get_member(fields, key) {
        None => Ok(None),
        Some(v) => {
            let s = as_str(v, key)?;
            Ok(Some(s.to_owned()))
        },
    }
}

/// The value of a text of decimal digits; `None` when another character
/// occurs.
pub open spec fn digits_value(b: Seq<u8>) -> Option<nat>
    decreases b.len(),
{
    if b.len() == 0 {
        Some(0)
    } else {
        match digits_value(b.drop_last()) {
            None => None,
            Some(v) => if 48 <= b.last() <= 57 {
                Some(v * 10 + (b.last() - 48) as nat)
            } else {
                None
            },
        }
    }
}

/// A longer text of digits has a value at least that of its start.
proof fn lemma_digits_grow(b: Seq<u8>, i: int)
    requires
        0 <= i <= b.len(),
        digits_value(b) is Some,
    ensures
        digits_value(b.take(i)) is Some,
        digits_value(b.take(i))->0 <= digits_value(b)->0,
    decreases b.len() - i,
{
    if i < b.len() {
        lemma_digits_grow(b, i + 1);
        assert(b.take(i + 1).drop_last() =~= b.take(i));
    } else {
        assert(b.take(i) =~= b);
    }
}

/// The integer a JSON number's text stands for when it is written as
/// decimal digits only and fits in a `u64`.
pub open spec fn u64_of_digits(b: Seq<u8>) -> Option<u64> {
    match digits_value(b) {
        Some(v) => if b.len() > 0 && v <= u64::MAX {
            Some(v as u64)
        } else {
            None
        },
        None => None,
    }
}

/// The value of a JSON number written as decimal digits only (a
/// non-negative integer), as `u64_of_digits` says.
pub fn digits_u64(text: &str) -> (r: Option<u64>)
    ensures
        r == u64_of_digits(utf8(text@)),
{
    let b = text.as_bytes();
    if b.len() == 0 {
        return None;
    }
    let mut v: u64 = 0;
    let mut i: usize = 0;
    while i < b.len()
        invariant
            b@ == utf8(text@),
            b@.len() > 0,
            i <= b@.len(),
            digits_value(b@.take(i as int)) == Some(v as nat),
        decreases b@.len() - i,
    {
        let c = b[i];
        proof {
            assert(b@.take(i + 1).drop_last() =~= b@.take(i as int));
        }
        if c < 48 || c > 57 {
            proof {
                if digits_value(b@) is Some {
                    lemma_digits_grow(b@, i + 1);
                }
            }
            return None;
        }
        let d = (c - 48) as u64;
        if v > (u64::MAX - d) / 10 {
            proof {
                assert(v * 10 + d > u64::MAX) by (nonlinear_arith)
                    requires
                        v > (u64::MAX - d) / 10,
                        d <= 9,
                ;
                if digits_value(b@) is Some {
                    lemma_digits_grow(b@, i + 1);
                }
            }
            return None;
        }
        proof {
            assert(v * 10 + d <= u64::MAX) by (nonlinear_arith)
                requires
                    v <= (u64::MAX - d) / 10,
                    d <= 9,
            ;
        }
        v = v * 10 + d;
        i = i + 1;
    }
    assert(b@.take(i as int) =~= b@);
    Some(v)
}

/// An optional non-negative integer member.
pub fn opt_usize(fields: &Vec<(String, Json)>, key: &str) -> (r: Result<Option<usize>, DbError>)
    ensures
        match member(fields@, key@) {
            None => r matches Ok(None),
            Some(Json::Number(t)) => match u64_of_digits(utf8(t@)) {
                Some(u) => if u <= usize::MAX {
                    r == Ok::<Option<usize>, DbError>(Some(u as usize))
                } else {
                    r is Err
                },
                None => r is Err,
            },
            Some(_) => r is Err,
        },
        r matches Err(e) ==> e is Validation,
{
    match get_member(fields, key) {
        None => Ok(None),
        Some(Json::Number(t)) => match digits_u64(t.as_str()) {
            Some(u) => {
                if u > usize::MAX as u64 {
                    Err(validation("expected a non-negative integer"))
                } else {
                    Ok(Some(u as usize))
                }
            },
            None => Err(validation("expected a non-negative integer")),
        },
        Some(_) => Err(validation("expected a non-negative integer")),
    }
}

/// An optional pagination token member (hex text).
pub fn opt_token(fields: &Vec<(String, Json)>, key: &str) -> (r: Result<Option<Vec<u8>>, DbError>)
    ensures
        match member(fields@, key@) {
            None => r matches Ok(None),
            Some(Json::Str(s)) => match hex_bytes(s@) {
                Some(b) => r matches Ok(Some(v)) && v@ == b,
                None => r matches Err(e) && e is Validation,
            },
            Some(_) => r matches Err(e) && e is Validation,
        },
{
    match get_member(fields, key) {
        None => Ok(None),
        Some(v) => {
            let s = as_str(v, key)?;
            let bytes = binary_of_hex(s)?;
            Ok(Some(bytes))
        },
    }
}

/// The last member of an object with that name: the one a map built from
/// the members in order keeps.
pub open spec fn last_member(fields: Seq<(String, Json)>, key: Seq<char>) -> Option<Json>
    decreases fields.len(),
{
    if fields.len() == 0 {
        None
    } else if fields.last().0@ == key {
        Some(fields.last().1)
    } else {
        last_member(fields.drop_last(), key)
    }
}

/// The members of an object member, or none.
pub open spec fn object_member(fields: Seq<(String, Json)>, key: Seq<char>) -> Seq<(String, Json)> {
    match member(fields, key) {
        Some(Json::Object(o)) => o@,
        _ => Seq::empty(),
    }
}

/// The `values` member is absent, or an object of attribute values.
pub open spec fn values_ok(fields: Seq<(String, Json)>) -> bool {
    match member(fields, "values"@) {
        None => true,
        Some(Json::Object(o)) => forall|i: int| 0 <= i < o@.len() ==> (#[trigger] attr_of(o@[i].1)) is Some,
        Some(_) => false,
    }
}

/// The `names` member is absent, or an object of strings.
pub open spec fn names_ok(fields: Seq<(String, Json)>) -> bool {
    match member(fields, "names"@) {
        None => true,
        Some(Json::Object(o)) => forall|i: int| 0 <= i < o@.len() ==> (#[trigger] o@[i].1) is Str,
        Some(_) => false,
    }
}

/// The `values` and `names` members that the expressions of a request share
/// (each expression uses the ones it references). Where a placeholder is
/// written twice, the last one counts.
pub fn shared_values_names(fields: &Vec<(String, Json)>) -> (r: Result<
    (AttrMap<AttributeValue>, AttrMap<String>),
    DbError,
>)
    ensures
        match r {
            Ok((values, names)) => {
                &&& values_ok(fields@) && names_ok(fields@)
                &&& forall|k: Seq<char>|
                    #![trigger values.find(k)]
                    match (values.find(k), last_member(object_member(fields@, "values"@), k)) {
                        (Some(a), Some(j)) => attr_of(j) == Some(a@),
                        (None, None) => true,
                        _ => false,
                    }
                &&& forall|k: Seq<char>|
                    #![trigger names.find(k)]
                    match (names.find(k), last_member(object_member(fields@, "names"@), k)) {
                        (Some(n), Some(j)) => j matches Json::Str(t) && t@ == n@,
                        (None, None) => true,
                        _ => false,
                    }
            },
            Err(e) => !(values_ok(fields@) && names_ok(fields@)) && e is Validation,
        },
{
    let mut values: AttrMap<AttributeValue> = AttrMap::new();
    if let Some(v) = get_member(fields, "values") {
        let obj = as_object(v, "values")?;
        let mut i: usize = 0;
        while i < obj.len()
            invariant
                i <= obj@.len(),
                member(fields@, "values"@) == Some(Json::Object(*obj)),
                forall|j: int| 0 <= j < i ==> (#[trigger] attr_of(obj@[j].1)) is Some,
                forall|k: Seq<char>|
                    #![trigger values.find(k)]
                    match (values.find(k), last_member(obj@.take(i as int), k)) {
                        (Some(a), Some(j)) => attr_of(j) == Some(a@),
                        (None, None) => true,
                        _ => false,
                    },
            decreases obj@.len() - i,
        {
            let a = match json_to_attr(&obj[i].1) {
                Ok(a) => a,
                Err(e) => {
                    assert(!values_ok(fields@));
                    return Err(e);
                },
            };
            let ghost old_values = values;
            let key = copy_string(&obj[i].0);
            values.insert(key, a);
            proof {
                let pre = obj@.take(i as int + 1);
                assert(pre.drop_last() =~= obj@.take(i as int));
                assert(pre.last() == obj@[i as int]);
                assert forall|k: Seq<char>| #![trigger values.find(k)]
                    match (values.find(k), last_member(pre, k)) {
                        (Some(a), Some(j)) => attr_of(j) == Some(a@),
                        (None, None) => true,
                        _ => false,
                    } by {
                    assert(old_values.find(k) == old_values.find(k));
                }
            }
            i = i + 1;
        }
        assert(obj@.take(obj@.len() as int) =~= obj@);
    } else {
        proof {
            assert forall|k: Seq<char>| #![trigger values.find(k)] values.find(k) is None by {
                assert(values.entries@.len() == 0);
            }
        }
    }
    let mut names: AttrMap<String> = AttrMap::new();
    if let Some(v) = get_member(fields, "names") {
        let obj = as_object(v, "names")?;
        let mut i: usize = 0;
        while i < obj.len()
            invariant
                i <= obj@.len(),
                member(fields@, "names"@) == Some(Json::Object(*obj)),
                forall|j: int| 0 <= j < i ==> (#[trigger] obj@[j].1) is Str,
                forall|k: Seq<char>|
                    #![trigger names.find(k)]
                    match (names.find(k), last_member(obj@.take(i as int), k)) {
                        (Some(n), Some(j)) => j matches Json::Str(t) && t@ == n@,
                        (None, None) => true,
                        _ => false,
                    },
            decreases obj@.len() - i,
        {
            let s = match as_str(&obj[i].1, "names entry") {
                Ok(s) => s,
                Err(e) => {
                    assert(!names_ok(fields@));
                    return Err(e);
                },
            };
            let ghost old_names = names;
            let key = copy_string(&obj[i].0);
            names.insert(key, s.to_owned());
            proof {
                let pre = obj@.take(i as int + 1);
                assert(pre.drop_last() =~= obj@.take(i as int));
                assert(pre.last() == obj@[i as int]);
                assert forall|k: Seq<char>| #![trigger names.find(k)]
                    match (names.find(k), last_member(pre, k)) {
                        (Some(n), Some(j)) => j matches Json::Str(t) && t@ == n@,
                        (None, None) => true,
                        _ => false,
                    } by {
                    assert(old_names.find(k) == old_names.find(k));
                }
            }
            i = i + 1;
        }
        assert(obj@.take(obj@.len() as int) =~= obj@);
    } else {
        proof {
            assert forall|k: Seq<char>| #![trigger names.find(k)] names.find(k) is None by {
                assert(names.entries@.len() == 0);
            }
        }
    }
    Ok((values, names))
}

/// A copy of placeholder names.
pub fn copy_names(m: &AttrMap<String>) -> (r: AttrMap<String>)
    ensures
        r.entries@.len() == m.entries@.len(),
        forall|i: int|
            0 <= i < m.entries@.len() ==> (#[trigger] r.entries@[i]).0@ == m.entries@[i].0@
                && r.entries@[i].1@ == m.entries@[i].1@,
{
    let mut out: Vec<(String, String)> = Vec::new();
    let mut i: usize = 0;
    while i < m.entries.len()
        invariant
            i <= m.entries@.len(),
            out@.len() == i,
            forall|j: int|
                0 <= j < i ==> (#[trigger] out@[j]).0@ == m.entries@[j].0@ && out@[j].1@
                    == m.entries@[j].1@,
        decreases m.entries@.len() - i,
    {
        out.push((copy_string(&m.entries[i].0), copy_string(&m.entries[i].1)));
        i = i + 1;
    }
    AttrMap { entries: out }
}

/// An expression input over the shared placeholders.
pub fn expr_input(
    expression: String,
    values: &AttrMap<AttributeValue>,
    names: &AttrMap<String>,
) -> (r: ExprInput)
    ensures
        r.expression == expression,
        r.values.model() == values.model(),
        r.names.entries@.len() == names.entries@.len(),
        forall|i: int|
            0 <= i < names.entries@.len() ==> (#[trigger] r.names.entries@[i]).0@
                == names.entries@[i].0@ && r.names.entries@[i].1@ == names.entries@[i].1@,
{
    ExprInput { expression, names: copy_names(names), values: values.duplicate() }
}

/// The optional `condition` of an options object, with the placeholders the
/// options share.
pub fn parse_condition_opt(options: Option<&Json>) -> (r: Result<Option<ConditionInput>, DbError>)
    ensures
        match options {
            None => r matches Ok(None),
            Some(o) => match o {
                Json::Object(f) => match member(f@, "condition"@) {
                    None => r matches Ok(None),
                    Some(c) => match r {
                        Ok(Some(ci)) => values_ok(f@) && names_ok(f@) && (c matches Json::Str(t)
                            && t@ == ci.expression@),
                        Ok(None) => false,
                        Err(e) => e is Validation && !(values_ok(f@) && names_ok(f@) && c is Str),
                    },
                },
                _ => r matches Err(e) && e is Validation,
            },
        },
{
    let options = match options {
        Some(o) => o,
        None => {
            return Ok(None);
        },
    };
    let obj = as_object(options, "options")?;
    let cond = match get_member(obj, "condition") {
        Some(c) => c,
        None => {
            return Ok(None);
        },
    };
    let (values, names) = shared_values_names(obj)?;
    let expression = match cond {
        Json::Str(s) => copy_string(s),
        _ => {
            return Err(validation("expected a JSON string"));
        },
    };
    Ok(Some(ExprInput { expression, names, values }))
}

/// The optional `filter` member, over the shared placeholders.
pub fn parse_filter(
    fields: &Vec<(String, Json)>,
    values: &AttrMap<AttributeValue>,
    names: &AttrMap<String>,
) -> (r: Result<Option<ConditionInput>, DbError>)
    ensures
        match member(fields@, "filter"@) {
            None => r matches Ok(None),
            Some(Json::Str(s)) => r matches Ok(Some(ci)) && ci.expression@ == s@
                && ci.values.model() == values.model() && ci.names.entries@.len()
                == names.entries@.len(),
            Some(_) => r matches Err(e) && e is Validation,
        },
{
    match get_member(fields, "filter") {
        Some(f) => {
            let expression = as_str(f, "filter")?.to_owned();
            Ok(Some(expr_input(expression, values, names)))
        },
        None => Ok(None),
    }
}

/// The key attribute values that a JSON key object writes for a key schema:
/// the partition key's, and the sort key's where the schema has one.
pub open spec fn key_attrs_of(ks: KeySchema, key: Json) -> Option<(Model, Option<Model>)> {
    match key {
        Json::Object(f) => match member(f@, ks.pk@) {
            Some(pj) => match attr_of(pj) {
                Some(pm) => match ks.sk {
                    None => Some((pm, None)),
                    Some(n) => match member(f@, n@) {
                        Some(sj) => match attr_of(sj) {
                            Some(sm) => Some((pm, Some(sm))),
                            None => None,
                        },
                        None => None,
                    },
                },
                None => None,
            },
            None => None,
        },
        _ => None,
    }
}

/// The model of an optional attribute value.
pub open spec fn opt_model(a: Option<AttributeValue>) -> Option<Model> {
    match a {
        Some(v) => Some(v@),
        None => None,
    }
}

/// A key object read against a key schema: the partition key value and,
/// when the schema has one, the sort key value.
pub fn key_of_json(ks: &KeySchema, key: &Json) -> (r: Result<
    (AttributeValue, Option<AttributeValue>),
    DbError,
>)
    ensures
        match r {
            Ok((pk, sk)) => key_attrs_of(*ks, *key) == Some((pk@, opt_model(sk))),
            Err(e) => key_attrs_of(*ks, *key) is None && e is Validation,
        },
{
    let obj = as_object(key, "key")?;
    let pk = match get_member(obj, ks.pk.as_str()) {
        Some(v) => json_to_attr(v)?,
        None => {
            return Err(validation("key is missing the partition key"));
        },
    };
    let sk = match &ks.sk {
        Some(sk_name) => match get_member(obj, sk_name.as_str()) {
            Some(v) => Some(json_to_attr(v)?),
            None => {
                return Err(validation("key is missing the sort key"));
            },
        },
        None => None,
    };
    Ok((pk, sk))
}

/// The key schema `{ pk, sk? }` that a JSON value writes.
pub open spec fn key_schema_of(v: Json) -> Option<(Seq<char>, Option<Seq<char>>)> {
    match v {
        Json::Object(f) => match (str_member(f@, "pk"@), opt_str_member(f@, "sk"@)) {
            (Some(pk), Ok(sk)) => Some((pk, sk)),
            _ => None,
        },
        _ => None,
    }
}

/// A key schema's texts.
pub open spec fn key_schema_view(ks: KeySchema) -> (Seq<char>, Option<Seq<char>>) {
    (ks.pk@, opt_text(ks.sk))
}

/// A key schema: `{ pk, sk? }`.
pub fn parse_key_schema(v: &Json) -> (r: Result<KeySchema, DbError>)
    ensures
        match r {
            Ok(ks) => key_schema_of(*v) == Some(key_schema_view(ks)),
            Err(e) => key_schema_of(*v) is None && e is Validation,
        },
{
    let obj = as_object(v, "key schema")?;
    let pk = require_str(obj, "pk")?;
    let sk = opt_string(obj, "sk")?;
    Ok(KeySchema { pk, sk })
}

/// The index definition `{ name, key }` that a JSON value writes.
pub open spec fn index_def_of(v: Json) -> Option<(Seq<char>, (Seq<char>, Option<Seq<char>>))> {
    match v {
        Json::Object(f) => match (str_member(f@, "name"@), member(f@, "key"@)) {
            (Some(name), Some(k)) => match key_schema_of(k) {
                Some(ks) => Some((name, ks)),
                None => None,
            },
            _ => None,
        },
        _ => None,
    }
}

/// An index definition's texts; its projection is the keys alone.
pub open spec fn index_def_view(d: IndexDef) -> (Seq<char>, (Seq<char>, Option<Seq<char>>)) {
    (d.name@, key_schema_view(d.key))
}

/// An index definition: `{ name, key }`, projecting the keys.
pub fn parse_index_def(v: &Json) -> (r: Result<IndexDef, DbError>)
    ensures
        match r {
            Ok(d) => index_def_of(*v) == Some(index_def_view(d)) && d.projection is KeysOnly,
            Err(e) => index_def_of(*v) is None && e is Validation,
        },
{
    let obj = as_object(v, "index definition")?;
    let name = require_str(obj, "name")?;
    let key = parse_key_schema(require(obj, "key")?)?;
    Ok(IndexDef { name, key, projection: Projection::KeysOnly })
}

/// The `indexes` member: absent, or an array of index definitions.
pub open spec fn indexes_ok(f: Seq<(String, Json)>) -> bool {
    match member(f, "indexes"@) {
        None => true,
        Some(Json::Array(a)) => forall|i: int| 0 <= i < a@.len() ==> (#[trigger] index_def_of(a@[i])) is Some,
        Some(_) => false,
    }
}

/// The index definitions that the `indexes` member writes, in order.
pub open spec fn indexes_written(f: Seq<(String, Json)>) -> Seq<Json> {
    match member(f, "indexes"@) {
        Some(Json::Array(a)) => a@,
        _ => Seq::empty(),
    }
}

/// A JSON value writes a table definition:
/// `{ name, key: { pk, sk? }, indexes?: [{ name, key }], ttlAttr? }`.
pub open spec fn table_def_ok(v: Json) -> bool {
    match v {
        Json::Object(f) => {
            &&& str_member(f@, "name"@) is Some
            &&& member(f@, "key"@) matches Some(k) && key_schema_of(k) is Some
            &&& indexes_ok(f@)
            &&& opt_str_member(f@, "ttlAttr"@) is Ok
        },
        _ => false,
    }
}

/// The table definition that a JSON value writes, as `table_def_ok` reads it.
pub open spec fn table_def_matches(v: Json, d: TableDef) -> bool {
    match v {
        Json::Object(f) => {
            &&& str_member(f@, "name"@) == Some(d.name@)
            &&& member(f@, "key"@) matches Some(k) && key_schema_of(k) == Some(
                key_schema_view(d.key),
            )
            &&& d.indexes@.len() == indexes_written(f@).len()
            &&& forall|i: int|
                0 <= i < d.indexes@.len() ==> index_def_of(indexes_written(f@)[i]) == Some(
                    index_def_view(#[trigger] d.indexes@[i]),
                ) && d.indexes@[i].projection is KeysOnly
            &&& opt_str_member(f@, "ttlAttr"@) == Ok::<Option<Seq<char>>, ()>(opt_text(d.ttl_attr))
        },
        _ => false,
    }
}

/// A table definition:
/// `{ name, key: { pk, sk? }, indexes?: [{ name, key }], ttlAttr? }`.
pub fn parse_table_def(v: &Json) -> (r: Result<TableDef, DbError>)
    ensures
        match r {
            Ok(d) => table_def_ok(*v) && table_def_matches(*v, d),
            Err(e) => !table_def_ok(*v) && e is Validation,
        },
{
    let obj = as_object(v, "table definition")?;
    let name = require_str(obj, "name")?;
    let key = parse_key_schema(require(obj, "key")?)?;
    let mut indexes: Vec<IndexDef> = Vec::new();
    if let Some(list) = get_member(obj, "indexes") {
        let arr = as_array(list, "indexes")?;
        let mut i: usize = 0;
        while i < arr.len()
            invariant
                i <= arr@.len(),
                *v == Json::Object(*obj),
                member(obj@, "indexes"@) == Some(Json::Array(*arr)),
                indexes@.len() == i,
                forall|j: int|
                    0 <= j < i ==> index_def_of(arr@[j]) == Some(index_def_view(#[trigger] indexes@[j]))
                        && indexes@[j].projection is KeysOnly,
            decreases arr@.len() - i,
        {
            let d = match parse_index_def(&arr[i]) {
                Ok(d) => d,
                Err(e) => {
                    assert(!indexes_ok(obj@));
                    return Err(e);
                },
            };
            indexes.push(d);
            i = i + 1;
        }
        assert forall|j: int| 0 <= j < arr@.len() implies (#[trigger] index_def_of(arr@[j])) is Some by {
            assert(index_def_of(arr@[j]) == Some(index_def_view(indexes@[j])));
        }
        assert(indexes_ok(obj@));
    }
    let ttl_attr = opt_string(obj, "ttlAttr")?;
    Ok(TableDef { name, key, indexes, ttl_attr })
}

} // verus!
