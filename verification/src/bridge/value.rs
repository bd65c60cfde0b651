//! JSON values as the bindings hand them over, and how they become attribute
//! values: a string is S, a number N (its text kept exactly), a bool BOOL,
//! null NULL, an array L, an object M — except an object whose only member
//! is `"$binary"` with a hex string, which is B, and an object whose only
//! member is `"$ss"`, `"$ns"` or `"$bs"` with an array, which is a string,
//! number or binary set (sorted, without duplicates, never empty).
use vstd::prelude::*;
use vstd::utf8::{is_char_boundary, length_of_first_scalar, pop_first_scalar, valid_utf8};
use crate::bridge::{from_hex, unhex};
use crate::domain::attribute::{
    bytes_model, copy_string, entries_model, lemma_put_model, list_model, numbers_model, put_entry,
    strings_model, AttrMap, AttributeValue, Item, Model, Number,
};
use crate::domain::number::{number_dec, parse_spec};
use crate::domain::sets::{norm_bytes, norm_numbers, norm_text};
use crate::domain::error::{DbError, validation};
use crate::domain::text::{ascii_bytes, lemma_ascii_valid_utf8, str_eq, utf8};

verus! {

/// A JSON value. A number is kept as its text.
#[derive(Debug, PartialEq, Eq)]
pub enum Json {
    Null,
    Bool(bool),
    Number(String),
    Str(String),
    Array(Vec<Json>),
    Object(Vec<(String, Json)>),
}

proof fn lemma_ascii_boundary(b: Seq<u8>, i: int)
    requires
        ascii_bytes(b),
        0 <= i <= b.len(),
    ensures
        is_char_boundary(b, i),
    decreases b.len(),
{
    lemma_ascii_valid_utf8(b);
    if i > 0 {
        assert(length_of_first_scalar(b) == 1);
        assert(pop_first_scalar(b) =~= b.drop_first());
        lemma_ascii_boundary(b.drop_first(), i - 1);
    }
}

/// The bytes of a `$binary` hex text; an error for a text that is not one
/// (non-ASCII text included).
pub fn binary_of_hex(hex: &str) -> (r: Result<Vec<u8>, DbError>)
    ensures
        match r {
            Ok(v) => hex_bytes(hex@) == Some(v@),
            Err(e) => hex_bytes(hex@) is None && e is Validation,
        },
{
    let b = hex.as_bytes();
    let mut i: usize = 0;
    while i < b.len()
        invariant
            b@ == utf8(hex@),
            i <= b@.len(),
            forall|k: int| 0 <= k < i ==> b@[k] < 128,
        decreases b@.len() - i,
    {
        if b[i] >= 128 {
            assert(!ascii_bytes(utf8(hex@)));
            return Err(validation("invalid opaque token"));
        }
        i = i + 1;
    }
    proof {
        assert forall|k: int| 0 <= k <= utf8(hex@).len() && k % 2 == 0 implies is_char_boundary(
            utf8(hex@),
            k,
        ) by {
            lemma_ascii_boundary(utf8(hex@), k);
        }
    }
    from_hex(hex)
}

/// The texts of `$ss` members (strings only).
pub open spec fn ss_texts(items: Seq<Json>) -> Option<Seq<Seq<char>>>
    decreases items.len(),
{
    if items.len() == 0 {
        Some(Seq::empty())
    } else {
        match (ss_texts(items.drop_last()), items.last()) {
            (Some(t), Json::Str(s)) => Some(t.push(s@)),
            _ => None,
        }
    }
}

/// The texts of `$ns` members (numbers, or strings holding numbers).
pub open spec fn ns_texts(items: Seq<Json>) -> Option<Seq<Seq<char>>>
    decreases items.len(),
{
    if items.len() == 0 {
        Some(Seq::empty())
    } else {
        match (ns_texts(items.drop_last()), items.last()) {
            (Some(t), Json::Number(s)) => Some(t.push(s@)),
            (Some(t), Json::Str(s)) => Some(t.push(s@)),
            _ => None,
        }
    }
}

/// The bytes a hex text reads as, when it is ASCII hex.
pub open spec fn hex_bytes(h: Seq<char>) -> Option<Seq<u8>> {
    if ascii_bytes(utf8(h)) {
        unhex(utf8(h))
    } else {
        None
    }
}

/// The bytes of `$bs` members (hex strings).
pub open spec fn bs_bytes(items: Seq<Json>) -> Option<Seq<Seq<u8>>>
    decreases items.len(),
{
    if items.len() == 0 {
        Some(Seq::empty())
    } else {
        match (bs_bytes(items.drop_last()), items.last()) {
            (Some(t), Json::Str(s)) => match hex_bytes(s@) {
                Some(b) => Some(t.push(b)),
                None => None,
            },
            _ => None,
        }
    }
}

/// The set written as `{tag: [members]}`: sorted and without duplicates,
/// never empty, numbers valid.
pub open spec fn set_model(tag: Seq<char>, items: Seq<Json>) -> Option<Model> {
    if tag == "$ss"@ {
        match ss_texts(items) {
            Some(t) => if t.len() > 0 {
                Some(Model::Ss(norm_text(t)))
            } else {
                None
            },
            None => None,
        }
    } else if tag == "$ns"@ {
        match ns_texts(items) {
            Some(t) => if t.len() > 0 && (forall|k: int|
                0 <= k < t.len() ==> #[trigger] parse_spec(utf8(t[k])) is Some) {
                Some(Model::Ns(norm_numbers(t)))
            } else {
                None
            },
            None => None,
        }
    } else {
        match bs_bytes(items) {
            Some(b) => if b.len() > 0 {
                Some(Model::Bs(norm_bytes(b)))
            } else {
                None
            },
            None => None,
        }
    }
}

/// The number of parts of a value: elements of an array, members of an
/// object.
pub open spec fn parts(j: Json) -> nat {
    match j {
        Json::Array(a) => a@.len(),
        Json::Object(f) => f@.len(),
        _ => 0,
    }
}

/// Whether an object is one of the special forms (`$binary` with a string,
/// or a set tag).
pub open spec fn special(f: Seq<(String, Json)>) -> bool {
    f.len() == 1 && ((f[0].0@ == "$binary"@ && f[0].1 is Str) || f[0].0@ == "$ss"@ || f[0].0@
        == "$ns"@ || f[0].0@ == "$bs"@)
}

/// What a value becomes with only its first `n` parts converted; `None`
/// where it cannot become an attribute value.
pub open spec fn conv(j: Json, n: nat) -> Option<Model>
    decreases j, n,
{
    match j {
        Json::Null => Some(Model::Null),
        Json::Bool(b) => Some(Model::Bool(b)),
        Json::Number(t) => Some(Model::N(t@)),
        Json::Str(s) => Some(Model::S(s@)),
        Json::Array(items) => if n == 0 {
            Some(Model::L(Seq::empty()))
        } else if n > items@.len() {
            None
        } else {
            match conv(j, (n - 1) as nat) {
                Some(Model::L(s)) => {
                    let c = items@[n - 1];
                    proof {
                        assert(decreases_to!(j => items));
                        assert(decreases_to!(items => items@));
                        assert(decreases_to!(items@ => c));
                    }
                    match conv(c, parts(c)) {
                        Some(m) => Some(Model::L(s.push(m))),
                        None => None,
                    }
                },
                _ => None,
            }
        },
        Json::Object(fields) => if special(fields@) {
            let tag = fields@[0].0@;
            if tag == "$binary"@ {
                match fields@[0].1 {
                    Json::Str(h) => match hex_bytes(h@) {
                        Some(b) => Some(Model::B(b)),
                        None => None,
                    },
                    _ => None,
                }
            } else {
                match fields@[0].1 {
                    Json::Array(elems) => set_model(tag, elems@),
                    _ => None,
                }
            }
        } else if n == 0 {
            Some(Model::M(Seq::empty()))
        } else if n > fields@.len() {
            None
        } else {
            match conv(j, (n - 1) as nat) {
                Some(Model::M(s)) => {
                    let c = fields@[n - 1].1;
                    proof {
                        assert(decreases_to!(j => fields));
                        assert(decreases_to!(fields => fields@));
                        assert(decreases_to!(fields@ => fields@[n - 1]));
                        assert(decreases_to!(fields@[n - 1] => c));
                    }
                    match conv(c, parts(c)) {
                        Some(m) => Some(Model::M(put_entry(s, fields@[n - 1].0@, m))),
                        None => None,
                    }
                },
                _ => None,
            }
        },
    }
}

/// What a JSON value becomes as an attribute value; `None` where it cannot
/// become one.
pub open spec fn attr_of(j: Json) -> Option<Model> {
    conv(j, parts(j))
}

proof fn lemma_ss_prefix(items: Seq<Json>, k: int)
    requires
        0 <= k <= items.len(),
        ss_texts(items.take(k)) is None,
    ensures
        ss_texts(items) is None,
    decreases items.len() - k,
{
    if k < items.len() {
        assert(items.take(k + 1).drop_last() =~= items.take(k));
        lemma_ss_prefix(items, k + 1);
    } else {
        assert(items.take(k) =~= items);
    }
}

proof fn lemma_ns_prefix(items: Seq<Json>, k: int)
    requires
        0 <= k <= items.len(),
        ns_texts(items.take(k)) is None,
    ensures
        ns_texts(items) is None,
    decreases items.len() - k,
{
    if k < items.len() {
        assert(items.take(k + 1).drop_last() =~= items.take(k));
        lemma_ns_prefix(items, k + 1);
    } else {
        assert(items.take(k) =~= items);
    }
}

proof fn lemma_bs_prefix(items: Seq<Json>, k: int)
    requires
        0 <= k <= items.len(),
        bs_bytes(items.take(k)) is None,
    ensures
        bs_bytes(items) is None,
    decreases items.len() - k,
{
    if k < items.len() {
        assert(items.take(k + 1).drop_last() =~= items.take(k));
        lemma_bs_prefix(items, k + 1);
    } else {
        assert(items.take(k) =~= items);
    }
}

/// A set written as `{"$ss": [...]}`, `{"$ns": [...]}` or `{"$bs": [...]}`
/// (any other tag reads as `$bs`), as `set_model` says.
pub fn set_of_json(tag: &str, elems: &Vec<Json>) -> (r: Result<AttributeValue, DbError>)
    ensures
        match r {
            Ok(a) => set_model(tag@, elems@) == Some(a@),
            Err(e) => set_model(tag@, elems@) is None && e is Validation,
        },
{
    if str_eq(tag, "$ss") {
        let mut out: Vec<String> = Vec::new();
        let mut i: usize = 0;
        while i < elems.len()
            invariant
                i <= elems@.len(),
                tag@ == "$ss"@,
                ss_texts(elems@.take(i as int)) == Some(strings_model(out@)),
            decreases elems@.len() - i,
        {
            proof {
                assert(elems@.take(i + 1).drop_last() =~= elems@.take(i as int));
            }
            match &elems[i] {
                Json::Str(t) => {
                    let c = copy_string(t);
                    proof {
                        assert(strings_model(out@.push(c)) =~= strings_model(out@).push(t@));
                    }
                    out.push(c);
                },
                _ => {
                    proof {
                        lemma_ss_prefix(elems@, i + 1);
                    }
                    return Err(validation("$ss elements must be strings"));
                },
            }
            i = i + 1;
        }
        assert(elems@.take(i as int) =~= elems@);
        AttributeValue::string_set(out)
    } else if str_eq(tag, "$ns") {
        let mut out: Vec<Number> = Vec::new();
        let mut i: usize = 0;
        while i < elems.len()
            invariant
                i <= elems@.len(),
                tag@ != "$ss"@,
                tag@ == "$ns"@,
                ns_texts(elems@.take(i as int)) == Some(numbers_model(out@)),
            decreases elems@.len() - i,
        {
            proof {
                assert(elems@.take(i + 1).drop_last() =~= elems@.take(i as int));
            }
            match &elems[i] {
                Json::Number(t) => {
                    let c = Number(copy_string(t));
                    proof {
                        assert(numbers_model(out@.push(c)) =~= numbers_model(out@).push(t@));
                    }
                    out.push(c);
                },
                Json::Str(t) => {
                    let c = Number(copy_string(t));
                    proof {
                        assert(numbers_model(out@.push(c)) =~= numbers_model(out@).push(t@));
                    }
                    out.push(c);
                },
                _ => {
                    proof {
                        lemma_ns_prefix(elems@, i + 1);
                    }
                    return Err(validation("$ns elements must be numbers"));
                },
            }
            i = i + 1;
        }
        assert(elems@.take(i as int) =~= elems@);
        let ghost texts = numbers_model(out@);
        let ghost og = out@;
        let r = AttributeValue::number_set(out);
        proof {
            assert forall|k: int| 0 <= k < og.len() implies number_dec(og[k]) == parse_spec(
                utf8(#[trigger] texts[k]),
            ) by {}
            if r is Ok {
                assert forall|k: int| 0 <= k < texts.len() implies #[trigger] parse_spec(
                    utf8(texts[k]),
                ) is Some by {
                    assert(number_dec(og[k]) is Some);
                }
            } else if og.len() > 0 {
                let k = choose|k: int| 0 <= k < og.len() && number_dec(#[trigger] og[k]) is None;
                assert(parse_spec(utf8(texts[k])) is None);
            }
        }
        r
    } else {
        let mut out: Vec<Vec<u8>> = Vec::new();
        let mut i: usize = 0;
        while i < elems.len()
            invariant
                i <= elems@.len(),
                tag@ != "$ss"@,
                tag@ != "$ns"@,
                bs_bytes(elems@.take(i as int)) == Some(bytes_model(out@)),
            decreases elems@.len() - i,
        {
            proof {
                assert(elems@.take(i + 1).drop_last() =~= elems@.take(i as int));
            }
            match &elems[i] {
                Json::Str(h) => {
                    let b = match binary_of_hex(h.as_str()) {
                        Ok(b) => b,
                        Err(e) => {
                            proof {
                                lemma_bs_prefix(elems@, i + 1);
                            }
                            return Err(e);
                        },
                    };
                    proof {
                        assert(bytes_model(out@.push(b)) =~= bytes_model(out@).push(b@));
                    }
                    out.push(b);
                },
                _ => {
                    proof {
                        lemma_bs_prefix(elems@, i + 1);
                    }
                    return Err(validation("$bs elements must be hex strings"));
                },
            }
            i = i + 1;
        }
        assert(elems@.take(i as int) =~= elems@);
        AttributeValue::binary_set(out)
    }
}

/// Once a part cannot be converted, no longer run of parts can.
proof fn lemma_conv_none(j: Json, n: nat, m: nat)
    requires
        n <= m,
        conv(j, n) is None,
        j is Array || (j is Object && !special(j->Object_0@)),
    ensures
        conv(j, m) is None,
    decreases m - n,
{
    if n < m {
        lemma_conv_none(j, n, (m - 1) as nat);
    }
}

/// Converts a JSON value to an attribute value, as `attr_of` says.
pub fn json_to_attr(v: &Json) -> (r: Result<AttributeValue, DbError>)
    ensures
        match r {
            Ok(a) => attr_of(*v) == Some(a@),
            Err(e) => attr_of(*v) is None && e is Validation,
        },
    decreases v,
{
    match v {
        Json::Null => Ok(AttributeValue::Null),
        Json::Bool(b) => Ok(AttributeValue::Bool(*b)),
        Json::Str(s) => Ok(AttributeValue::S(copy_string(s))),
        Json::Number(t) => Ok(AttributeValue::N(Number(copy_string(t)))),
        Json::Array(items) => {
            let mut out: Vec<AttributeValue> = Vec::new();
            let mut i: usize = 0;
            while i < items.len()
                invariant
                    *v == Json::Array(*items),
                    i <= items@.len(),
                    conv(*v, i as nat) == Some(Model::L(list_model(out@))),
                decreases items@.len() - i,
            {
                assert(decreases_to!(*v => v->Array_0));
                assert(decreases_to!(*items => items@));
                assert(decreases_to!(items@ => items@[i as int]));
                let a = match json_to_attr(&items[i]) {
                    Ok(a) => a,
                    Err(e) => {
                        proof {
                            assert(conv(*v, (i + 1) as nat) is None);
                            lemma_conv_none(*v, (i + 1) as nat, parts(*v));
                        }
                        return Err(e);
                    },
                };
                proof {
                    assert(out@.push(a).drop_last() =~= out@);
                }
                out.push(a);
                i = i + 1;
            }
            Ok(AttributeValue::L(out))
        },
        Json::Object(fields) => {
            if fields.len() == 1 && str_eq(fields[0].0.as_str(), "$binary") {
                if let Json::Str(hex) = &fields[0].1 {
                    assert(special(fields@));
                    let bytes = binary_of_hex(hex.as_str())?;
                    return Ok(AttributeValue::B(bytes));
                }
            }
            if fields.len() == 1 {
                let tag = fields[0].0.as_str();
                if str_eq(tag, "$ss") || str_eq(tag, "$ns") || str_eq(tag, "$bs") {
                    proof {
                        reveal_strlit("$binary");
                        reveal_strlit("$ss");
                        reveal_strlit("$ns");
                        reveal_strlit("$bs");
                    }
                    assert("$binary"@.len() == 7);
                    assert(tag@.len() == 3);
                    assert(tag@ != "$binary"@);
                    assert(special(fields@));
                    return match &fields[0].1 {
                        Json::Array(elems) => set_of_json(tag, elems),
                        _ => Err(validation("a set must be written as an array")),
                    };
                }
            }
            assert(!special(fields@));
            let mut out: AttrMap<AttributeValue> = AttrMap::new();
            let mut i: usize = 0;
            while i < fields.len()
                invariant
                    *v == Json::Object(*fields),
                    !special(fields@),
                    i <= fields@.len(),
                    conv(*v, i as nat) == Some(Model::M(entries_model(out.entries@))),
                decreases fields@.len() - i,
            {
                assert(decreases_to!(*v => v->Object_0));
                assert(decreases_to!(*fields => fields@));
                assert(decreases_to!(fields@ => fields@[i as int]));
                assert(decreases_to!(fields@[i as int] => fields@[i as int].1));
                let a = match json_to_attr(&fields[i].1) {
                    Ok(a) => a,
                    Err(e) => {
                        proof {
                            assert(conv(*v, (i + 1) as nat) is None);
                            lemma_conv_none(*v, (i + 1) as nat, parts(*v));
                        }
                        return Err(e);
                    },
                };
                let key = copy_string(&fields[i].0);
                proof {
                    lemma_put_model(out.entries@, key, a);
                }
                out.insert(key, a);
                i = i + 1;
            }
            Ok(AttributeValue::M(out))
        },
    }
}

/// The entries an item object becomes with its first `n` members
/// converted (no special forms at the top: every member is an attribute).
pub open spec fn item_conv(f: Seq<(String, Json)>, n: nat) -> Option<Seq<(Seq<char>, Model)>>
    decreases n,
{
    if n == 0 {
        Some(Seq::empty())
    } else if n > f.len() {
        None
    } else {
        match (item_conv(f, (n - 1) as nat), attr_of(f[n - 1].1)) {
            (Some(s), Some(m)) => Some(put_entry(s, f[n - 1].0@, m)),
            _ => None,
        }
    }
}

proof fn lemma_item_conv_none(f: Seq<(String, Json)>, n: nat, m: nat)
    requires
        n <= m,
        item_conv(f, n) is None,
    ensures
        item_conv(f, m) is None,
    decreases m - n,
{
    if n < m {
        lemma_item_conv_none(f, n, (m - 1) as nat);
    }
}

/// Converts a JSON object to an item, member by member; anything else is
/// a `Validation` error.
pub fn json_to_item(v: &Json) -> (r: Result<Item, DbError>)
    ensures
        match (v, r) {
            (Json::Object(f), Ok(it)) => item_conv(f@, f@.len()) == Some(it.model()),
            (Json::Object(f), Err(e)) => item_conv(f@, f@.len()) is None && e is Validation,
            (_, Ok(_)) => false,
            (_, Err(e)) => e is Validation,
        },
{
    match v {
        Json::Object(fields) => {
            let mut out: Item = AttrMap::new();
            let mut i: usize = 0;
            while i < fields.len()
                invariant
                    *v == Json::Object(*fields),
                    i <= fields@.len(),
                    item_conv(fields@, i as nat) == Some(out.model()),
                decreases fields@.len() - i,
            {
                let a = match json_to_attr(&fields[i].1) {
                    Ok(a) => a,
                    Err(e) => {
                        proof {
                            assert(item_conv(fields@, (i + 1) as nat) is None);
                            lemma_item_conv_none(fields@, (i + 1) as nat, fields@.len());
                        }
                        return Err(e);
                    },
                };
                let key = copy_string(&fields[i].0);
                proof {
                    lemma_put_model(out.entries@, key, a);
                }
                out.insert(key, a);
                i = i + 1;
            }
            Ok(out)
        },
        _ => Err(validation("expected a JSON object for an item")),
    }
}

} // verus!
