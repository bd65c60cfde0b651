//! The evaluator of conditions and filters: a pure function of the syntax
//! tree, the item and the placeholders.
//!
//! - comparisons on a missing attribute or on values of different types are
//!   false, not errors;
//! - an unknown placeholder or a bad type descriptor is a validation error;
//! - N values compare as numbers ("1.0" = "1");
//! - S values order by their UTF-8 bytes, and size(S) is the UTF-8 length.
use vstd::prelude::*;
use crate::domain::attribute::{
    AttrMap, AttributeValue, Item, Model, Number, bytes_model, copy_string, entries_model,
    lemma_entries_model, lemma_find_model, lemma_list_model, list_model, model_find, model_of,
    numbers_model, strings_model,
};
use crate::domain::byte_order::{bytes_eq, compare_bytes, contains_bytes, lex_order, occurs_in, starts_with_bytes};
use crate::domain::number::{Dec, dec_order, number_order, parse_spec};
use crate::domain::text::{nat_chars, str_eq, usize_text, utf8};
use crate::domain::error::{DbError, validation};
use crate::domain::expr::ast::{CmpOp, Expr, Operand, Path, PathSeg};

verus! {

/// The expression attribute names (`#n` → name) and values (`:v` → value),
/// keyed by the placeholder with its sigil.
pub struct ExprContext<'a> {
    pub names: &'a AttrMap<String>,
    pub values: &'a AttrMap<AttributeValue>,
}

/// The key of a name placeholder: `#` and the placeholder.
pub open spec fn name_key(ph: Seq<char>) -> Seq<char> {
    seq!['#'] + ph
}

/// The key of a value placeholder: `:` and the placeholder.
pub open spec fn value_key(ph: Seq<char>) -> Seq<char> {
    seq![':'] + ph
}

/// The value a value placeholder stands for; `None` where it is unknown.
pub open spec fn value_of(values: AttrMap<AttributeValue>, ph: Seq<char>) -> Option<Model> {
    match values.find(value_key(ph)) {
        Some(v) => Some(model_of(v)),
        None => None,
    }
}

/// The attribute name a path segment stands for; an error for an unknown
/// `#name` and for a list index.
pub open spec fn seg_key(names: AttrMap<String>, seg: PathSeg) -> Result<Seq<char>, ()> {
    match seg {
        PathSeg::Name(n) => Ok(n@),
        PathSeg::Placeholder(ph) => match names.find(name_key(ph@)) {
            Some(v) => Ok(v@),
            None => Err(()),
        },
        PathSeg::Index(_) => Err(()),
    }
}

/// Follows the segments from `cur`: an index into a list, a name into a map.
/// `Ok(None)` as soon as a step finds nothing; names are resolved only where
/// a map is reached.
pub open spec fn walk(names: AttrMap<String>, cur: Model, segs: Seq<PathSeg>) -> Result<
    Option<Model>,
    (),
>
    decreases segs.len(),
{
    if segs.len() == 0 {
        Ok(Some(cur))
    } else {
        match segs[0] {
            PathSeg::Index(i) => match cur {
                Model::L(l) => if i < l.len() {
                    walk(names, l[i as int], segs.drop_first())
                } else {
                    Ok(None)
                },
                _ => Ok(None),
            },
            seg => match cur {
                Model::M(m) => match seg_key(names, seg) {
                    Err(()) => Err(()),
                    Ok(k) => match model_find(m, k) {
                        Some(v) => walk(names, v, segs.drop_first()),
                        None => Ok(None),
                    },
                },
                _ => Ok(None),
            },
        }
    }
}

/// The value a path designates in the item: `Ok(None)` where it is missing,
/// an error where the path is empty or names an unknown `#name`.
pub open spec fn resolve_spec(names: AttrMap<String>, item: Item, p: Seq<PathSeg>) -> Result<
    Option<Model>,
    (),
> {
    if p.len() == 0 {
        Err(())
    } else {
        match seg_key(names, p[0]) {
            Err(()) => Err(()),
            Ok(k) => match item.find(k) {
                None => Ok(None),
                Some(v) => walk(names, model_of(v), p.drop_first()),
            },
        }
    }
}

/// The value of a value placeholder (`ph` without its `:`).
pub fn lookup_value<'b>(ph: &str, ctx: &ExprContext<'b>) -> (r: Result<&'b AttributeValue, DbError>)
    ensures
        match r {
            Ok(v) => ctx.values.find(value_key(ph@)) == Some(*v),
            Err(e) => ctx.values.find(value_key(ph@)) is None && e is Validation,
        },
{
    assert((58u8 as char) == ':');
    match ctx.values.get_tagged(58, ph) {
        Some(v) => Ok(v),
        None => Err(validation("unknown expression attribute value")),
    }
}

/// The attribute name a path segment stands for.
pub fn seg_name(seg: &PathSeg, ctx: &ExprContext) -> (r: Result<String, DbError>)
    ensures
        match r {
            Ok(n) => seg_key(*ctx.names, *seg) == Ok::<Seq<char>, ()>(n@),
            Err(e) => seg_key(*ctx.names, *seg) is Err && e is Validation,
        },
{
    match seg {
        PathSeg::Name(n) => Ok(copy_string(n)),
        PathSeg::Placeholder(ph) => {
            assert((35u8 as char) == '#');
            match ctx.names.get_tagged(35, ph.as_str()) {
                Some(v) => Ok(copy_string(v)),
                None => Err(validation("unknown expression attribute name")),
            }
        },
        PathSeg::Index(_) => Err(validation("attribute path cannot start with a list index")),
    }
}

/// The value a path designates in the item, if any.
pub fn resolve_path<'i>(path: &Path, item: &'i Item, ctx: &ExprContext) -> (r: Result<
    Option<&'i AttributeValue>,
    DbError,
>)
    ensures
        match r {
            Ok(Some(v)) => resolve_spec(*ctx.names, *item, path.0@) == Ok::<Option<Model>, ()>(
                Some(model_of(*v)),
            ),
            Ok(None) => resolve_spec(*ctx.names, *item, path.0@) == Ok::<Option<Model>, ()>(None),
            Err(e) => resolve_spec(*ctx.names, *item, path.0@) is Err && e is Validation,
        },
{
    let segs = &path.0;
    if segs.len() == 0 {
        return Err(validation("empty attribute path"));
    }
    let head = seg_name(&segs[0], ctx)?;
    let mut cur: &AttributeValue = match item.get(head.as_str()) {
        Some(v) => v,
        None => {
            return Ok(None);
        },
    };
    let ghost names = *ctx.names;
    let ghost whole = resolve_spec(names, *item, segs@);
    let mut i: usize = 1;
    assert(segs@.skip(1) =~= segs@.drop_first());
    while i < segs.len()
        invariant
            names == *ctx.names,
            segs@ == path.0@,
            whole == resolve_spec(names, *item, segs@),
            1 <= i <= segs@.len(),
            whole == walk(names, model_of(*cur), segs@.skip(i as int)),
        decreases segs@.len() - i,
    {
        let ghost rest = segs@.skip(i as int);
        assert(rest[0] == segs@[i as int]);
        assert(rest.drop_first() =~= segs@.skip(i + 1));
        let next: Option<&AttributeValue> = match &segs[i] {
            PathSeg::Index(idx) => match cur {
                AttributeValue::L(list) => {
                    proof {
                        lemma_list_model(list@);
                    }
                    if *idx < list.len() {
                        Some(&list[*idx])
                    } else {
                        None
                    }
                },
                _ => None,
            },
            seg => match cur {
                AttributeValue::M(map) => {
                    let name = seg_name(seg, ctx)?;
                    proof {
                        lemma_find_model(map.entries@, name@);
                    }
                    map.get(name.as_str())
                },
                _ => None,
            },
        };
        proof {
            match next {
                Some(v) => assert(whole == walk(names, model_of(*v), rest.drop_first())),
                None => assert(whole == Ok::<Option<Model>, ()>(None)),
            }
        }
        match next {
            Some(v) => {
                cur = v;
            },
            None => {
                return Ok(None);
            },
        }
        i = i + 1;
    }
    assert(segs@.skip(i as int) =~= Seq::<PathSeg>::empty());
    Ok(Some(cur))
}

} // verus!

verus! {

/// The decimal an N value's text stands for, if it is a valid number.
pub open spec fn num_of(t: Seq<char>) -> Option<Dec> {
    parse_spec(utf8(t))
}

/// Equality of two values: N by numeric value (an error where either text is
/// not a number), L and M element by element in order, all else
/// structurally. Sets compare structurally: built normalized, equal sets are
/// equal sequences.
pub open spec fn equal_spec(a: Model, b: Model) -> Result<bool, ()>
    decreases a,
{
    match (a, b) {
        (Model::N(x), Model::N(y)) => match (num_of(x), num_of(y)) {
            (Some(dx), Some(dy)) => Ok(dec_order(dx, dy) == 0),
            _ => Err(()),
        },
        (Model::L(xs), Model::L(ys)) => if xs.len() != ys.len() {
            Ok(false)
        } else {
            list_equal(xs, ys)
        },
        (Model::M(xs), Model::M(ys)) => if xs.len() != ys.len() {
            Ok(false)
        } else {
            entries_equal(xs, ys)
        },
        _ => Ok(a == b),
    }
}

/// Pairwise equality of two lists of the same length, stopping at the first
/// pair that differs.
pub open spec fn list_equal(xs: Seq<Model>, ys: Seq<Model>) -> Result<bool, ()>
    decreases xs,
{
    if xs.len() == 0 {
        Ok(true)
    } else {
        match equal_spec(xs[0], ys[0]) {
            Err(()) => Err(()),
            Ok(false) => Ok(false),
            Ok(true) => list_equal(xs.drop_first(), ys.drop_first()),
        }
    }
}

/// Pairwise equality of two maps' entries in order: same key, equal value.
pub open spec fn entries_equal(xs: Seq<(Seq<char>, Model)>, ys: Seq<(Seq<char>, Model)>) -> Result<
    bool,
    (),
>
    decreases xs,
{
    if xs.len() == 0 {
        Ok(true)
    } else if xs[0].0 != ys[0].0 {
        Ok(false)
    } else {
        match equal_spec(xs[0].1, ys[0].1) {
            Err(()) => Err(()),
            Ok(false) => Ok(false),
            Ok(true) => entries_equal(xs.drop_first(), ys.drop_first()),
        }
    }
}

/// Three-way order of two values: S by UTF-8 bytes, B by bytes, N by value
/// (an error where either text is not a number); `None` for other pairs.
pub open spec fn order_spec(a: Model, b: Model) -> Result<Option<int>, ()> {
    match (a, b) {
        (Model::S(x), Model::S(y)) => Ok(Some(lex_order(utf8(x), utf8(y)))),
        (Model::B(x), Model::B(y)) => Ok(Some(lex_order(x, y))),
        (Model::N(x), Model::N(y)) => match (num_of(x), num_of(y)) {
            (Some(dx), Some(dy)) => Ok(Some(dec_order(dx, dy))),
            _ => Err(()),
        },
        _ => Ok(None),
    }
}

fn strings_eq(a: &Vec<String>, b: &Vec<String>) -> (r: bool)
    ensures
        r == (strings_model(a@) == strings_model(b@)),
{
    if a.len() != b.len() {
        assert(strings_model(a@).len() != strings_model(b@).len());
        return false;
    }
    let mut i: usize = 0;
    while i < a.len()
        invariant
            a@.len() == b@.len(),
            i <= a@.len(),
            forall|k: int| 0 <= k < i ==> a@[k]@ == b@[k]@,
        decreases a@.len() - i,
    {
        if !str_eq(a[i].as_str(), b[i].as_str()) {
            assert(strings_model(a@)[i as int] != strings_model(b@)[i as int]);
            return false;
        }
        i = i + 1;
    }
    assert(strings_model(a@) =~= strings_model(b@));
    true
}

fn numbers_eq(a: &Vec<Number>, b: &Vec<Number>) -> (r: bool)
    ensures
        r == (numbers_model(a@) == numbers_model(b@)),
{
    if a.len() != b.len() {
        assert(numbers_model(a@).len() != numbers_model(b@).len());
        return false;
    }
    let mut i: usize = 0;
    while i < a.len()
        invariant
            a@.len() == b@.len(),
            i <= a@.len(),
            forall|k: int| 0 <= k < i ==> a@[k].0@ == b@[k].0@,
        decreases a@.len() - i,
    {
        if !str_eq(a[i].0.as_str(), b[i].0.as_str()) {
            assert(numbers_model(a@)[i as int] != numbers_model(b@)[i as int]);
            return false;
        }
        i = i + 1;
    }
    assert(numbers_model(a@) =~= numbers_model(b@));
    true
}

fn byte_strings_eq(a: &Vec<Vec<u8>>, b: &Vec<Vec<u8>>) -> (r: bool)
    ensures
        r == (bytes_model(a@) == bytes_model(b@)),
{
    if a.len() != b.len() {
        assert(bytes_model(a@).len() != bytes_model(b@).len());
        return false;
    }
    let mut i: usize = 0;
    while i < a.len()
        invariant
            a@.len() == b@.len(),
            i <= a@.len(),
            forall|k: int| 0 <= k < i ==> a@[k]@ == b@[k]@,
        decreases a@.len() - i,
    {
        if !bytes_eq(a[i].as_slice(), b[i].as_slice()) {
            assert(bytes_model(a@)[i as int] != bytes_model(b@)[i as int]);
            return false;
        }
        i = i + 1;
    }
    assert(bytes_model(a@) =~= bytes_model(b@));
    true
}

/// Equality of two values, as `equal_spec` says.
pub fn values_equal(a: &AttributeValue, b: &AttributeValue) -> (r: Result<bool, DbError>)
    ensures
        match r {
            Ok(x) => equal_spec(a@, b@) == Ok::<bool, ()>(x),
            Err(e) => equal_spec(a@, b@) is Err && e is Validation,
        },
    decreases a,
{
    match (a, b) {
        (AttributeValue::N(x), AttributeValue::N(y)) => {
            let c = number_order(x, y)?;
            Ok(c == 0)
        },
        (AttributeValue::L(xs), AttributeValue::L(ys)) => {
            proof {
                lemma_list_model(xs@);
                lemma_list_model(ys@);
            }
            if xs.len() != ys.len() {
                return Ok(false);
            }
            let ghost mx = list_model(xs@);
            let ghost my = list_model(ys@);
            let mut i: usize = 0;
            assert(mx.skip(0) =~= mx);
            assert(my.skip(0) =~= my);
            while i < xs.len()
                invariant
                    xs@.len() == ys@.len(),
                    mx == list_model(xs@),
                    my == list_model(ys@),
                    mx.len() == xs@.len(),
                    my.len() == ys@.len(),
                    forall|k: int| 0 <= k < xs@.len() ==> #[trigger] mx[k] == model_of(xs@[k]),
                    forall|k: int| 0 <= k < ys@.len() ==> #[trigger] my[k] == model_of(ys@[k]),
                    i <= xs@.len(),
                    equal_spec(a@, b@) == list_equal(mx.skip(i as int), my.skip(i as int)),
                    *a == AttributeValue::L(*xs),
                    *b == AttributeValue::L(*ys),
                decreases xs@.len() - i,
            {
                assert(mx.skip(i as int)[0] == mx[i as int]);
                assert(my.skip(i as int)[0] == my[i as int]);
                assert(mx.skip(i as int).drop_first() =~= mx.skip(i + 1));
                assert(my.skip(i as int).drop_first() =~= my.skip(i + 1));
                if !values_equal(&xs[i], &ys[i])? {
                    return Ok(false);
                }
                i = i + 1;
            }
            Ok(true)
        },
        (AttributeValue::M(xs), AttributeValue::M(ys)) => {
            proof {
                lemma_entries_model(xs.entries@);
                lemma_entries_model(ys.entries@);
            }
            if xs.entries.len() != ys.entries.len() {
                return Ok(false);
            }
            let ghost mx = entries_model(xs.entries@);
            let ghost my = entries_model(ys.entries@);
            let mut i: usize = 0;
            assert(mx.skip(0) =~= mx);
            assert(my.skip(0) =~= my);
            while i < xs.entries.len()
                invariant
                    xs.entries@.len() == ys.entries@.len(),
                    mx == entries_model(xs.entries@),
                    my == entries_model(ys.entries@),
                    mx.len() == xs.entries@.len(),
                    my.len() == ys.entries@.len(),
                    forall|k: int|
                        0 <= k < xs.entries@.len() ==> #[trigger] mx[k] == (
                            xs.entries@[k].0@,
                            model_of(xs.entries@[k].1),
                        ),
                    forall|k: int|
                        0 <= k < ys.entries@.len() ==> #[trigger] my[k] == (
                            ys.entries@[k].0@,
                            model_of(ys.entries@[k].1),
                        ),
                    i <= xs.entries@.len(),
                    equal_spec(a@, b@) == entries_equal(mx.skip(i as int), my.skip(i as int)),
                    *a == AttributeValue::M(*xs),
                    *b == AttributeValue::M(*ys),
                decreases xs.entries@.len() - i,
            {
                assert(mx.skip(i as int)[0] == mx[i as int]);
                assert(my.skip(i as int)[0] == my[i as int]);
                assert(mx.skip(i as int).drop_first() =~= mx.skip(i + 1));
                assert(my.skip(i as int).drop_first() =~= my.skip(i + 1));
                if !str_eq(xs.entries[i].0.as_str(), ys.entries[i].0.as_str()) {
                    return Ok(false);
                }
                if !values_equal(&xs.entries[i].1, &ys.entries[i].1)? {
                    return Ok(false);
                }
                i = i + 1;
            }
            Ok(true)
        },
        (AttributeValue::S(x), AttributeValue::S(y)) => Ok(str_eq(x.as_str(), y.as_str())),
        (AttributeValue::B(x), AttributeValue::B(y)) => Ok(bytes_eq(x.as_slice(), y.as_slice())),
        (AttributeValue::Bool(x), AttributeValue::Bool(y)) => Ok(*x == *y),
        (AttributeValue::Null, AttributeValue::Null) => Ok(true),
        (AttributeValue::Ss(x), AttributeValue::Ss(y)) => Ok(strings_eq(x, y)),
        (AttributeValue::Ns(x), AttributeValue::Ns(y)) => Ok(numbers_eq(x, y)),
        (AttributeValue::Bs(x), AttributeValue::Bs(y)) => Ok(byte_strings_eq(x, y)),
        _ => Ok(false),
    }
}

/// Three-way order of two values, as `order_spec` says.
pub fn try_order(a: &AttributeValue, b: &AttributeValue) -> (r: Result<Option<i8>, DbError>)
    ensures
        match r {
            Ok(Some(c)) => order_spec(a@, b@) == Ok::<Option<int>, ()>(Some(c as int)),
            Ok(None) => order_spec(a@, b@) == Ok::<Option<int>, ()>(None),
            Err(e) => order_spec(a@, b@) is Err && e is Validation,
        },
{
    match (a, b) {
        (AttributeValue::S(x), AttributeValue::S(y)) => Ok(
            Some(compare_bytes(x.as_str().as_bytes(), y.as_str().as_bytes())),
        ),
        (AttributeValue::B(x), AttributeValue::B(y)) => Ok(
            Some(compare_bytes(x.as_slice(), y.as_slice())),
        ),
        (AttributeValue::N(x), AttributeValue::N(y)) => {
            let c = number_order(x, y)?;
            Ok(Some(c))
        },
        _ => Ok(None),
    }
}

} // verus!

verus! {

/// The size of a value: UTF-8 length of S, length of B, number of elements
/// of L, M and sets; `None` for other types.
pub open spec fn size_spec(m: Model) -> Option<nat> {
    match m {
        Model::S(s) => Some(utf8(s).len()),
        Model::B(b) => Some(b.len()),
        Model::L(l) => Some(l.len()),
        Model::M(e) => Some(e.len()),
        Model::Ss(v) => Some(v.len()),
        Model::Ns(v) => Some(v.len()),
        Model::Bs(v) => Some(v.len()),
        _ => None,
    }
}

/// The value of an operand: a placeholder's value (an error where unknown),
/// a path's value, or the size of a path's value as an N.
pub open spec fn operand_spec(
    o: Operand,
    item: Item,
    names: AttrMap<String>,
    values: AttrMap<AttributeValue>,
) -> Result<Option<Model>, ()> {
    match o {
        Operand::Value(ph) => match value_of(values, ph@) {
            Some(m) => Ok(Some(m)),
            None => Err(()),
        },
        Operand::Path(p) => resolve_spec(names, item, p.0@),
        Operand::Size(p) => match resolve_spec(names, item, p.0@) {
            Err(()) => Err(()),
            Ok(None) => Ok(None),
            Ok(Some(m)) => match size_spec(m) {
                Some(n) => Ok(Some(Model::N(nat_chars(n)))),
                None => Ok(None),
            },
        },
    }
}

/// The type descriptor of a value.
pub open spec fn type_desc_spec(m: Model) -> Seq<char> {
    match m {
        Model::S(_) => "S"@,
        Model::N(_) => "N"@,
        Model::B(_) => "B"@,
        Model::Bool(_) => "BOOL"@,
        Model::Null => "NULL"@,
        Model::M(_) => "M"@,
        Model::L(_) => "L"@,
        Model::Ss(_) => "SS"@,
        Model::Ns(_) => "NS"@,
        Model::Bs(_) => "BS"@,
    }
}

/// The type descriptors `attribute_type` accepts.
pub open spec fn known_type(t: Seq<char>) -> bool {
    t == "S"@ || t == "N"@ || t == "B"@ || t == "BOOL"@ || t == "NULL"@ || t == "M"@ || t == "L"@
        || t == "SS"@ || t == "NS"@ || t == "BS"@
}

/// Whether an NS holds a number equal in value to `x`, testing the elements
/// in order; an error at the first element where a text is not a number.
pub open spec fn num_set_contains(set: Seq<Seq<char>>, x: Seq<char>) -> Result<bool, ()>
    decreases set.len(),
{
    if set.len() == 0 {
        Ok(false)
    } else {
        match (num_of(set[0]), num_of(x)) {
            (Some(a), Some(b)) => if dec_order(a, b) == 0 {
                Ok(true)
            } else {
                num_set_contains(set.drop_first(), x)
            },
            _ => Err(()),
        }
    }
}

/// Whether a list holds an element equal to `x`, testing in order.
pub open spec fn list_contains(list: Seq<Model>, x: Model) -> Result<bool, ()>
    decreases list.len(),
{
    if list.len() == 0 {
        Ok(false)
    } else {
        match equal_spec(list[0], x) {
            Err(()) => Err(()),
            Ok(true) => Ok(true),
            Ok(false) => list_contains(list.drop_first(), x),
        }
    }
}

/// `contains(target, needle)`: a substring of an S, an element of an L or of
/// a set of the needle's type; false for other pairs.
pub open spec fn contains_spec(t: Model, n: Model) -> Result<bool, ()> {
    match (t, n) {
        (Model::S(t), Model::S(n)) => Ok(occurs_in(utf8(t), utf8(n))),
        (Model::L(l), _) => list_contains(l, n),
        (Model::Ss(v), Model::S(x)) => Ok(v.contains(x)),
        (Model::Ns(v), Model::N(x)) => num_set_contains(v, x),
        (Model::Bs(v), Model::B(x)) => Ok(v.contains(x)),
        _ => Ok(false),
    }
}

/// `begins_with(target, prefix)` on two S (by bytes) or two B.
pub open spec fn begins_spec(t: Model, p: Model) -> bool {
    match (t, p) {
        (Model::S(t), Model::S(p)) => utf8(p).len() <= utf8(t).len() && utf8(t).subrange(
            0,
            utf8(p).len() as int,
        ) == utf8(p),
        (Model::B(t), Model::B(p)) => p.len() <= t.len() && t.subrange(0, p.len() as int) == p,
        _ => false,
    }
}

/// A comparison of two present values.
pub open spec fn compare_spec(op: CmpOp, l: Model, r: Model) -> Result<bool, ()> {
    match op {
        CmpOp::Eq => equal_spec(l, r),
        CmpOp::Ne => match equal_spec(l, r) {
            Ok(b) => Ok(!b),
            Err(()) => Err(()),
        },
        _ => match order_spec(l, r) {
            Err(()) => Err(()),
            Ok(None) => Ok(false),
            Ok(Some(c)) => Ok(
                match op {
                    CmpOp::Lt => c < 0,
                    CmpOp::Le => c <= 0,
                    CmpOp::Gt => c > 0,
                    _ => c >= 0,
                },
            ),
        },
    }
}

/// `x IN (list)`: the candidates are resolved in order; a missing one is
/// skipped, the first equal one makes it true.
pub open spec fn in_spec(
    x: Model,
    list: Seq<Operand>,
    item: Item,
    names: AttrMap<String>,
    values: AttrMap<AttributeValue>,
) -> Result<bool, ()>
    decreases list.len(),
{
    if list.len() == 0 {
        Ok(false)
    } else {
        match operand_spec(list[0], item, names, values) {
            Err(()) => Err(()),
            Ok(None) => in_spec(x, list.drop_first(), item, names, values),
            Ok(Some(c)) => match equal_spec(x, c) {
                Err(()) => Err(()),
                Ok(true) => Ok(true),
                Ok(false) => in_spec(x, list.drop_first(), item, names, values),
            },
        }
    }
}

/// The truth of a condition on an item. `AND` / `OR` do not evaluate their
/// right side when the left side decides; an error anywhere evaluated is
/// an error of the whole.
pub open spec fn eval_spec(
    e: Expr,
    item: Item,
    names: AttrMap<String>,
    values: AttrMap<AttributeValue>,
) -> Result<bool, ()>
    decreases e,
{
    match e {
        Expr::And(a, b) => match eval_spec(*a, item, names, values) {
            Err(()) => Err(()),
            Ok(false) => Ok(false),
            Ok(true) => eval_spec(*b, item, names, values),
        },
        Expr::Or(a, b) => match eval_spec(*a, item, names, values) {
            Err(()) => Err(()),
            Ok(true) => Ok(true),
            Ok(false) => eval_spec(*b, item, names, values),
        },
        Expr::Not(x) => match eval_spec(*x, item, names, values) {
            Err(()) => Err(()),
            Ok(v) => Ok(!v),
        },
        Expr::Cmp { op, left, right } => match operand_spec(left, item, names, values) {
            Err(()) => Err(()),
            Ok(l) => match operand_spec(right, item, names, values) {
                Err(()) => Err(()),
                Ok(r) => match (l, r) {
                    (Some(l), Some(r)) => compare_spec(op, l, r),
                    _ => Ok(false),
                },
            },
        },
        Expr::Between { target, lo, hi } => match operand_spec(target, item, names, values) {
            Err(()) => Err(()),
            Ok(x) => match operand_spec(lo, item, names, values) {
                Err(()) => Err(()),
                Ok(l) => match operand_spec(hi, item, names, values) {
                    Err(()) => Err(()),
                    Ok(h) => match (x, l, h) {
                        (Some(x), Some(l), Some(h)) => match order_spec(l, x) {
                            Err(()) => Err(()),
                            Ok(a) => match order_spec(x, h) {
                                Err(()) => Err(()),
                                Ok(b) => Ok(
                                    match (a, b) {
                                        (Some(a), Some(b)) => a <= 0 && b <= 0,
                                        _ => false,
                                    },
                                ),
                            },
                        },
                        _ => Ok(false),
                    },
                },
            },
        },
        Expr::In { target, list } => match operand_spec(target, item, names, values) {
            Err(()) => Err(()),
            Ok(None) => Ok(false),
            Ok(Some(x)) => in_spec(x, list@, item, names, values),
        },
        Expr::AttributeExists(p) => match resolve_spec(names, item, p.0@) {
            Err(()) => Err(()),
            Ok(v) => Ok(v is Some),
        },
        Expr::AttributeNotExists(p) => match resolve_spec(names, item, p.0@) {
            Err(()) => Err(()),
            Ok(v) => Ok(v is None),
        },
        Expr::AttributeType(p, ph) => match value_of(values, ph@) {
            Some(Model::S(t)) => if known_type(t) {
                match resolve_spec(names, item, p.0@) {
                    Err(()) => Err(()),
                    Ok(None) => Ok(false),
                    Ok(Some(v)) => Ok(type_desc_spec(v) == t),
                }
            } else {
                Err(())
            },
            _ => Err(()),
        },
        Expr::BeginsWith(p, o) => match resolve_spec(names, item, p.0@) {
            Err(()) => Err(()),
            Ok(t) => match operand_spec(o, item, names, values) {
                Err(()) => Err(()),
                Ok(pr) => match (t, pr) {
                    (Some(t), Some(pr)) => Ok(begins_spec(t, pr)),
                    _ => Ok(false),
                },
            },
        },
        Expr::Contains(p, o) => match resolve_spec(names, item, p.0@) {
            Err(()) => Err(()),
            Ok(t) => match operand_spec(o, item, names, values) {
                Err(()) => Err(()),
                Ok(n) => match (t, n) {
                    (Some(t), Some(n)) => contains_spec(t, n),
                    _ => Ok(false),
                },
            },
        },
    }
}

/// The size of a value, as `size_spec` says.
fn size_of(v: &AttributeValue) -> (r: Option<usize>)
    ensures
        match r {
            Some(n) => size_spec(v@) == Some(n as nat),
            None => size_spec(v@) is None,
        },
{
    match v {
        AttributeValue::S(s) => Some(s.as_str().as_bytes().len()),
        AttributeValue::B(b) => Some(b.len()),
        AttributeValue::L(l) => {
            proof {
                lemma_list_model(l@);
            }
            Some(l.len())
        },
        AttributeValue::M(m) => {
            proof {
                lemma_entries_model(m.entries@);
            }
            Some(m.entries.len())
        },
        AttributeValue::Ss(x) => Some(x.len()),
        AttributeValue::Ns(x) => Some(x.len()),
        AttributeValue::Bs(x) => Some(x.len()),
        _ => None,
    }
}

/// The value of an operand, as `operand_spec` says.
pub fn resolve_operand(op: &Operand, item: &Item, ctx: &ExprContext) -> (r: Result<
    Option<AttributeValue>,
    DbError,
>)
    ensures
        match r {
            Ok(Some(v)) => operand_spec(*op, *item, *ctx.names, *ctx.values) == Ok::<
                Option<Model>,
                (),
            >(Some(v@)),
            Ok(None) => operand_spec(*op, *item, *ctx.names, *ctx.values) == Ok::<
                Option<Model>,
                (),
            >(None),
            Err(e) => operand_spec(*op, *item, *ctx.names, *ctx.values) is Err && e is Validation,
        },
{
    match op {
        Operand::Value(ph) => {
            let v = lookup_value(ph.as_str(), ctx)?;
            Ok(Some(v.duplicate()))
        },
        Operand::Path(p) => match resolve_path(p, item, ctx)? {
            Some(v) => Ok(Some(v.duplicate())),
            None => Ok(None),
        },
        Operand::Size(p) => match resolve_path(p, item, ctx)? {
            Some(v) => match size_of(v) {
                Some(n) => Ok(Some(AttributeValue::N(Number(usize_text(n))))),
                None => Ok(None),
            },
            None => Ok(None),
        },
    }
}

/// The type descriptor of a value.
fn type_desc(v: &AttributeValue) -> (r: &'static str)
    ensures
        r@ == type_desc_spec(v@),
{
    match v {
        AttributeValue::S(_) => "S",
        AttributeValue::N(_) => "N",
        AttributeValue::B(_) => "B",
        AttributeValue::Bool(_) => "BOOL",
        AttributeValue::Null => "NULL",
        AttributeValue::M(_) => "M",
        AttributeValue::L(_) => "L",
        AttributeValue::Ss(_) => "SS",
        AttributeValue::Ns(_) => "NS",
        AttributeValue::Bs(_) => "BS",
    }
}

fn is_known_type(t: &str) -> (r: bool)
    ensures
        r == known_type(t@),
{
    str_eq(t, "S") || str_eq(t, "N") || str_eq(t, "B") || str_eq(t, "BOOL") || str_eq(t, "NULL")
        || str_eq(t, "M") || str_eq(t, "L") || str_eq(t, "SS") || str_eq(t, "NS") || str_eq(
        t,
        "BS",
    )
}

/// Whether an NS holds a number equal in value to `x`.
pub fn ns_contains(set: &Vec<Number>, x: &Number) -> (r: Result<bool, DbError>)
    ensures
        match r {
            Ok(b) => num_set_contains(numbers_model(set@), x.0@) == Ok::<bool, ()>(b),
            Err(e) => num_set_contains(numbers_model(set@), x.0@) is Err && e is Validation,
        },
{
    let ghost m = numbers_model(set@);
    let mut i: usize = 0;
    assert(m.skip(0) =~= m);
    while i < set.len()
        invariant
            m == numbers_model(set@),
            i <= set@.len(),
            num_set_contains(m, x.0@) == num_set_contains(m.skip(i as int), x.0@),
        decreases set@.len() - i,
    {
        assert(m.skip(i as int)[0] == set@[i as int].0@);
        assert(m.skip(i as int).drop_first() =~= m.skip(i + 1));
        if number_order(&set[i], x)? == 0 {
            return Ok(true);
        }
        i = i + 1;
    }
    Ok(false)
}

pub fn strings_contain(set: &Vec<String>, x: &String) -> (r: bool)
    ensures
        r == strings_model(set@).contains(x@),
{
    let mut i: usize = 0;
    while i < set.len()
        invariant
            i <= set@.len(),
            forall|k: int| 0 <= k < i ==> set@[k]@ != x@,
        decreases set@.len() - i,
    {
        if str_eq(set[i].as_str(), x.as_str()) {
            assert(strings_model(set@)[i as int] == x@);
            return true;
        }
        i = i + 1;
    }
    assert(!strings_model(set@).contains(x@)) by {
        if strings_model(set@).contains(x@) {
            let k = choose|k: int| 0 <= k < strings_model(set@).len() && strings_model(set@)[k] == x@;
            assert(set@[k]@ == x@);
        }
    }
    false
}

pub fn byte_strings_contain(set: &Vec<Vec<u8>>, x: &Vec<u8>) -> (r: bool)
    ensures
        r == bytes_model(set@).contains(x@),
{
    let mut i: usize = 0;
    while i < set.len()
        invariant
            i <= set@.len(),
            forall|k: int| 0 <= k < i ==> set@[k]@ != x@,
        decreases set@.len() - i,
    {
        if bytes_eq(set[i].as_slice(), x.as_slice()) {
            assert(bytes_model(set@)[i as int] == x@);
            return true;
        }
        i = i + 1;
    }
    assert(!bytes_model(set@).contains(x@)) by {
        if bytes_model(set@).contains(x@) {
            let k = choose|k: int| 0 <= k < bytes_model(set@).len() && bytes_model(set@)[k] == x@;
            assert(set@[k]@ == x@);
        }
    }
    false
}

/// `contains(target, needle)`, as `contains_spec` says.
fn contains_value(t: &AttributeValue, n: &AttributeValue) -> (r: Result<bool, DbError>)
    ensures
        match r {
            Ok(b) => contains_spec(t@, n@) == Ok::<bool, ()>(b),
            Err(e) => contains_spec(t@, n@) is Err && e is Validation,
        },
{
    match (t, n) {
        (AttributeValue::S(x), AttributeValue::S(y)) => {
            let xb = x.as_str().as_bytes();
            let yb = y.as_str().as_bytes();
            assert(xb@ == utf8(x@) && yb@ == utf8(y@));
            Ok(contains_bytes(xb, yb))
        },
        (AttributeValue::L(list), _) => {
            let ghost m = list_model(list@);
            proof {
                lemma_list_model(list@);
            }
            let mut i: usize = 0;
            assert(m.skip(0) =~= m);
            while i < list.len()
                invariant
                    m == list_model(list@),
                    m.len() == list@.len(),
                    forall|k: int| 0 <= k < list@.len() ==> #[trigger] m[k] == model_of(list@[k]),
                    i <= list@.len(),
                    contains_spec(t@, n@) == list_contains(m, n@),
                    list_contains(m, n@) == list_contains(m.skip(i as int), n@),
                decreases list@.len() - i,
            {
                assert(m.skip(i as int)[0] == m[i as int]);
                assert(m.skip(i as int).drop_first() =~= m.skip(i + 1));
                if values_equal(&list[i], n)? {
                    return Ok(true);
                }
                i = i + 1;
            }
            assert(m.skip(i as int) =~= Seq::<Model>::empty());
            Ok(false)
        },
        (AttributeValue::Ss(set), AttributeValue::S(x)) => Ok(strings_contain(set, x)),
        (AttributeValue::Ns(set), AttributeValue::N(x)) => ns_contains(set, x),
        (AttributeValue::Bs(set), AttributeValue::B(x)) => Ok(byte_strings_contain(set, x)),
        _ => Ok(false),
    }
}

/// `begins_with(target, prefix)`, as `begins_spec` says.
fn begins_with_value(t: &AttributeValue, p: &AttributeValue) -> (r: bool)
    ensures
        r == begins_spec(t@, p@),
{
    match (t, p) {
        (AttributeValue::S(x), AttributeValue::S(y)) => starts_with_bytes(
            x.as_str().as_bytes(),
            y.as_str().as_bytes(),
        ),
        (AttributeValue::B(x), AttributeValue::B(y)) => starts_with_bytes(
            x.as_slice(),
            y.as_slice(),
        ),
        _ => false,
    }
}

/// A comparison of two present values, as `compare_spec` says.
fn compare_op(op: CmpOp, l: &AttributeValue, r: &AttributeValue) -> (res: Result<bool, DbError>)
    ensures
        match res {
            Ok(b) => compare_spec(op, l@, r@) == Ok::<bool, ()>(b),
            Err(e) => compare_spec(op, l@, r@) is Err && e is Validation,
        },
{
    match op {
        CmpOp::Eq => values_equal(l, r),
        CmpOp::Ne => {
            let b = values_equal(l, r)?;
            Ok(!b)
        },
        _ => match try_order(l, r)? {
            None => Ok(false),
            Some(c) => Ok(
                match op {
                    CmpOp::Lt => c < 0,
                    CmpOp::Le => c <= 0,
                    CmpOp::Gt => c > 0,
                    _ => c >= 0,
                },
            ),
        },
    }
}

/// `x IN (list)`, as `in_spec` says.
fn in_list(x: &AttributeValue, list: &Vec<Operand>, item: &Item, ctx: &ExprContext) -> (r: Result<
    bool,
    DbError,
>)
    ensures
        match r {
            Ok(b) => in_spec(x@, list@, *item, *ctx.names, *ctx.values) == Ok::<bool, ()>(b),
            Err(e) => in_spec(x@, list@, *item, *ctx.names, *ctx.values) is Err && e is Validation,
        },
{
    let ghost names = *ctx.names;
    let ghost values = *ctx.values;
    let mut i: usize = 0;
    assert(list@.skip(0) =~= list@);
    while i < list.len()
        invariant
            names == *ctx.names,
            values == *ctx.values,
            i <= list@.len(),
            in_spec(x@, list@, *item, names, values) == in_spec(
                x@,
                list@.skip(i as int),
                *item,
                names,
                values,
            ),
        decreases list@.len() - i,
    {
        assert(list@.skip(i as int)[0] == list@[i as int]);
        assert(list@.skip(i as int).drop_first() =~= list@.skip(i + 1));
        if let Some(c) = resolve_operand(&list[i], item, ctx)? {
            if values_equal(x, &c)? {
                return Ok(true);
            }
        }
        i = i + 1;
    }
    assert(list@.skip(i as int) =~= Seq::<Operand>::empty());
    Ok(false)
}

/// Evaluates a condition on an item, as `eval_spec` says.
pub fn eval(expr: &Expr, item: &Item, ctx: &ExprContext) -> (r: Result<bool, DbError>)
    ensures
        match r {
            Ok(b) => eval_spec(*expr, *item, *ctx.names, *ctx.values) == Ok::<bool, ()>(b),
            Err(e) => eval_spec(*expr, *item, *ctx.names, *ctx.values) is Err && e is Validation,
        },
    decreases expr,
{
    match expr {
        Expr::And(a, b) => {
            if !eval(a, item, ctx)? {
                return Ok(false);
            }
            eval(b, item, ctx)
        },
        Expr::Or(a, b) => {
            if eval(a, item, ctx)? {
                return Ok(true);
            }
            eval(b, item, ctx)
        },
        Expr::Not(x) => {
            let v = eval(x, item, ctx)?;
            Ok(!v)
        },
        Expr::Cmp { op, left, right } => {
            let l = resolve_operand(left, item, ctx)?;
            let r = resolve_operand(right, item, ctx)?;
            match (l, r) {
                (Some(l), Some(r)) => compare_op(*op, &l, &r),
                _ => Ok(false),
            }
        },
        Expr::Between { target, lo, hi } => {
            let x = resolve_operand(target, item, ctx)?;
            let l = resolve_operand(lo, item, ctx)?;
            let h = resolve_operand(hi, item, ctx)?;
            match (x, l, h) {
                (Some(x), Some(l), Some(h)) => {
                    let a = try_order(&l, &x)?;
                    let b = try_order(&x, &h)?;
                    match (a, b) {
                        (Some(a), Some(b)) => Ok(a <= 0 && b <= 0),
                        _ => Ok(false),
                    }
                },
                _ => Ok(false),
            }
        },
        Expr::In { target, list } => match resolve_operand(target, item, ctx)? {
            None => Ok(false),
            Some(x) => in_list(&x, list, item, ctx),
        },
        Expr::AttributeExists(p) => {
            let v = resolve_path(p, item, ctx)?;
            Ok(v.is_some())
        },
        Expr::AttributeNotExists(p) => {
            let v = resolve_path(p, item, ctx)?;
            Ok(v.is_none())
        },
        Expr::AttributeType(p, ph) => {
            let want = match lookup_value(ph.as_str(), ctx)? {
                AttributeValue::S(t) => t,
                _ => {
                    return Err(validation("attribute_type expects an S type descriptor"));
                },
            };
            if !is_known_type(want.as_str()) {
                return Err(validation("unknown type descriptor"));
            }
            match resolve_path(p, item, ctx)? {
                Some(v) => Ok(str_eq(type_desc(v), want.as_str())),
                None => Ok(false),
            }
        },
        Expr::BeginsWith(p, o) => {
            let t = resolve_path(p, item, ctx)?;
            let pr = resolve_operand(o, item, ctx)?;
            match (t, pr) {
                (Some(t), Some(pr)) => Ok(begins_with_value(t, &pr)),
                _ => Ok(false),
            }
        },
        Expr::Contains(p, o) => {
            let t = resolve_path(p, item, ctx)?;
            let n = resolve_operand(o, item, ctx)?;
            match (t, n) {
                (Some(t), Some(n)) => contains_value(t, &n),
                _ => Ok(false),
            }
        },
    }
}

} // verus!
