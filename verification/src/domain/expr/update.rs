//! Applying an update expression: a pure function of the expression, the item
//! and the placeholders, giving the new item.
//!
//! - every right-hand side of SET is read from the item as it was, before
//!   any action applies (the order of the actions does not matter to the reads);
//! - SET on a nested path needs its parent to exist (a top-level attribute is
//!   created); SET on a list index past the end appends;
//! - REMOVE of a missing path does nothing;
//! - ADD works on top-level attributes only: N adds (a missing attribute
//!   counts as 0), SS / NS / BS take the union (a missing attribute is
//!   created);
//! - DELETE takes the difference of top-level sets; a set left empty is
//!   removed, a missing attribute is left alone.
use vstd::prelude::*;
use crate::domain::arith::{dec_of_scaled, scaled};
use crate::domain::attribute::{
    AttrMap, AttributeValue, Item, Model, Number, bytes_model, drop_entry, entries_model,
    lemma_drop_model, lemma_entries_model, lemma_find_model, lemma_list_model, lemma_put_model,
    list_model, model_find, model_of, numbers_model, put_entry, strings_model,
};
use crate::domain::error::{DbError, validation};
use crate::domain::expr::ast::{Path, PathSeg, SetOperand, SetValue, UpdateExpr};
use crate::domain::expr::eval::{
    ExprContext, byte_strings_contain, lookup_value, ns_contains, num_of, num_set_contains,
    resolve_path, resolve_spec, seg_key, seg_name, strings_contain, value_of,
};
use crate::domain::attribute::{copy_bytes, copy_string};
use crate::domain::number::{Dec, format_spec};
use crate::domain::sets::{norm_bytes, norm_numbers, norm_text};
use crate::domain::text::{owned, utf8};

verus! {

/// The canonical text of a decimal, as characters.
pub open spec fn dec_chars(d: Dec) -> Seq<char> {
    vstd::utf8::decode_utf8(format_spec(d.neg, d.digits, d.exp))
}

/// `x + y` (or `x - y`) of two N values, exact; an error for other types,
/// for a text that is not a number and for a result out of range.
pub open spec fn arith_spec(x: Model, y: Model, minus: bool) -> Result<Model, ()> {
    match (x, y) {
        (Model::N(a), Model::N(b)) => match (num_of(a), num_of(b)) {
            (Some(da), Some(db)) => match dec_of_scaled(
                if minus {
                    scaled(da) - scaled(db)
                } else {
                    scaled(da) + scaled(db)
                },
            ) {
                Some(d) => Ok(Model::N(dec_chars(d))),
                None => Err(()),
            },
            _ => Err(()),
        },
        _ => Err(()),
    }
}

/// The value of a SET term, read from the item: a placeholder's value, a
/// path's value (an error where it is missing), `if_not_exists`, or
/// `list_append` of two lists.
pub open spec fn operand_value(
    o: SetOperand,
    item: Item,
    names: AttrMap<String>,
    values: AttrMap<AttributeValue>,
) -> Result<Model, ()>
    decreases o,
{
    match o {
        SetOperand::Value(ph) => match value_of(values, ph@) {
            Some(m) => Ok(m),
            None => Err(()),
        },
        SetOperand::Path(p) => match resolve_spec(names, item, p.0@) {
            Ok(Some(m)) => Ok(m),
            _ => Err(()),
        },
        SetOperand::IfNotExists(p, d) => match resolve_spec(names, item, p.0@) {
            Err(()) => Err(()),
            Ok(Some(m)) => Ok(m),
            Ok(None) => operand_value(*d, item, names, values),
        },
        SetOperand::ListAppend(a, b) => match (
            operand_value(*a, item, names, values),
            operand_value(*b, item, names, values),
        ) {
            (Ok(Model::L(x)), Ok(Model::L(y))) => Ok(Model::L(x + y)),
            _ => Err(()),
        },
    }
}

/// The value of a SET right-hand side.
pub open spec fn set_value_spec(
    v: SetValue,
    item: Item,
    names: AttrMap<String>,
    values: AttrMap<AttributeValue>,
) -> Result<Model, ()> {
    match v {
        SetValue::Single(o) => operand_value(o, item, names, values),
        SetValue::Plus(a, b) => match (
            operand_value(a, item, names, values),
            operand_value(b, item, names, values),
        ) {
            (Ok(x), Ok(y)) => arith_spec(x, y, false),
            _ => Err(()),
        },
        SetValue::Minus(a, b) => match (
            operand_value(a, item, names, values),
            operand_value(b, item, names, values),
        ) {
            (Ok(x), Ok(y)) => arith_spec(x, y, true),
            _ => Err(()),
        },
    }
}

/// The values of all SET actions, read from the item as it was before the update.
pub open spec fn staged_values(
    sets: Seq<(Path, SetValue)>,
    item: Item,
    names: AttrMap<String>,
    values: AttrMap<AttributeValue>,
) -> Result<Seq<Model>, ()>
    decreases sets.len(),
{
    if sets.len() == 0 {
        Ok(Seq::empty())
    } else {
        match staged_values(sets.drop_last(), item, names, values) {
            Err(()) => Err(()),
            Ok(r) => match set_value_spec(sets.last().1, item, names, values) {
                Err(()) => Err(()),
                Ok(v) => Ok(r.push(v)),
            },
        }
    }
}

/// Sets `v` at the segments below `cur`: the last segment replaces (or, past
/// the end of a list, appends) or binds in a map; the ones before must exist.
pub open spec fn set_at(names: AttrMap<String>, cur: Model, segs: Seq<PathSeg>, v: Model) -> Result<
    Model,
    (),
>
    decreases segs.len(),
{
    if segs.len() == 0 {
        Ok(v)
    } else if segs.len() == 1 {
        match segs[0] {
            PathSeg::Index(i) => match cur {
                Model::L(l) => Ok(
                    Model::L(
                        if i < l.len() {
                            l.update(i as int, v)
                        } else {
                            l.push(v)
                        },
                    ),
                ),
                _ => Err(()),
            },
            seg => match seg_key(names, seg) {
                Err(()) => Err(()),
                Ok(k) => match cur {
                    Model::M(m) => Ok(Model::M(put_entry(m, k, v))),
                    _ => Err(()),
                },
            },
        }
    } else {
        match segs[0] {
            PathSeg::Index(i) => match cur {
                Model::L(l) => if i < l.len() {
                    match set_at(names, l[i as int], segs.drop_first(), v) {
                        Ok(x) => Ok(Model::L(l.update(i as int, x))),
                        Err(()) => Err(()),
                    }
                } else {
                    Err(())
                },
                _ => Err(()),
            },
            seg => match seg_key(names, seg) {
                Err(()) => Err(()),
                Ok(k) => match cur {
                    Model::M(m) => match model_find(m, k) {
                        Some(x) => match set_at(names, x, segs.drop_first(), v) {
                            Ok(y) => Ok(Model::M(put_entry(m, k, y))),
                            Err(()) => Err(()),
                        },
                        None => Err(()),
                    },
                    _ => Err(()),
                },
            },
        }
    }
}

/// SET of a path in an item's entries.
pub open spec fn set_path_spec(
    names: AttrMap<String>,
    item: Seq<(Seq<char>, Model)>,
    p: Seq<PathSeg>,
    v: Model,
) -> Result<Seq<(Seq<char>, Model)>, ()> {
    if p.len() == 0 {
        Err(())
    } else {
        match seg_key(names, p[0]) {
            Err(()) => Err(()),
            Ok(k) => if p.len() == 1 {
                Ok(put_entry(item, k, v))
            } else {
                match model_find(item, k) {
                    None => Err(()),
                    Some(x) => match set_at(names, x, p.drop_first(), v) {
                        Ok(y) => Ok(put_entry(item, k, y)),
                        Err(()) => Err(()),
                    },
                }
            },
        }
    }
}

/// Removes what the segments designate below `cur`; nothing where it is
/// missing. A removed list element closes the gap.
pub open spec fn remove_at(names: AttrMap<String>, cur: Model, segs: Seq<PathSeg>) -> Result<
    Model,
    (),
>
    decreases segs.len(),
{
    if segs.len() == 0 {
        Ok(cur)
    } else if segs.len() == 1 {
        match segs[0] {
            PathSeg::Index(i) => Ok(
                match cur {
                    Model::L(l) => if i < l.len() {
                        Model::L(l.remove(i as int))
                    } else {
                        cur
                    },
                    _ => cur,
                },
            ),
            seg => match seg_key(names, seg) {
                Err(()) => Err(()),
                Ok(k) => Ok(
                    match cur {
                        Model::M(m) => Model::M(drop_entry(m, k)),
                        _ => cur,
                    },
                ),
            },
        }
    } else {
        match segs[0] {
            PathSeg::Index(i) => match cur {
                Model::L(l) => if i < l.len() {
                    match remove_at(names, l[i as int], segs.drop_first()) {
                        Ok(x) => Ok(Model::L(l.update(i as int, x))),
                        Err(()) => Err(()),
                    }
                } else {
                    Ok(cur)
                },
                _ => Ok(cur),
            },
            seg => match seg_key(names, seg) {
                Err(()) => Err(()),
                Ok(k) => match cur {
                    Model::M(m) => match model_find(m, k) {
                        Some(x) => match remove_at(names, x, segs.drop_first()) {
                            Ok(y) => Ok(Model::M(put_entry(m, k, y))),
                            Err(()) => Err(()),
                        },
                        None => Ok(cur),
                    },
                    _ => Ok(cur),
                },
            },
        }
    }
}

/// REMOVE of a path in an item's entries.
pub open spec fn remove_path_spec(
    names: AttrMap<String>,
    item: Seq<(Seq<char>, Model)>,
    p: Seq<PathSeg>,
) -> Result<Seq<(Seq<char>, Model)>, ()> {
    if p.len() == 0 {
        Err(())
    } else {
        match seg_key(names, p[0]) {
            Err(()) => Err(()),
            Ok(k) => if p.len() == 1 {
                Ok(drop_entry(item, k))
            } else {
                match model_find(item, k) {
                    None => Ok(item),
                    Some(x) => match remove_at(names, x, p.drop_first()) {
                        Ok(y) => Ok(put_entry(item, k, y)),
                        Err(()) => Err(()),
                    },
                }
            },
        }
    }
}

/// The SET actions applied in order with their staged values.
pub open spec fn apply_sets(
    names: AttrMap<String>,
    out: Seq<(Seq<char>, Model)>,
    sets: Seq<(Path, SetValue)>,
    vals: Seq<Model>,
) -> Result<Seq<(Seq<char>, Model)>, ()>
    decreases sets.len(),
{
    if sets.len() == 0 {
        Ok(out)
    } else {
        match set_path_spec(names, out, sets[0].0.0@, vals[0]) {
            Err(()) => Err(()),
            Ok(o) => apply_sets(names, o, sets.drop_first(), vals.drop_first()),
        }
    }
}

/// The REMOVE actions applied in order.
pub open spec fn remove_all(
    names: AttrMap<String>,
    out: Seq<(Seq<char>, Model)>,
    paths: Seq<Path>,
) -> Result<Seq<(Seq<char>, Model)>, ()>
    decreases paths.len(),
{
    if paths.len() == 0 {
        Ok(out)
    } else {
        match remove_path_spec(names, out, paths[0].0@) {
            Err(()) => Err(()),
            Ok(o) => remove_all(names, o, paths.drop_first()),
        }
    }
}

/// The attribute an ADD or DELETE names: a single segment.
pub open spec fn top_name(names: AttrMap<String>, p: Path) -> Result<Seq<char>, ()> {
    if p.0@.len() != 1 {
        Err(())
    } else {
        seg_key(names, p.0@[0])
    }
}

/// The elements of `a` that `b` lacks, in order.
pub open spec fn seq_minus<T>(a: Seq<T>, b: Seq<T>) -> Seq<T>
    decreases a.len(),
{
    if a.len() == 0 {
        Seq::empty()
    } else if b.contains(a.last()) {
        seq_minus(a.drop_last(), b)
    } else {
        seq_minus(a.drop_last(), b).push(a.last())
    }
}

/// The numbers of `a` without one equal in value in `b`, in order; an error
/// where a comparison meets a text that is not a number.
pub open spec fn num_minus(a: Seq<Seq<char>>, b: Seq<Seq<char>>) -> Result<Seq<Seq<char>>, ()>
    decreases a.len(),
{
    if a.len() == 0 {
        Ok(Seq::empty())
    } else {
        match num_minus(a.drop_last(), b) {
            Err(()) => Err(()),
            Ok(r) => match num_set_contains(b, a.last()) {
                Err(()) => Err(()),
                Ok(true) => Ok(r),
                Ok(false) => Ok(r.push(a.last())),
            },
        }
    }
}

/// The union of a set attribute (or none) with a set of the same type.
pub open spec fn union_spec(cur: Option<Model>, delta: Model) -> Result<Model, ()> {
    match cur {
        None => Ok(delta),
        Some(c) => match (c, delta) {
            (Model::Ss(a), Model::Ss(b)) => if (a + b).len() == 0 {
                Err(())
            } else {
                Ok(Model::Ss(norm_text(a + b)))
            },
            (Model::Ns(a), Model::Ns(b)) => if (a + b).len() == 0 || exists|k: int|
                0 <= k < (a + b).len() && num_of(#[trigger] (a + b)[k]) is None {
                Err(())
            } else {
                Ok(Model::Ns(norm_numbers(a + b)))
            },
            (Model::Bs(a), Model::Bs(b)) => if (a + b).len() == 0 {
                Err(())
            } else {
                Ok(Model::Bs(norm_bytes(a + b)))
            },
            _ => Err(()),
        },
    }
}

/// The difference of a set attribute and a set of the same type; `None` when
/// nothing is left.
pub open spec fn diff_spec(cur: Model, delta: Model) -> Result<Option<Model>, ()> {
    match (cur, delta) {
        (Model::Ss(a), Model::Ss(b)) => {
            let rest = seq_minus(a, b);
            Ok(
                if rest.len() == 0 {
                    None
                } else {
                    Some(Model::Ss(rest))
                },
            )
        },
        (Model::Ns(a), Model::Ns(b)) => match num_minus(a, b) {
            Err(()) => Err(()),
            Ok(rest) => Ok(
                if rest.len() == 0 {
                    None
                } else {
                    Some(Model::Ns(rest))
                },
            ),
        },
        (Model::Bs(a), Model::Bs(b)) => {
            let rest = seq_minus(a, b);
            Ok(
                if rest.len() == 0 {
                    None
                } else {
                    Some(Model::Bs(rest))
                },
            )
        },
        _ => Err(()),
    }
}

/// The model of an item's value, if any.
pub open spec fn found(item: Item, k: Seq<char>) -> Option<Model> {
    match item.find(k) {
        Some(v) => Some(model_of(v)),
        None => None,
    }
}

/// One ADD action; the current value is read from the item as it was before the update.
pub open spec fn add_action(
    item: Item,
    names: AttrMap<String>,
    values: AttrMap<AttributeValue>,
    out: Seq<(Seq<char>, Model)>,
    a: (Path, String),
) -> Result<Seq<(Seq<char>, Model)>, ()> {
    match top_name(names, a.0) {
        Err(()) => Err(()),
        Ok(k) => match value_of(values, a.1@) {
            None => Err(()),
            Some(delta) => match delta {
                Model::N(d) => {
                    let cur = match found(item, k) {
                        None => Ok("0"@),
                        Some(Model::N(n)) => Ok(n),
                        Some(_) => Err(()),
                    };
                    match cur {
                        Err(()) => Err(()),
                        Ok(c) => match arith_spec(Model::N(c), Model::N(d), false) {
                            Ok(r) => Ok(put_entry(out, k, r)),
                            Err(()) => Err(()),
                        },
                    }
                },
                Model::Ss(_) => match union_spec(found(item, k), delta) {
                    Ok(m) => Ok(put_entry(out, k, m)),
                    Err(()) => Err(()),
                },
                Model::Ns(_) => match union_spec(found(item, k), delta) {
                    Ok(m) => Ok(put_entry(out, k, m)),
                    Err(()) => Err(()),
                },
                Model::Bs(_) => match union_spec(found(item, k), delta) {
                    Ok(m) => Ok(put_entry(out, k, m)),
                    Err(()) => Err(()),
                },
                _ => Err(()),
            },
        },
    }
}

/// One DELETE action; the current value is read from the item as it was before the update.
pub open spec fn delete_action(
    item: Item,
    names: AttrMap<String>,
    values: AttrMap<AttributeValue>,
    out: Seq<(Seq<char>, Model)>,
    a: (Path, String),
) -> Result<Seq<(Seq<char>, Model)>, ()> {
    match top_name(names, a.0) {
        Err(()) => Err(()),
        Ok(k) => match value_of(values, a.1@) {
            None => Err(()),
            Some(delta) => match found(item, k) {
                None => Ok(out),
                Some(cur) => match diff_spec(cur, delta) {
                    Err(()) => Err(()),
                    Ok(Some(rest)) => Ok(put_entry(out, k, rest)),
                    Ok(None) => Ok(drop_entry(out, k)),
                },
            },
        },
    }
}

/// The ADD actions applied in order.
pub open spec fn add_all(
    item: Item,
    names: AttrMap<String>,
    values: AttrMap<AttributeValue>,
    out: Seq<(Seq<char>, Model)>,
    acts: Seq<(Path, String)>,
) -> Result<Seq<(Seq<char>, Model)>, ()>
    decreases acts.len(),
{
    if acts.len() == 0 {
        Ok(out)
    } else {
        match add_action(item, names, values, out, acts[0]) {
            Err(()) => Err(()),
            Ok(o) => add_all(item, names, values, o, acts.drop_first()),
        }
    }
}

/// The DELETE actions applied in order.
pub open spec fn delete_all(
    item: Item,
    names: AttrMap<String>,
    values: AttrMap<AttributeValue>,
    out: Seq<(Seq<char>, Model)>,
    acts: Seq<(Path, String)>,
) -> Result<Seq<(Seq<char>, Model)>, ()>
    decreases acts.len(),
{
    if acts.len() == 0 {
        Ok(out)
    } else {
        match delete_action(item, names, values, out, acts[0]) {
            Err(()) => Err(()),
            Ok(o) => delete_all(item, names, values, o, acts.drop_first()),
        }
    }
}

/// The item after an update expression: all SET actions (their values read
/// from the item as it was), then REMOVE, then ADD, then DELETE.
pub open spec fn apply_spec(
    u: UpdateExpr,
    item: Item,
    names: AttrMap<String>,
    values: AttrMap<AttributeValue>,
) -> Result<Seq<(Seq<char>, Model)>, ()> {
    match staged_values(u.sets@, item, names, values) {
        Err(()) => Err(()),
        Ok(vals) => match apply_sets(names, entries_model(item.entries@), u.sets@, vals) {
            Err(()) => Err(()),
            Ok(o1) => match remove_all(names, o1, u.removes@) {
                Err(()) => Err(()),
                Ok(o2) => match add_all(item, names, values, o2, u.adds@) {
                    Err(()) => Err(()),
                    Ok(o3) => delete_all(item, names, values, o3, u.deletes@),
                },
            },
        },
    }
}

/// The paths of SET actions.
pub open spec fn set_paths(sets: Seq<(Path, SetValue)>) -> Seq<Path> {
    Seq::new(sets.len(), |i: int| sets[i].0)
}

/// The paths of ADD / DELETE actions.
pub open spec fn value_paths(acts: Seq<(Path, String)>) -> Seq<Path> {
    Seq::new(acts.len(), |i: int| acts[i].0)
}

/// The top-level attributes an update touches, clause by clause (SET,
/// REMOVE, ADD, DELETE); an error for an empty path or an unknown `#name`.
pub open spec fn touched_spec(u: UpdateExpr, names: AttrMap<String>) -> Result<Seq<Seq<char>>, ()> {
    match (
        heads(names, set_paths(u.sets@)),
        heads(names, u.removes@),
        heads(names, value_paths(u.adds@)),
        heads(names, value_paths(u.deletes@)),
    ) {
        (Ok(a), Ok(b), Ok(c), Ok(d)) => Ok(a + b + c + d),
        _ => Err(()),
    }
}

/// The head attribute names of paths.
pub open spec fn heads(names: AttrMap<String>, paths: Seq<Path>) -> Result<Seq<Seq<char>>, ()>
    decreases paths.len(),
{
    if paths.len() == 0 {
        Ok(Seq::empty())
    } else {
        match heads(names, paths.drop_last()) {
            Err(()) => Err(()),
            Ok(r) => {
                let p = paths.last().0@;
                if p.len() == 0 {
                    Err(())
                } else {
                    match seg_key(names, p[0]) {
                        Err(()) => Err(()),
                        Ok(k) => Ok(r.push(k)),
                    }
                }
            },
        }
    }
}

proof fn lemma_list_update(l: Seq<AttributeValue>, i: int, v: AttributeValue)
    requires
        0 <= i < l.len(),
    ensures
        list_model(l.update(i, v)) == list_model(l).update(i, model_of(v)),
{
    lemma_list_model(l);
    lemma_list_model(l.update(i, v));
    assert(list_model(l.update(i, v)) =~= list_model(l).update(i, model_of(v)));
}

proof fn lemma_list_push(l: Seq<AttributeValue>, v: AttributeValue)
    ensures
        list_model(l.push(v)) == list_model(l).push(model_of(v)),
{
    assert(l.push(v).drop_last() =~= l);
}

proof fn lemma_list_remove(l: Seq<AttributeValue>, i: int)
    requires
        0 <= i < l.len(),
    ensures
        list_model(l.remove(i)) == list_model(l).remove(i),
{
    lemma_list_model(l);
    lemma_list_model(l.remove(i));
    assert(list_model(l.remove(i)) =~= list_model(l).remove(i));
}

proof fn lemma_list_concat(a: Seq<AttributeValue>, b: Seq<AttributeValue>)
    ensures
        list_model(a + b) == list_model(a) + list_model(b),
{
    lemma_list_model(a);
    lemma_list_model(b);
    lemma_list_model(a + b);
    assert(list_model(a + b) =~= list_model(a) + list_model(b));
}

/// The N value of an exact sum or difference.
fn arith_values(x: &AttributeValue, y: &AttributeValue, minus: bool) -> (r: Result<
    AttributeValue,
    DbError,
>)
    ensures
        match r {
            Ok(v) => arith_spec(x@, y@, minus) == Ok::<Model, ()>(v@),
            Err(e) => arith_spec(x@, y@, minus) is Err && e is Validation,
        },
{
    match (x, y) {
        (AttributeValue::N(a), AttributeValue::N(b)) => {
            let c = if minus {
                crate::domain::arith::sub(a, b)?
            } else {
                crate::domain::arith::add(a, b)?
            };
            proof {
                vstd::utf8::encode_utf8_decode_utf8(c.0@);
            }
            Ok(AttributeValue::N(c))
        },
        _ => Err(validation("arithmetic requires N operands")),
    }
}

/// The value of a SET term, as `operand_value` says.
fn eval_set_operand(op: &SetOperand, item: &Item, ctx: &ExprContext) -> (r: Result<
    AttributeValue,
    DbError,
>)
    ensures
        match r {
            Ok(v) => operand_value(*op, *item, *ctx.names, *ctx.values) == Ok::<Model, ()>(v@),
            Err(e) => operand_value(*op, *item, *ctx.names, *ctx.values) is Err && e is Validation,
        },
    decreases op,
{
    match op {
        SetOperand::Value(ph) => {
            let v = lookup_value(ph.as_str(), ctx)?;
            Ok(v.duplicate())
        },
        SetOperand::Path(p) => match resolve_path(p, item, ctx)? {
            Some(v) => Ok(v.duplicate()),
            None => Err(validation("operand path does not exist in the item")),
        },
        SetOperand::IfNotExists(p, d) => match resolve_path(p, item, ctx)? {
            Some(v) => Ok(v.duplicate()),
            None => eval_set_operand(d, item, ctx),
        },
        SetOperand::ListAppend(a, b) => {
            let va = eval_set_operand(a, item, ctx)?;
            let vb = eval_set_operand(b, item, ctx)?;
            match (va, vb) {
                (AttributeValue::L(mut xs), AttributeValue::L(mut ys)) => {
                    let ghost (gx, gy) = (xs@, ys@);
                    xs.append(&mut ys);
                    proof {
                        lemma_list_concat(gx, gy);
                    }
                    Ok(AttributeValue::L(xs))
                },
                _ => Err(validation("list_append requires L operands")),
            }
        },
    }
}

/// The value of a SET right-hand side, as `set_value_spec` says.
fn eval_set_value(value: &SetValue, item: &Item, ctx: &ExprContext) -> (r: Result<
    AttributeValue,
    DbError,
>)
    ensures
        match r {
            Ok(v) => set_value_spec(*value, *item, *ctx.names, *ctx.values) == Ok::<Model, ()>(v@),
            Err(e) => set_value_spec(*value, *item, *ctx.names, *ctx.values) is Err && e is Validation,
        },
{
    match value {
        SetValue::Single(op) => eval_set_operand(op, item, ctx),
        SetValue::Plus(a, b) => {
            let x = eval_set_operand(a, item, ctx)?;
            let y = eval_set_operand(b, item, ctx)?;
            arith_values(&x, &y, false)
        },
        SetValue::Minus(a, b) => {
            let x = eval_set_operand(a, item, ctx)?;
            let y = eval_set_operand(b, item, ctx)?;
            arith_values(&x, &y, true)
        },
    }
}

fn invalid_path() -> (e: DbError)
    ensures
        e matches DbError::Validation(s) && s@
            == "the document path provided in the update expression is invalid"@,
{
    validation("the document path provided in the update expression is invalid")
}

/// Sets `value` at `segs[from..]` below `cur`, as `set_at` says.
fn set_in(cur: AttributeValue, segs: &Vec<PathSeg>, from: usize, value: AttributeValue, ctx: &ExprContext) -> (r: Result<
    AttributeValue,
    DbError,
>)
    requires
        from < segs@.len(),
    ensures
        match r {
            Ok(v) => set_at(*ctx.names, cur@, segs@.skip(from as int), value@) == Ok::<Model, ()>(v@),
            Err(e) => set_at(*ctx.names, cur@, segs@.skip(from as int), value@) is Err
                && e is Validation,
        },
    decreases segs@.len() - from,
{
    let ghost rest = segs@.skip(from as int);
    let ghost gv = value;
    let ghost gcur = cur;
    assert(rest[0] == segs@[from as int]);
    assert(rest.drop_first() =~= segs@.skip(from + 1));
    if from == segs.len() - 1 {
        match &segs[from] {
            PathSeg::Index(i) => match cur {
                AttributeValue::L(mut list) => {
                    let ghost l0 = list@;
                    proof {
                        lemma_list_model(l0);
                    }
                    if *i < list.len() {
                        list.set(*i, value);
                        proof {
                            lemma_list_update(l0, *i as int, gv);
                        }
                    } else {
                        list.push(value);
                        proof {
                            lemma_list_push(l0, gv);
                        }
                    }
                    Ok(AttributeValue::L(list))
                },
                _ => Err(invalid_path()),
            },
            seg => {
                let name = seg_name(seg, ctx)?;
                match cur {
                    AttributeValue::M(mut map) => {
                        let ghost m0 = map.entries@;
                        let ghost gname = name;
                        map.insert(name, value);
                        proof {
                            lemma_put_model(m0, gname, gv);
                        }
                        Ok(AttributeValue::M(map))
                    },
                    _ => Err(invalid_path()),
                }
            },
        }
    } else {
        match &segs[from] {
            PathSeg::Index(i) => match cur {
                AttributeValue::L(mut list) => {
                    let ghost l0 = list@;
                    proof {
                        lemma_list_model(l0);
                    }
                    if *i < list.len() {
                        let child = list[*i].duplicate();
                        let nc = set_in(child, segs, from + 1, value, ctx)?;
                        let ghost g = nc;
                        list.set(*i, nc);
                        proof {
                            lemma_list_update(l0, *i as int, g);
                        }
                        Ok(AttributeValue::L(list))
                    } else {
                        Err(invalid_path())
                    }
                },
                _ => Err(invalid_path()),
            },
            seg => {
                let name = seg_name(seg, ctx)?;
                match cur {
                    AttributeValue::M(mut map) => {
                        let ghost m0 = map.entries@;
                        proof {
                            lemma_find_model(m0, name@);
                        }
                        let child = match map.get(name.as_str()) {
                            Some(c) => c.duplicate(),
                            None => {
                                return Err(invalid_path());
                            },
                        };
                        let nc = set_in(child, segs, from + 1, value, ctx)?;
                        let ghost (gname, g) = (name, nc);
                        map.insert(name, nc);
                        proof {
                            lemma_put_model(m0, gname, g);
                        }
                        Ok(AttributeValue::M(map))
                    },
                    _ => Err(invalid_path()),
                }
            },
        }
    }
}

/// Removes what `segs[from..]` designates below `cur`, as `remove_at` says.
fn remove_in(cur: AttributeValue, segs: &Vec<PathSeg>, from: usize, ctx: &ExprContext) -> (r: Result<
    AttributeValue,
    DbError,
>)
    requires
        from < segs@.len(),
    ensures
        match r {
            Ok(v) => remove_at(*ctx.names, cur@, segs@.skip(from as int)) == Ok::<Model, ()>(v@),
            Err(e) => remove_at(*ctx.names, cur@, segs@.skip(from as int)) is Err && e is Validation,
        },
    decreases segs@.len() - from,
{
    let ghost rest = segs@.skip(from as int);
    assert(rest[0] == segs@[from as int]);
    assert(rest.drop_first() =~= segs@.skip(from + 1));
    if from == segs.len() - 1 {
        match &segs[from] {
            PathSeg::Index(i) => match cur {
                AttributeValue::L(mut list) => {
                    let ghost l0 = list@;
                    proof {
                        lemma_list_model(l0);
                    }
                    if *i < list.len() {
                        list.remove(*i);
                        proof {
                            lemma_list_remove(l0, *i as int);
                        }
                    }
                    Ok(AttributeValue::L(list))
                },
                other => Ok(other),
            },
            seg => {
                let name = seg_name(seg, ctx)?;
                match cur {
                    AttributeValue::M(mut map) => {
                        let ghost m0 = map.entries@;
                        map.remove(name.as_str());
                        proof {
                            lemma_drop_model(m0, name@);
                        }
                        Ok(AttributeValue::M(map))
                    },
                    other => Ok(other),
                }
            },
        }
    } else {
        match &segs[from] {
            PathSeg::Index(i) => match cur {
                AttributeValue::L(mut list) => {
                    let ghost l0 = list@;
                    proof {
                        lemma_list_model(l0);
                    }
                    if *i < list.len() {
                        let child = list[*i].duplicate();
                        let nc = remove_in(child, segs, from + 1, ctx)?;
                        let ghost g = nc;
                        list.set(*i, nc);
                        proof {
                            lemma_list_update(l0, *i as int, g);
                        }
                    }
                    Ok(AttributeValue::L(list))
                },
                other => Ok(other),
            },
            seg => {
                let name = seg_name(seg, ctx)?;
                match cur {
                    AttributeValue::M(mut map) => {
                        let ghost m0 = map.entries@;
                        proof {
                            lemma_find_model(m0, name@);
                        }
                        let child = match map.get(name.as_str()) {
                            Some(c) => c.duplicate(),
                            None => {
                                return Ok(AttributeValue::M(map));
                            },
                        };
                        let nc = remove_in(child, segs, from + 1, ctx)?;
                        let ghost (gname, g) = (name, nc);
                        map.insert(name, nc);
                        proof {
                            lemma_put_model(m0, gname, g);
                        }
                        Ok(AttributeValue::M(map))
                    },
                    other => Ok(other),
                }
            },
        }
    }
}

/// The item's model.
pub open spec fn item_model(item: Item) -> Seq<(Seq<char>, Model)> {
    entries_model(item.entries@)
}

/// SET of a path in an item, as `set_path_spec` says.
fn set_path(root: Item, path: &Path, value: AttributeValue, ctx: &ExprContext) -> (r: Result<
    Item,
    DbError,
>)
    ensures
        match r {
            Ok(o) => set_path_spec(*ctx.names, item_model(root), path.0@, value@) == Ok::<
                Seq<(Seq<char>, Model)>,
                (),
            >(item_model(o)),
            Err(e) => set_path_spec(*ctx.names, item_model(root), path.0@, value@) is Err
                && e is Validation,
        },
{
    let segs = &path.0;
    if segs.len() == 0 {
        return Err(validation("empty attribute path"));
    }
    let head = seg_name(&segs[0], ctx)?;
    let mut root = root;
    let ghost m0 = root.entries@;
    let ghost gv = value;
    if segs.len() == 1 {
        let ghost gh = head;
        root.insert(head, value);
        proof {
            lemma_put_model(m0, gh, gv);
        }
        return Ok(root);
    }
    proof {
        lemma_find_model(m0, head@);
    }
    let child = match root.get(head.as_str()) {
        Some(c) => c.duplicate(),
        None => {
            return Err(invalid_path());
        },
    };
    assert(segs@.skip(1) =~= segs@.drop_first());
    let nc = set_in(child, segs, 1, value, ctx)?;
    let ghost (gh, g) = (head, nc);
    root.insert(head, nc);
    proof {
        lemma_put_model(m0, gh, g);
    }
    Ok(root)
}

/// REMOVE of a path in an item, as `remove_path_spec` says.
fn remove_path(root: Item, path: &Path, ctx: &ExprContext) -> (r: Result<Item, DbError>)
    ensures
        match r {
            Ok(o) => remove_path_spec(*ctx.names, item_model(root), path.0@) == Ok::<
                Seq<(Seq<char>, Model)>,
                (),
            >(item_model(o)),
            Err(e) => remove_path_spec(*ctx.names, item_model(root), path.0@) is Err
                && e is Validation,
        },
{
    let segs = &path.0;
    if segs.len() == 0 {
        return Err(validation("empty attribute path"));
    }
    let head = seg_name(&segs[0], ctx)?;
    let mut root = root;
    let ghost m0 = root.entries@;
    if segs.len() == 1 {
        root.remove(head.as_str());
        proof {
            lemma_drop_model(m0, head@);
        }
        return Ok(root);
    }
    proof {
        lemma_find_model(m0, head@);
    }
    let child = match root.get(head.as_str()) {
        Some(c) => c.duplicate(),
        None => {
            return Ok(root);
        },
    };
    assert(segs@.skip(1) =~= segs@.drop_first());
    let nc = remove_in(child, segs, 1, ctx)?;
    let ghost (gh, g) = (head, nc);
    root.insert(head, nc);
    proof {
        lemma_put_model(m0, gh, g);
    }
    Ok(root)
}

fn concat_strings(a: &Vec<String>, b: &Vec<String>) -> (r: Vec<String>)
    ensures
        strings_model(r@) == strings_model(a@) + strings_model(b@),
{
    let mut r: Vec<String> = Vec::new();
    let mut i: usize = 0;
    while i < a.len()
        invariant
            i <= a@.len(),
            r@.len() == i,
            forall|k: int| 0 <= k < i ==> #[trigger] r@[k]@ == a@[k]@,
        decreases a@.len() - i,
    {
        r.push(copy_string(&a[i]));
        i = i + 1;
    }
    let mut j: usize = 0;
    while j < b.len()
        invariant
            j <= b@.len(),
            r@.len() == a@.len() + j,
            forall|k: int| 0 <= k < a@.len() ==> #[trigger] r@[k]@ == a@[k]@,
            forall|k: int| 0 <= k < j ==> #[trigger] r@[a@.len() + k]@ == b@[k]@,
        decreases b@.len() - j,
    {
        r.push(copy_string(&b[j]));
        j = j + 1;
    }
    assert(strings_model(r@) =~= strings_model(a@) + strings_model(b@)) by {
        assert forall|k: int| 0 <= k < r@.len() implies #[trigger] strings_model(r@)[k] == (strings_model(a@)
            + strings_model(b@))[k] by {
            if k >= a@.len() {
                assert(r@[a@.len() + (k - a@.len())]@ == b@[k - a@.len()]@);
            }
        }
    }
    r
}

fn concat_numbers(a: &Vec<Number>, b: &Vec<Number>) -> (r: Vec<Number>)
    ensures
        numbers_model(r@) == numbers_model(a@) + numbers_model(b@),
{
    let mut r: Vec<Number> = Vec::new();
    let mut i: usize = 0;
    while i < a.len()
        invariant
            i <= a@.len(),
            r@.len() == i,
            forall|k: int| 0 <= k < i ==> #[trigger] r@[k].0@ == a@[k].0@,
        decreases a@.len() - i,
    {
        r.push(a[i].copy());
        i = i + 1;
    }
    let mut j: usize = 0;
    while j < b.len()
        invariant
            j <= b@.len(),
            r@.len() == a@.len() + j,
            forall|k: int| 0 <= k < a@.len() ==> #[trigger] r@[k].0@ == a@[k].0@,
            forall|k: int| 0 <= k < j ==> #[trigger] r@[a@.len() + k].0@ == b@[k].0@,
        decreases b@.len() - j,
    {
        r.push(b[j].copy());
        j = j + 1;
    }
    assert(numbers_model(r@) =~= numbers_model(a@) + numbers_model(b@)) by {
        assert forall|k: int| 0 <= k < r@.len() implies #[trigger] numbers_model(r@)[k] == (numbers_model(a@)
            + numbers_model(b@))[k] by {
            if k >= a@.len() {
                assert(r@[a@.len() + (k - a@.len())].0@ == b@[k - a@.len()].0@);
            }
        }
    }
    r
}

fn concat_byte_strings(a: &Vec<Vec<u8>>, b: &Vec<Vec<u8>>) -> (r: Vec<Vec<u8>>)
    ensures
        bytes_model(r@) == bytes_model(a@) + bytes_model(b@),
{
    let mut r: Vec<Vec<u8>> = Vec::new();
    let mut i: usize = 0;
    while i < a.len()
        invariant
            i <= a@.len(),
            r@.len() == i,
            forall|k: int| 0 <= k < i ==> #[trigger] r@[k]@ == a@[k]@,
        decreases a@.len() - i,
    {
        r.push(copy_bytes(&a[i]));
        i = i + 1;
    }
    let mut j: usize = 0;
    while j < b.len()
        invariant
            j <= b@.len(),
            r@.len() == a@.len() + j,
            forall|k: int| 0 <= k < a@.len() ==> #[trigger] r@[k]@ == a@[k]@,
            forall|k: int| 0 <= k < j ==> #[trigger] r@[a@.len() + k]@ == b@[k]@,
        decreases b@.len() - j,
    {
        r.push(copy_bytes(&b[j]));
        j = j + 1;
    }
    assert(bytes_model(r@) =~= bytes_model(a@) + bytes_model(b@)) by {
        assert forall|k: int| 0 <= k < r@.len() implies #[trigger] bytes_model(r@)[k] == (bytes_model(a@)
            + bytes_model(b@))[k] by {
            if k >= a@.len() {
                assert(r@[a@.len() + (k - a@.len())]@ == b@[k - a@.len()]@);
            }
        }
    }
    r
}

/// The union for ADD, as `union_spec` says.
fn set_union(cur: Option<&AttributeValue>, delta: &AttributeValue) -> (r: Result<
    AttributeValue,
    DbError,
>)
    ensures
        match r {
            Ok(v) => union_spec(
                match cur {
                    Some(c) => Some(c@),
                    None => None,
                },
                delta@,
            ) == Ok::<Model, ()>(v@),
            Err(e) => union_spec(
                match cur {
                    Some(c) => Some(c@),
                    None => None,
                },
                delta@,
            ) is Err && e is Validation,
        },
{
    let cur = match cur {
        Some(c) => c,
        None => {
            return Ok(delta.duplicate());
        },
    };
    match (cur, delta) {
        (AttributeValue::Ss(a), AttributeValue::Ss(b)) => {
            let elems = concat_strings(a, b);
            AttributeValue::string_set(elems)
        },
        (AttributeValue::Ns(a), AttributeValue::Ns(b)) => {
            let elems = concat_numbers(a, b);
            let ghost m = numbers_model(elems@);
            let ghost ge = elems@;
            let r = AttributeValue::number_set(elems);
            proof {
                assert(m.len() == ge.len());
                assert forall|k: int| 0 <= k < m.len() implies num_of(#[trigger] m[k])
                    == crate::domain::number::number_dec(ge[k]) by {}
                match r {
                    Ok(_) => {
                        if exists|k: int| 0 <= k < m.len() && num_of(#[trigger] m[k]) is None {
                            let k = choose|k: int| 0 <= k < m.len() && num_of(#[trigger] m[k]) is None;
                            assert(crate::domain::number::number_dec(ge[k]) is Some);
                        }
                    },
                    Err(_) => {
                        if ge.len() != 0 {
                            let k = choose|k: int|
                                0 <= k < ge.len() && crate::domain::number::number_dec(
                                    #[trigger] ge[k],
                                ) is None;
                            assert(num_of(m[k]) is None);
                        }
                    },
                }
            }
            r
        },
        (AttributeValue::Bs(a), AttributeValue::Bs(b)) => {
            let elems = concat_byte_strings(a, b);
            AttributeValue::binary_set(elems)
        },
        _ => Err(validation("ADD set type mismatch")),
    }
}

proof fn lemma_num_minus_err(a: Seq<Seq<char>>, b: Seq<Seq<char>>, j: int)
    requires
        0 <= j <= a.len(),
        num_minus(a.take(j), b) is Err,
    ensures
        num_minus(a, b) is Err,
    decreases a.len() - j,
{
    if j < a.len() {
        assert(a.take(j + 1).drop_last() =~= a.take(j));
        lemma_num_minus_err(a, b, j + 1);
    } else {
        assert(a.take(j) =~= a);
    }
}

/// The difference for DELETE, as `diff_spec` says.
fn set_difference(cur: &AttributeValue, delta: &AttributeValue) -> (r: Result<
    Option<AttributeValue>,
    DbError,
>)
    ensures
        match r {
            Ok(Some(v)) => diff_spec(cur@, delta@) == Ok::<Option<Model>, ()>(Some(v@)),
            Ok(None) => diff_spec(cur@, delta@) == Ok::<Option<Model>, ()>(None),
            Err(e) => diff_spec(cur@, delta@) is Err && e is Validation,
        },
{
    match (cur, delta) {
        (AttributeValue::Ss(a), AttributeValue::Ss(b)) => {
            let ghost (am, bm) = (strings_model(a@), strings_model(b@));
            let mut rest: Vec<String> = Vec::new();
            let mut i: usize = 0;
            while i < a.len()
                invariant
                    am == strings_model(a@),
                    bm == strings_model(b@),
                    i <= a@.len(),
                    strings_model(rest@) == seq_minus(am.take(i as int), bm),
                decreases a@.len() - i,
            {
                assert(am.take(i + 1).drop_last() =~= am.take(i as int));
                assert(am.take(i + 1).last() == a@[i as int]@);
                if !strings_contain(b, &a[i]) {
                    let ghost before = rest@;
                    rest.push(copy_string(&a[i]));
                    assert(strings_model(rest@) =~= strings_model(before).push(a@[i as int]@));
                }
                i = i + 1;
            }
            assert(am.take(i as int) =~= am);
            if rest.len() == 0 {
                Ok(None)
            } else {
                Ok(Some(AttributeValue::Ss(rest)))
            }
        },
        (AttributeValue::Ns(a), AttributeValue::Ns(b)) => {
            let ghost (am, bm) = (numbers_model(a@), numbers_model(b@));
            let mut rest: Vec<Number> = Vec::new();
            let mut i: usize = 0;
            assert(am.take(0) =~= Seq::<Seq<char>>::empty());
            assert(numbers_model(rest@) =~= Seq::<Seq<char>>::empty());
            while i < a.len()
                invariant
                    am == numbers_model(a@),
                    bm == numbers_model(b@),
                    cur@ == Model::Ns(am),
                    delta@ == Model::Ns(bm),
                    i <= a@.len(),
                    num_minus(am.take(i as int), bm) == Ok::<Seq<Seq<char>>, ()>(
                        numbers_model(rest@),
                    ),
                decreases a@.len() - i,
            {
                assert(am.take(i + 1).drop_last() =~= am.take(i as int));
                assert(am.take(i + 1).last() == a@[i as int].0@);
                let inside = match ns_contains(b, &a[i]) {
                    Ok(x) => x,
                    Err(e) => {
                        proof {
                            assert(num_set_contains(bm, am.take(i + 1).last()) is Err);
                            lemma_num_minus_err(am, bm, i + 1);
                        }
                        return Err(e);
                    },
                };
                if !inside {
                    let ghost before = rest@;
                    rest.push(a[i].copy());
                    assert(numbers_model(rest@) =~= numbers_model(before).push(a@[i as int].0@));
                }
                i = i + 1;
            }
            assert(am.take(i as int) =~= am);
            if rest.len() == 0 {
                Ok(None)
            } else {
                Ok(Some(AttributeValue::Ns(rest)))
            }
        },
        (AttributeValue::Bs(a), AttributeValue::Bs(b)) => {
            let ghost (am, bm) = (bytes_model(a@), bytes_model(b@));
            let mut rest: Vec<Vec<u8>> = Vec::new();
            let mut i: usize = 0;
            while i < a.len()
                invariant
                    am == bytes_model(a@),
                    bm == bytes_model(b@),
                    i <= a@.len(),
                    bytes_model(rest@) == seq_minus(am.take(i as int), bm),
                decreases a@.len() - i,
            {
                assert(am.take(i + 1).drop_last() =~= am.take(i as int));
                assert(am.take(i + 1).last() == a@[i as int]@);
                if !byte_strings_contain(b, &a[i]) {
                    let ghost before = rest@;
                    rest.push(copy_bytes(&a[i]));
                    assert(bytes_model(rest@) =~= bytes_model(before).push(a@[i as int]@));
                }
                i = i + 1;
            }
            assert(am.take(i as int) =~= am);
            if rest.len() == 0 {
                Ok(None)
            } else {
                Ok(Some(AttributeValue::Bs(rest)))
            }
        },
        _ => Err(validation("DELETE requires matching set types")),
    }
}

/// The attribute an ADD or DELETE names, as `top_name` says.
fn top_level_name(path: &Path, ctx: &ExprContext) -> (r: Result<String, DbError>)
    ensures
        match r {
            Ok(n) => top_name(*ctx.names, *path) == Ok::<Seq<char>, ()>(n@),
            Err(e) => top_name(*ctx.names, *path) is Err && e is Validation,
        },
{
    if path.0.len() != 1 {
        return Err(validation("ADD / DELETE support only top-level attributes"));
    }
    seg_name(&path.0[0], ctx)
}

/// One ADD action, as `add_action` says.
fn apply_add(item: &Item, ctx: &ExprContext, out: Item, a: &(Path, String)) -> (r: Result<
    Item,
    DbError,
>)
    ensures
        match r {
            Ok(o) => add_action(*item, *ctx.names, *ctx.values, item_model(out), *a) == Ok::<
                Seq<(Seq<char>, Model)>,
                (),
            >(item_model(o)),
            Err(e) => add_action(*item, *ctx.names, *ctx.values, item_model(out), *a) is Err
                && e is Validation,
        },
{
    let name = top_level_name(&a.0, ctx)?;
    let delta = lookup_value(a.1.as_str(), ctx)?;
    let mut out = out;
    let ghost m0 = out.entries@;
    let ghost gn = name;
    match delta {
        AttributeValue::N(d) => {
            let current: Number = match item.get(name.as_str()) {
                None => Number(owned("0")),
                Some(AttributeValue::N(n)) => n.copy(),
                Some(_) => {
                    return Err(validation("ADD target is not N"));
                },
            };
            let sum = crate::domain::arith::add(&current, d)?;
            proof {
                vstd::utf8::encode_utf8_decode_utf8(sum.0@);
            }
            let v = AttributeValue::N(sum);
            let ghost gv = v;
            out.insert(name, v);
            proof {
                lemma_put_model(m0, gn, gv);
            }
            Ok(out)
        },
        AttributeValue::Ss(_) | AttributeValue::Ns(_) | AttributeValue::Bs(_) => {
            let merged = set_union(item.get(name.as_str()), delta)?;
            let ghost gv = merged;
            out.insert(name, merged);
            proof {
                lemma_put_model(m0, gn, gv);
            }
            Ok(out)
        },
        _ => Err(validation("ADD expects an N or set (SS/NS/BS) value")),
    }
}

/// One DELETE action, as `delete_action` says.
fn apply_delete(item: &Item, ctx: &ExprContext, out: Item, a: &(Path, String)) -> (r: Result<
    Item,
    DbError,
>)
    ensures
        match r {
            Ok(o) => delete_action(*item, *ctx.names, *ctx.values, item_model(out), *a) == Ok::<
                Seq<(Seq<char>, Model)>,
                (),
            >(item_model(o)),
            Err(e) => delete_action(*item, *ctx.names, *ctx.values, item_model(out), *a) is Err
                && e is Validation,
        },
{
    let name = top_level_name(&a.0, ctx)?;
    let delta = lookup_value(a.1.as_str(), ctx)?;
    let mut out = out;
    let ghost m0 = out.entries@;
    let ghost gn = name;
    let current = match item.get(name.as_str()) {
        Some(c) => c,
        None => {
            return Ok(out);
        },
    };
    match set_difference(current, delta)? {
        Some(rest) => {
            let ghost gv = rest;
            out.insert(name, rest);
            proof {
                lemma_put_model(m0, gn, gv);
            }
        },
        None => {
            out.remove(name.as_str());
            proof {
                lemma_drop_model(m0, gn@);
            }
        },
    }
    Ok(out)
}

proof fn lemma_staged_err(
    sets: Seq<(Path, SetValue)>,
    item: Item,
    names: AttrMap<String>,
    values: AttrMap<AttributeValue>,
    j: int,
)
    requires
        0 <= j <= sets.len(),
        staged_values(sets.take(j), item, names, values) is Err,
    ensures
        staged_values(sets, item, names, values) is Err,
    decreases sets.len() - j,
{
    if j < sets.len() {
        assert(sets.take(j + 1).drop_last() =~= sets.take(j));
        lemma_staged_err(sets, item, names, values, j + 1);
    } else {
        assert(sets.take(j) =~= sets);
    }
}

proof fn lemma_heads_err(names: AttrMap<String>, paths: Seq<Path>, j: int)
    requires
        0 <= j <= paths.len(),
        heads(names, paths.take(j)) is Err,
    ensures
        heads(names, paths) is Err,
    decreases paths.len() - j,
{
    if j < paths.len() {
        assert(paths.take(j + 1).drop_last() =~= paths.take(j));
        lemma_heads_err(names, paths, j + 1);
    } else {
        assert(paths.take(j) =~= paths);
    }
}

/// The values of the SET actions, read from the item as it was before the update.
fn stage_sets(sets: &Vec<(Path, SetValue)>, item: &Item, ctx: &ExprContext) -> (r: Result<
    Vec<AttributeValue>,
    DbError,
>)
    ensures
        match r {
            Ok(v) => staged_values(sets@, *item, *ctx.names, *ctx.values) == Ok::<Seq<Model>, ()>(
                list_model(v@),
            ) && v@.len() == sets@.len(),
            Err(e) => staged_values(sets@, *item, *ctx.names, *ctx.values) is Err && e is Validation,
        },
{
    let ghost (names, values) = (*ctx.names, *ctx.values);
    let mut staged: Vec<AttributeValue> = Vec::new();
    let mut i: usize = 0;
    assert(sets@.take(0) =~= Seq::<(Path, SetValue)>::empty());
    while i < sets.len()
        invariant
            names == *ctx.names,
            values == *ctx.values,
            i <= sets@.len(),
            staged@.len() == i,
            staged_values(sets@.take(i as int), *item, names, values) == Ok::<Seq<Model>, ()>(
                list_model(staged@),
            ),
        decreases sets@.len() - i,
    {
        assert(sets@.take(i + 1).drop_last() =~= sets@.take(i as int));
        assert(sets@.take(i + 1).last() == sets@[i as int]);
        let v = match eval_set_value(&sets[i].1, item, ctx) {
            Ok(v) => v,
            Err(e) => {
                proof {
                    lemma_staged_err(sets@, *item, names, values, i + 1);
                }
                return Err(e);
            },
        };
        let ghost before = staged@;
        staged.push(v);
        proof {
            lemma_list_push(before, v);
        }
        i = i + 1;
    }
    assert(sets@.take(i as int) =~= sets@);
    Ok(staged)
}

/// The SET actions applied in order with their staged values.
fn run_sets(start: Item, sets: &Vec<(Path, SetValue)>, staged: &Vec<AttributeValue>, ctx: &ExprContext) -> (r: Result<
    Item,
    DbError,
>)
    requires
        staged@.len() == sets@.len(),
    ensures
        match r {
            Ok(o) => apply_sets(*ctx.names, item_model(start), sets@, list_model(staged@)) == Ok::<
                Seq<(Seq<char>, Model)>,
                (),
            >(item_model(o)),
            Err(e) => apply_sets(*ctx.names, item_model(start), sets@, list_model(staged@)) is Err
                && e is Validation,
        },
{
    let ghost names = *ctx.names;
    let ghost vals = list_model(staged@);
    let ghost out0 = start;
    let ghost whole = apply_sets(names, item_model(out0), sets@, vals);
    proof {
        lemma_list_model(staged@);
    }
    let mut out = start;
    let mut j: usize = 0;
    assert(sets@.skip(0) =~= sets@);
    assert(vals.skip(0) =~= vals);
    while j < sets.len()
        invariant
            names == *ctx.names,
            staged@.len() == sets@.len(),
            vals == list_model(staged@),
            vals.len() == staged@.len(),
            forall|k: int| 0 <= k < staged@.len() ==> #[trigger] vals[k] == model_of(staged@[k]),
            j <= sets@.len(),
            whole == apply_sets(names, item_model(out), sets@.skip(j as int), vals.skip(j as int)),
            whole == apply_sets(names, item_model(out0), sets@, vals),
            out0 == start,
        decreases sets@.len() - j,
    {
        assert(sets@.skip(j as int)[0] == sets@[j as int]);
        assert(vals.skip(j as int)[0] == vals[j as int]);
        assert(sets@.skip(j as int).drop_first() =~= sets@.skip(j + 1));
        assert(vals.skip(j as int).drop_first() =~= vals.skip(j + 1));
        let v = staged[j].duplicate();
        out = set_path(out, &sets[j].0, v, ctx)?;
        j = j + 1;
    }
    assert(sets@.skip(j as int) =~= Seq::<(Path, SetValue)>::empty());
    Ok(out)
}

/// The REMOVE actions applied in order.
fn run_removes(start: Item, removes: &Vec<Path>, ctx: &ExprContext) -> (r: Result<Item, DbError>)
    ensures
        match r {
            Ok(o) => remove_all(*ctx.names, item_model(start), removes@) == Ok::<
                Seq<(Seq<char>, Model)>,
                (),
            >(item_model(o)),
            Err(e) => remove_all(*ctx.names, item_model(start), removes@) is Err && e is Validation,
        },
{
    let ghost names = *ctx.names;
    let ghost out0 = start;
    let ghost whole = remove_all(names, item_model(out0), removes@);
    let mut out = start;
    let mut k: usize = 0;
    assert(removes@.skip(0) =~= removes@);
    while k < removes.len()
        invariant
            names == *ctx.names,
            k <= removes@.len(),
            whole == remove_all(names, item_model(out), removes@.skip(k as int)),
            whole == remove_all(names, item_model(out0), removes@),
            out0 == start,
        decreases removes@.len() - k,
    {
        assert(removes@.skip(k as int)[0] == removes@[k as int]);
        assert(removes@.skip(k as int).drop_first() =~= removes@.skip(k + 1));
        out = remove_path(out, &removes[k], ctx)?;
        k = k + 1;
    }
    assert(removes@.skip(k as int) =~= Seq::<Path>::empty());
    Ok(out)
}

/// The ADD actions applied in order.
fn run_adds(item: &Item, ctx: &ExprContext, start: Item, adds: &Vec<(Path, String)>) -> (r: Result<
    Item,
    DbError,
>)
    ensures
        match r {
            Ok(o) => add_all(*item, *ctx.names, *ctx.values, item_model(start), adds@) == Ok::<
                Seq<(Seq<char>, Model)>,
                (),
            >(item_model(o)),
            Err(e) => add_all(*item, *ctx.names, *ctx.values, item_model(start), adds@) is Err
                && e is Validation,
        },
{
    let ghost (names, values) = (*ctx.names, *ctx.values);
    let ghost out0 = start;
    let ghost whole = add_all(*item, names, values, item_model(out0), adds@);
    let mut out = start;
    let mut m: usize = 0;
    assert(adds@.skip(0) =~= adds@);
    while m < adds.len()
        invariant
            names == *ctx.names,
            values == *ctx.values,
            m <= adds@.len(),
            whole == add_all(*item, names, values, item_model(out), adds@.skip(m as int)),
            whole == add_all(*item, names, values, item_model(out0), adds@),
            out0 == start,
        decreases adds@.len() - m,
    {
        assert(adds@.skip(m as int)[0] == adds@[m as int]);
        assert(adds@.skip(m as int).drop_first() =~= adds@.skip(m + 1));
        out = apply_add(item, ctx, out, &adds[m])?;
        m = m + 1;
    }
    assert(adds@.skip(m as int) =~= Seq::<(Path, String)>::empty());
    Ok(out)
}

/// The DELETE actions applied in order.
fn run_deletes(item: &Item, ctx: &ExprContext, start: Item, deletes: &Vec<(Path, String)>) -> (r: Result<
    Item,
    DbError,
>)
    ensures
        match r {
            Ok(o) => delete_all(*item, *ctx.names, *ctx.values, item_model(start), deletes@) == Ok::<
                Seq<(Seq<char>, Model)>,
                (),
            >(item_model(o)),
            Err(e) => delete_all(*item, *ctx.names, *ctx.values, item_model(start), deletes@) is Err
                && e is Validation,
        },
{
    let ghost (names, values) = (*ctx.names, *ctx.values);
    let ghost out0 = start;
    let ghost whole = delete_all(*item, names, values, item_model(out0), deletes@);
    let mut out = start;
    let mut q: usize = 0;
    assert(deletes@.skip(0) =~= deletes@);
    while q < deletes.len()
        invariant
            names == *ctx.names,
            values == *ctx.values,
            q <= deletes@.len(),
            whole == delete_all(*item, names, values, item_model(out), deletes@.skip(q as int)),
            whole == delete_all(*item, names, values, item_model(out0), deletes@),
            out0 == start,
        decreases deletes@.len() - q,
    {
        assert(deletes@.skip(q as int)[0] == deletes@[q as int]);
        assert(deletes@.skip(q as int).drop_first() =~= deletes@.skip(q + 1));
        out = apply_delete(item, ctx, out, &deletes[q])?;
        q = q + 1;
    }
    assert(deletes@.skip(q as int) =~= Seq::<(Path, String)>::empty());
    Ok(out)
}

/// Applies an update expression to an item, as `apply_spec` says.
pub fn apply_update(expr: &UpdateExpr, item: &Item, ctx: &ExprContext) -> (r: Result<Item, DbError>)
    ensures
        match r {
            Ok(o) => apply_spec(*expr, *item, *ctx.names, *ctx.values) == Ok::<
                Seq<(Seq<char>, Model)>,
                (),
            >(item_model(o)),
            Err(e) => apply_spec(*expr, *item, *ctx.names, *ctx.values) is Err && e is Validation,
        },
{
    let staged = stage_sets(&expr.sets, item, ctx)?;
    let out = item.duplicate();
    let out = run_sets(out, &expr.sets, &staged, ctx)?;
    let out = run_removes(out, &expr.removes, ctx)?;
    let out = run_adds(item, ctx, out, &expr.adds)?;
    run_deletes(item, ctx, out, &expr.deletes)
}

fn set_heads(list: &Vec<(Path, SetValue)>, ctx: &ExprContext) -> (r: Result<Vec<String>, DbError>)
    ensures
        match r {
            Ok(v) => heads(*ctx.names, set_paths(list@)) == Ok::<Seq<Seq<char>>, ()>(strings_model(v@)),
            Err(e) => heads(*ctx.names, set_paths(list@)) is Err && e is Validation,
        },
{
    let ghost names = *ctx.names;
    let ghost ps = set_paths(list@);
    let mut out: Vec<String> = Vec::new();
    let mut i: usize = 0;
    assert(ps.take(0) =~= Seq::<Path>::empty());
    assert(strings_model(out@) =~= Seq::<Seq<char>>::empty());
    while i < list.len()
        invariant
            names == *ctx.names,
            ps == set_paths(list@),
            ps.len() == list@.len(),
            i <= list@.len(),
            out@.len() == i,
            heads(names, ps.take(i as int)) == Ok::<Seq<Seq<char>>, ()>(strings_model(out@)),
        decreases list@.len() - i,
    {
        assert(ps.take(i + 1).drop_last() =~= ps.take(i as int));
        assert(ps.take(i + 1).last() == ps[i as int]);
        let path = &list[i].0;
        if path.0.len() == 0 {
            proof {
                lemma_heads_err(names, ps, i + 1);
            }
            return Err(validation("empty attribute path"));
        }
        let name = match seg_name(&path.0[0], ctx) {
            Ok(n) => n,
            Err(e) => {
                proof {
                    lemma_heads_err(names, ps, i + 1);
                }
                return Err(e);
            },
        };
        let ghost before = out@;
        out.push(name);
        assert(strings_model(out@) =~= strings_model(before).push(out@[i as int]@));
        i = i + 1;
    }
    assert(ps.take(i as int) =~= ps);
    Ok(out)
}

fn path_heads(list: &Vec<Path>, ctx: &ExprContext) -> (r: Result<Vec<String>, DbError>)
    ensures
        match r {
            Ok(v) => heads(*ctx.names, list@) == Ok::<Seq<Seq<char>>, ()>(strings_model(v@)),
            Err(e) => heads(*ctx.names, list@) is Err && e is Validation,
        },
{
    let ghost names = *ctx.names;
    let ghost ps = list@;
    let mut out: Vec<String> = Vec::new();
    let mut i: usize = 0;
    assert(ps.take(0) =~= Seq::<Path>::empty());
    assert(strings_model(out@) =~= Seq::<Seq<char>>::empty());
    while i < list.len()
        invariant
            names == *ctx.names,
            ps == list@,
            ps.len() == list@.len(),
            i <= list@.len(),
            out@.len() == i,
            heads(names, ps.take(i as int)) == Ok::<Seq<Seq<char>>, ()>(strings_model(out@)),
        decreases list@.len() - i,
    {
        assert(ps.take(i + 1).drop_last() =~= ps.take(i as int));
        assert(ps.take(i + 1).last() == ps[i as int]);
        let path = &list[i];
        if path.0.len() == 0 {
            proof {
                lemma_heads_err(names, ps, i + 1);
            }
            return Err(validation("empty attribute path"));
        }
        let name = match seg_name(&path.0[0], ctx) {
            Ok(n) => n,
            Err(e) => {
                proof {
                    lemma_heads_err(names, ps, i + 1);
                }
                return Err(e);
            },
        };
        let ghost before = out@;
        out.push(name);
        assert(strings_model(out@) =~= strings_model(before).push(out@[i as int]@));
        i = i + 1;
    }
    assert(ps.take(i as int) =~= ps);
    Ok(out)
}

fn action_heads(list: &Vec<(Path, String)>, ctx: &ExprContext) -> (r: Result<Vec<String>, DbError>)
    ensures
        match r {
            Ok(v) => heads(*ctx.names, value_paths(list@)) == Ok::<Seq<Seq<char>>, ()>(strings_model(v@)),
            Err(e) => heads(*ctx.names, value_paths(list@)) is Err && e is Validation,
        },
{
    let ghost names = *ctx.names;
    let ghost ps = value_paths(list@);
    let mut out: Vec<String> = Vec::new();
    let mut i: usize = 0;
    assert(ps.take(0) =~= Seq::<Path>::empty());
    assert(strings_model(out@) =~= Seq::<Seq<char>>::empty());
    while i < list.len()
        invariant
            names == *ctx.names,
            ps == value_paths(list@),
            ps.len() == list@.len(),
            i <= list@.len(),
            out@.len() == i,
            heads(names, ps.take(i as int)) == Ok::<Seq<Seq<char>>, ()>(strings_model(out@)),
        decreases list@.len() - i,
    {
        assert(ps.take(i + 1).drop_last() =~= ps.take(i as int));
        assert(ps.take(i + 1).last() == ps[i as int]);
        let path = &list[i].0;
        if path.0.len() == 0 {
            proof {
                lemma_heads_err(names, ps, i + 1);
            }
            return Err(validation("empty attribute path"));
        }
        let name = match seg_name(&path.0[0], ctx) {
            Ok(n) => n,
            Err(e) => {
                proof {
                    lemma_heads_err(names, ps, i + 1);
                }
                return Err(e);
            },
        };
        let ghost before = out@;
        out.push(name);
        assert(strings_model(out@) =~= strings_model(before).push(out@[i as int]@));
        i = i + 1;
    }
    assert(ps.take(i as int) =~= ps);
    Ok(out)
}

/// The top-level attributes an update touches, as `touched_spec` says
/// (key attributes may not be among them).
pub fn touched_roots(expr: &UpdateExpr, ctx: &ExprContext) -> (r: Result<Vec<String>, DbError>)
    ensures
        match r {
            Ok(v) => touched_spec(*expr, *ctx.names) == Ok::<Seq<Seq<char>>, ()>(strings_model(v@)),
            Err(e) => touched_spec(*expr, *ctx.names) is Err && e is Validation,
        },
{
    let mut a = set_heads(&expr.sets, ctx)?;
    let mut b = path_heads(&expr.removes, ctx)?;
    let mut c = action_heads(&expr.adds, ctx)?;
    let mut d = action_heads(&expr.deletes, ctx)?;
    let ghost (ma, mb, mc, md) = (strings_model(a@), strings_model(b@), strings_model(c@), strings_model(d@));
    let ghost (ga, gb, gc, gd) = (a@, b@, c@, d@);
    a.append(&mut b);
    a.append(&mut c);
    a.append(&mut d);
    assert(a@ =~= ga + gb + gc + gd);
    assert(strings_model(a@) =~= ma + mb + mc + md);
    Ok(a)
}

} // verus!
