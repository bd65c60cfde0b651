//! What the item operations share: expression inputs, query and scan
//! options, the page they return, the stored forms of definitions and items,
//! and the condition, filter and index helpers.
use vstd::prelude::*;
use crate::domain::attribute::{AttrMap, AttributeValue, Item};
use crate::domain::byte_order::{compare_bytes, lex_order};
use crate::domain::error::DbError;
use crate::domain::attribute::{entries_model, Model};
use crate::domain::expr::ast::{Expr, Path};
use crate::domain::expr::grammar::{
    condition_parses, key_condition_parses, projection_ok, projection_parses, update_parses,
};
use crate::domain::expr::parser::parse_projection;
use crate::domain::expr::projection::{project, project_spec};
use crate::domain::expr::eval::{eval, eval_spec, ExprContext};
use crate::domain::expr::grammar::or_at;
use crate::domain::expr::lexer::lex_spec;
use crate::domain::expr::parser::parse_condition;
use crate::domain::index::{index_entry_key, index_table_name};
use crate::domain::table::TableDef;
use crate::domain::text::utf8;
use crate::ports::storage::{Contents, WriteTxn};
use crate::domain::index::entry_key_spec;
use crate::domain::table::IndexDef;

verus! {

/// An expression with the placeholders it uses (`#n` names, `:v` values).
#[derive(Debug)]
pub struct ExprInput {
    pub expression: String,
    pub names: AttrMap<String>,
    pub values: AttrMap<AttributeValue>,
}

/// A condition (or filter) expression with its placeholders.
pub type ConditionInput = ExprInput;

/// An update expression with its placeholders.
pub type UpdateInput = ExprInput;

/// A key condition expression with its placeholders.
pub type KeyConditionInput = ExprInput;

/// A projection expression (the attribute paths to return) with its
/// placeholders.
pub type ProjectionInput = ExprInput;

/// The options of a query.
#[derive(Debug)]
pub struct QueryOptions {
    /// A secondary index to read instead of the table.
    pub index: Option<String>,
    /// Applied after `limit`.
    pub filter: Option<ConditionInput>,
    /// Ascending sort key order when true.
    pub scan_forward: bool,
    /// At most this many items are read (before the filter).
    pub limit: Option<usize>,
    /// Resume after this encoded key (a previous page's last key).
    pub exclusive_start_key: Option<Vec<u8>>,
    /// The attribute paths returned of each item (all when absent).
    pub projection: Option<ProjectionInput>,
}

impl Default for QueryOptions {
    /// The table itself, no filter, ascending, no limit, from the start.
    fn default() -> (r: Self)
        ensures
            r.index is None,
            r.filter is None,
            r.scan_forward,
            r.limit is None,
            r.exclusive_start_key is None,
            r.projection is None,
    {
        QueryOptions {
            index: None,
            filter: None,
            scan_forward: true,
            limit: None,
            exclusive_start_key: None,
            projection: None,
        }
    }
}

/// The options of a scan.
#[derive(Debug)]
pub struct ScanOptions {
    pub filter: Option<ConditionInput>,
    pub limit: Option<usize>,
    pub exclusive_start_key: Option<Vec<u8>>,
    pub projection: Option<ProjectionInput>,
}

impl Default for ScanOptions {
    /// No filter, no limit, from the start.
    fn default() -> (r: Self)
        ensures
            r.filter is None,
            r.limit is None,
            r.exclusive_start_key is None,
            r.projection is None,
    {
        ScanOptions { filter: None, limit: None, exclusive_start_key: None, projection: None }
    }
}

/// A page of results, and the key to resume after when the limit cut it.
#[derive(Debug)]
pub struct Page {
    pub items: Vec<Item>,
    pub last_evaluated_key: Option<Vec<u8>>,
}

/// A key lies past the resume point in the direction of the scan (after it
/// ascending, before it descending); every key does without one.
pub open spec fn past_start_spec(key: Seq<u8>, start: Option<Vec<u8>>, forward: bool) -> bool {
    match start {
        None => true,
        Some(s) => if forward {
            lex_order(key, s@) > 0
        } else {
            lex_order(key, s@) < 0
        },
    }
}

/// Whether a key lies past the resume point in the direction of the scan.
pub fn past_start(key: &[u8], start: &Option<Vec<u8>>, forward: bool) -> (r: bool)
    ensures
        r == past_start_spec(key@, *start, forward),
{
    match start {
        None => true,
        Some(s) => {
            let c = compare_bytes(key, s.as_slice());
            if forward {
                c > 0
            } else {
                c < 0
            }
        },
    }
}

/// Whether `n` items keep within a limit (a limit of 0 still lets the
/// first item through).
pub open spec fn within_limit(n: nat, limit: Option<usize>) -> bool {
    match limit {
        Some(l) => l == 0 || n <= l,
        None => true,
    }
}

/// Whether a page holding `n` items has reached the limit.
pub fn page_full(n: usize, limit: Option<usize>) -> (r: bool)
    ensures
        r == (limit matches Some(l) && n >= l),
{
    match limit {
        Some(l) => n >= l,
        None => false,
    }
}

/// The stored forms of table definitions and items: whatever serialisation
/// the store keeps them in, given by the caller.
pub struct Codec<DD, ED, DI, EI> {
    pub decode_def: DD,
    pub encode_def: ED,
    pub decode_item: DI,
    pub encode_item: EI,
}

impl<DD, ED, DI, EI> Codec<DD, ED, DI, EI> where
    DD: Fn(&[u8]) -> Result<TableDef, DbError>,
    ED: Fn(&TableDef) -> Result<Vec<u8>, DbError>,
    DI: Fn(&[u8]) -> Result<Item, DbError>,
    EI: Fn(&Item) -> Result<Vec<u8>, DbError>,
 {
    /// Every conversion accepts every input, and reports a failure as a
    /// `Serialization` error.
    pub open spec fn total(&self) -> bool {
        &&& forall|b: &[u8]| self.decode_def.requires((b,))
        &&& forall|d: &TableDef| self.encode_def.requires((d,))
        &&& forall|b: &[u8]| self.decode_item.requires((b,))
        &&& forall|i: &Item| self.encode_item.requires((i,))
        &&& forall|b: &[u8], r: Result<TableDef, DbError>|
            #[trigger] self.decode_def.ensures((b,), r) ==> !(r matches Err(e) && !(e is Serialization))
        &&& forall|d: &TableDef, r: Result<Vec<u8>, DbError>|
            #[trigger] self.encode_def.ensures((d,), r) ==> !(r matches Err(e) && !(e is Serialization))
        &&& forall|b: &[u8], r: Result<Item, DbError>|
            #[trigger] self.decode_item.ensures((b,), r) ==> !(r matches Err(e) && !(e is Serialization))
        &&& forall|i: &Item, r: Result<Vec<u8>, DbError>|
            #[trigger] self.encode_item.ensures((i,), r) ==> !(r matches Err(e) && !(e is Serialization))
    }
}

/// `e` is a syntax tree that the parser gives for the condition text.
pub open spec fn parsed_condition(text: Seq<char>, e: Expr) -> bool {
    lex_spec(utf8(text)) matches Some(t) && or_at(t, 0, t.len() as int, e)
}

/// The condition text lexes, is some condition, and holds fewer tokens than
/// half the address space: exactly when the parser succeeds.
pub open spec fn condition_readable(text: Seq<char>) -> bool {
    match lex_spec(utf8(text)) {
        Some(t) => t.len() < usize::MAX / 2 && condition_parses(t),
        None => false,
    }
}

/// `it` is what the item decoder gives for some stored bytes.
pub open spec fn decoded_item<DI: Fn(&[u8]) -> Result<Item, DbError>>(decode: DI, it: Item) -> bool {
    exists|b: &[u8]| decode.ensures((b,), Ok::<Item, DbError>(it))
}

/// The condition holds of the item.
pub open spec fn holds(c: ConditionInput, it: Item) -> bool {
    exists|e: Expr|
        parsed_condition(c.expression@, e) && eval_spec(e, it, c.names, c.values) == Ok::<bool, ()>(
            true,
        )
}

/// The condition holds of an item the store could hold under the key: one
/// the item decoder gives, or the empty item where none is stored.
pub open spec fn held_on_stored<DI: Fn(&[u8]) -> Result<Item, DbError>>(
    decode: DI,
    c: ConditionInput,
) -> bool {
    exists|current: Item|
        (current.entries@.len() == 0 || decoded_item(decode, current)) && #[trigger] holds(c, current)
}

/// The models of an optional key attribute.
pub open spec fn key_model(sk: Option<&AttributeValue>) -> Option<Model> {
    match sk {
        Some(v) => Some(v@),
        None => None,
    }
}

/// A condition that is absent or readable.
pub open spec fn opt_condition_readable(c: Option<ConditionInput>) -> bool {
    match c {
        Some(x) => condition_readable(x.expression@),
        None => true,
    }
}

/// The key condition text lexes, is some key condition, and holds fewer
/// tokens than half the address space: exactly when the parser succeeds.
pub open spec fn key_condition_readable(text: Seq<char>) -> bool {
    match lex_spec(utf8(text)) {
        Some(t) => t.len() < usize::MAX / 2 && key_condition_parses(t),
        None => false,
    }
}

/// The update text lexes, is some update expression, and holds fewer tokens
/// than half the address space: exactly when the parser succeeds.
pub open spec fn update_readable(text: Seq<char>) -> bool {
    match lex_spec(utf8(text)) {
        Some(t) => t.len() < usize::MAX / 2 && update_parses(t),
        None => false,
    }
}

/// Checks a condition against an item (the current item, or an empty one
/// when there is none): `ConditionalCheckFailed` when it is false. An
/// unreadable condition, and one whose evaluation fails, is a validation
/// error.
pub fn check_condition(cond: &ConditionInput, item: &Item) -> (r: Result<(), DbError>)
    ensures
        r is Ok ==> exists|e: Expr|
            parsed_condition(cond.expression@, e) && eval_spec(e, *item, cond.names, cond.values)
                == Ok::<bool, ()>(true),
        r matches Err(DbError::ConditionalCheckFailed) ==> exists|e: Expr|
            parsed_condition(cond.expression@, e) && eval_spec(e, *item, cond.names, cond.values)
                == Ok::<bool, ()>(false),
        r matches Err(e) ==> (e is ConditionalCheckFailed || e is Validation),
        !condition_readable(cond.expression@) ==> r matches Err(DbError::Validation(_)),
        condition_readable(cond.expression@) && (forall|e: Expr|
            #[trigger] parsed_condition(cond.expression@, e) ==> eval_spec(
                e,
                *item,
                cond.names,
                cond.values,
            ) == Ok::<bool, ()>(true)) ==> r is Ok,
        condition_readable(cond.expression@) && (forall|e: Expr|
            #[trigger] parsed_condition(cond.expression@, e) ==> eval_spec(
                e,
                *item,
                cond.names,
                cond.values,
            ) == Ok::<bool, ()>(false)) ==> r matches Err(DbError::ConditionalCheckFailed),
        condition_readable(cond.expression@) && (forall|e: Expr|
            #[trigger] parsed_condition(cond.expression@, e) ==> eval_spec(
                e,
                *item,
                cond.names,
                cond.values,
            ) is Err) ==> r matches Err(DbError::Validation(_)),
{
    let ast = parse_condition(cond.expression.as_str())?;
    assert(parsed_condition(cond.expression@, ast));
    assert(condition_readable(cond.expression@));
    let ctx = ExprContext { names: &cond.names, values: &cond.values };
    if eval(&ast, item, &ctx)? {
        Ok(())
    } else {
        Err(DbError::ConditionalCheckFailed)
    }
}

/// The items on which a filter holds, in order; an evaluation error stops.
pub open spec fn kept(
    items: Seq<Item>,
    e: Expr,
    names: AttrMap<String>,
    values: AttrMap<AttributeValue>,
) -> Result<Seq<Item>, ()>
    decreases items.len(),
{
    if items.len() == 0 {
        Ok(Seq::empty())
    } else {
        match kept(items.drop_last(), e, names, values) {
            Err(()) => Err(()),
            Ok(s) => match eval_spec(e, items.last(), names, values) {
                Err(()) => Err(()),
                Ok(true) => Ok(s.push(items.last())),
                Ok(false) => Ok(s),
            },
        }
    }
}

/// Once a filter fails on a prefix of the items, it fails on all of them.
pub proof fn lemma_kept_err(
    items: Seq<Item>,
    n: int,
    e: Expr,
    names: AttrMap<String>,
    values: AttrMap<AttributeValue>,
)
    requires
        0 <= n <= items.len(),
        kept(items.take(n), e, names, values) is Err,
    ensures
        kept(items, e, names, values) is Err,
    decreases items.len(),
{
    if n < items.len() {
        assert(items.drop_last().take(n) =~= items.take(n));
        lemma_kept_err(items.drop_last(), n, e, names, values);
    } else {
        assert(items.take(n) =~= items);
    }
}

/// A filter keeps at most the items it is given.
pub proof fn lemma_kept_len(
    items: Seq<Item>,
    e: Expr,
    names: AttrMap<String>,
    values: AttrMap<AttributeValue>,
)
    ensures
        kept(items, e, names, values) matches Ok(s) ==> s.len() <= items.len(),
    decreases items.len(),
{
    if items.len() > 0 {
        lemma_kept_len(items.drop_last(), e, names, values);
    }
}

/// `out` is what a filter keeps of `items`: all of them without one.
pub open spec fn filtered(items: Seq<Item>, filter: Option<ConditionInput>, out: Seq<Item>) -> bool {
    match filter {
        None => out == items,
        Some(f) => exists|e: Expr|
            parsed_condition(f.expression@, e) && kept(items, e, f.names, f.values) == Ok::<
                Seq<Item>,
                (),
            >(out),
    }
}

/// `out` is `items` reduced to a projection, item by item: `items` itself
/// without one.
pub open spec fn projected(items: Seq<Item>, projection: Option<ProjectionInput>, out: Seq<Item>) -> bool {
    match projection {
        None => out == items,
        Some(p) => out.len() == items.len() && forall|i: int|
            0 <= i < items.len() ==> #[trigger] item_projected(p, items[i], out[i]),
    }
}

/// `out` is what is left of the items read once filtered and projected.
pub open spec fn finished(
    items: Seq<Item>,
    filter: Option<ConditionInput>,
    projection: Option<ProjectionInput>,
    out: Seq<Item>,
) -> bool {
    exists|k: Seq<Item>| #[trigger] filtered(items, filter, k) && projected(k, projection, out)
}

/// Applies a filter to the items read: without one every item stays. An
/// unreadable filter, and one whose evaluation fails on an item, is a
/// validation error.
pub fn apply_filter(items: Vec<Item>, filter: Option<&ConditionInput>) -> (r: Result<
    Vec<Item>,
    DbError,
>)
    ensures
        match (filter, r) {
            (None, Ok(v)) => v@ == items@,
            (None, Err(_)) => false,
            (Some(f), Ok(v)) => exists|e: Expr|
                parsed_condition(f.expression@, e) && kept(items@, e, f.names, f.values) == Ok::<
                    Seq<Item>,
                    (),
                >(v@),
            (Some(f), Err(err)) => err is Validation && (!condition_readable(f.expression@)
                || exists|e: Expr|
                parsed_condition(f.expression@, e) && kept(items@, e, f.names, f.values) is Err),
        },
        r matches Ok(v) ==> v@.len() <= items@.len(),
        r is Ok ==> match filter {
            Some(f) => condition_readable(f.expression@),
            None => true,
        },
        filter matches Some(f) && condition_readable(f.expression@) && (forall|e: Expr|
            #[trigger] parsed_condition(f.expression@, e) ==> kept(items@, e, f.names, f.values) is Ok)
            ==> r is Ok,
{
    match filter {
        None => Ok(items),
        Some(f) => {
            let ast = parse_condition(f.expression.as_str())?;
            assert(parsed_condition(f.expression@, ast));
            assert(condition_readable(f.expression@));
            let ctx = ExprContext { names: &f.names, values: &f.values };
            keep_matching(items, &ast, &ctx)
        },
    }
}

/// The items on which an expression holds, as `kept` says.
fn keep_matching(items: Vec<Item>, e: &Expr, ctx: &ExprContext) -> (r: Result<Vec<Item>, DbError>)
    ensures
        match r {
            Ok(v) => kept(items@, *e, *ctx.names, *ctx.values) == Ok::<Seq<Item>, ()>(v@),
            Err(err) => kept(items@, *e, *ctx.names, *ctx.values) is Err && err is Validation,
        },
        r matches Ok(v) ==> v@.len() <= items@.len(),
{
    let n = items.len();
    let ghost all = items@;
    let mut rest = items;
    assert(all.len() == n);
    let mut out: Vec<Item> = Vec::new();
    let mut i: usize = 0;
    while rest.len() > 0
        invariant
            rest@.len() + i == all.len(),
            all == items@,
            all.len() <= usize::MAX,
            rest@ == all.skip(i as int),
            kept(all.take(i as int), *e, *ctx.names, *ctx.values) == Ok::<Seq<Item>, ()>(out@),
        decreases rest@.len(),
    {
        let item = rest.remove(0);
        proof {
            assert(all.take(i as int + 1).drop_last() =~= all.take(i as int));
            assert(all.take(i as int + 1).last() == item);
            assert(rest@ =~= all.skip(i as int + 1));
        }
        let keep = match eval(e, &item, ctx) {
            Ok(b) => b,
            Err(err) => {
                proof {
                    let pre = all.take(i as int + 1);
                    assert(pre.len() > 0);
                    assert(kept(pre, *e, *ctx.names, *ctx.values) is Err);
                    lemma_kept_err(all, i as int + 1, *e, *ctx.names, *ctx.values);
                }
                return Err(err);
            },
        };
        if keep {
            out.push(item);
        }
        i = i + 1;
    }
    assert(all.take(i as int) =~= all);
    proof {
        lemma_kept_len(all, *e, *ctx.names, *ctx.values);
    }
    Ok(out)
}

/// An item reduced to the projected paths; the whole item without a
/// projection. Missing paths are left out. An unreadable projection, and one
/// that cannot be applied, is a validation error.
pub fn project_item(item: Item, projection: Option<&ProjectionInput>) -> (r: Result<Item, DbError>)
    ensures
        match (projection, r) {
            (None, Ok(o)) => o == item,
            (None, Err(_)) => false,
            (Some(p), Ok(o)) => exists|paths: Seq<Path>|
                parsed_projection(p.expression@, paths) && project_spec(p.names, item, paths)
                    == Ok::<Seq<(Seq<char>, Model)>, ()>(entries_model(o.entries@)),
            (Some(p), Err(err)) => err is Validation && (!projection_readable(p.expression@)
                || exists|paths: Seq<Path>|
                parsed_projection(p.expression@, paths) && project_spec(p.names, item, paths) is Err),
        },
        projection matches Some(p) && projection_readable(p.expression@) && (forall|paths: Seq<Path>|
            #[trigger] parsed_projection(p.expression@, paths) ==> project_spec(p.names, item, paths)
                is Ok) ==> r is Ok,
{
    match projection {
        None => Ok(item),
        Some(p) => {
            let paths = parse_projection(p.expression.as_str())?;
            assert(parsed_projection(p.expression@, paths@));
            assert(projection_readable(p.expression@));
            let ctx = ExprContext { names: &p.names, values: &p.values };
            project(paths.as_slice(), &item, &ctx)
        },
    }
}

/// `o` is the item `it` reduced to the paths of a parse of the projection.
pub open spec fn item_projected(p: ProjectionInput, it: Item, o: Item) -> bool {
    exists|paths: Seq<Path>|
        parsed_projection(p.expression@, paths) && project_spec(p.names, it, paths) == Ok::<
            Seq<(Seq<char>, Model)>,
            (),
        >(entries_model(o.entries@))
}

/// Each item reduced to the projected paths, in order.
pub fn project_items(items: Vec<Item>, projection: Option<&ProjectionInput>) -> (r: Result<
    Vec<Item>,
    DbError,
>)
    ensures
        projection is None ==> (r matches Ok(v) && v@ == items@),
        r matches Ok(v) ==> v@.len() == items@.len(),
        match (projection, r) {
            (Some(p), Ok(v)) => forall|i: int|
                0 <= i < items@.len() ==> #[trigger] item_projected(*p, items@[i], v@[i]),
            (Some(p), Err(e)) => e is Validation && items@.len() > 0 && (!projection_readable(
                p.expression@,
            ) || exists|i: int, paths: Seq<Path>|
                #![trigger project_spec(p.names, items@[i], paths)]
                0 <= i < items@.len() && parsed_projection(p.expression@, paths) && project_spec(
                    p.names,
                    items@[i],
                    paths,
                ) is Err),
            (None, _) => true,
        },
        projection matches Some(p) && projection_readable(p.expression@) && (forall|i: int, paths: Seq<Path>|
            #![trigger project_spec(p.names, items@[i], paths)]
            0 <= i < items@.len() && parsed_projection(p.expression@, paths) ==> project_spec(
                p.names,
                items@[i],
                paths,
            ) is Ok) ==> r is Ok,
{
    if projection.is_none() {
        return Ok(items);
    }
    let n = items.len();
    let ghost all = items@;
    let mut rest = items;
    let mut out: Vec<Item> = Vec::new();
    let mut i: usize = 0;
    while rest.len() > 0
        invariant
            out@.len() + rest@.len() == n,
            out@.len() == i,
            all.len() == n,
            all == items@,
            rest@ == all.skip(i as int),
            projection is Some,
            forall|j: int| 0 <= j < i ==> #[trigger] item_projected(*projection->0, all[j], out@[j]),
        decreases rest@.len(),
    {
        let item = rest.remove(0);
        proof {
            assert(item == all[i as int]);
            assert(rest@ =~= all.skip(i as int + 1));
        }
        let ghost it = item;
        let o = match project_item(item, projection) {
            Ok(o) => o,
            Err(e) => {
                proof {
                    let p = projection->0;
                    if projection_readable(p.expression@) {
                        let paths = choose|paths: Seq<Path>|
                            parsed_projection(p.expression@, paths) && project_spec(p.names, it, paths)
                                is Err;
                        assert(project_spec(p.names, items@[i as int], paths) is Err);
                    }
                }
                return Err(e);
            },
        };
        out.push(o);
        proof {
            assert forall|j: int| 0 <= j < i + 1 implies #[trigger] item_projected(
                *projection->0,
                all[j],
                out@[j],
            ) by {
                if j == i {
                    assert(all[j] == it);
                }
            }
        }
        i = i + 1;
    }
    proof {
        assert forall|k: int| 0 <= k < items@.len() implies #[trigger] item_projected(
            *projection->0,
            items@[k],
            out@[k],
        ) by {
            assert(all[k] == items@[k]);
        }
    }
    Ok(out)
}

/// `paths` is what the parser gives for the projection text.
pub open spec fn parsed_projection(text: Seq<char>, paths: Seq<Path>) -> bool {
    lex_spec(utf8(text)) matches Some(t) && projection_ok(t, paths)
}

/// The projection text lexes, is some projection, and holds fewer tokens
/// than half the address space: exactly when the parser succeeds.
pub open spec fn projection_readable(text: Seq<char>) -> bool {
    match lex_spec(utf8(text)) {
        Some(t) => t.len() < usize::MAX / 2 && projection_parses(t),
        None => false,
    }
}

/// The name of the logical table holding an index's entries.
pub open spec fn index_table(table: Seq<char>, index: Seq<char>) -> Seq<char> {
    "idx:"@ + table + ":"@ + index
}

/// One index brought in line with an item's change: the old item's entry
/// goes, then the new item's entry (with an empty value) comes; an item
/// without the index key attribute has no entry. An entry key that cannot
/// be formed is refused.
pub open spec fn index_step(
    c: Contents,
    table: Seq<char>,
    idx: IndexDef,
    key: Seq<u8>,
    old: Option<Item>,
    new: Option<Item>,
) -> Result<Contents, ()> {
    let t = index_table(table, idx.name@);
    let removed = match old {
        None => Ok(c),
        Some(o) => match entry_key_spec(idx, o, key) {
            Ok(Some(k)) => Ok(c.remove((t, k))),
            Ok(None) => Ok(c),
            Err(_) => Err(()),
        },
    };
    match removed {
        Err(_) => Err(()),
        Ok(c1) => match new {
            None => Ok(c1),
            Some(n) => match entry_key_spec(idx, n, key) {
                Ok(Some(k)) => Ok(c1.insert((t, k), Seq::<u8>::empty())),
                Ok(None) => Ok(c1),
                Err(_) => Err(()),
            },
        },
    }
}

/// The indexes of `table`, in order, brought in line with an item's change
/// (`index_step` for each).
pub open spec fn index_writes(
    c: Contents,
    table: Seq<char>,
    indexes: Seq<IndexDef>,
    key: Seq<u8>,
    old: Option<Item>,
    new: Option<Item>,
) -> Result<Contents, ()>
    decreases indexes.len(),
{
    if indexes.len() == 0 {
        Ok(c)
    } else {
        match index_writes(c, table, indexes.drop_last(), key, old, new) {
            Ok(c1) => index_step(c1, table, indexes.last(), key, old, new),
            Err(_) => Err(()),
        }
    }
}

/// The optional item behind an optional reference.
pub open spec fn opt_item(o: Option<&Item>) -> Option<Item> {
    match o {
        Some(i) => Some(*i),
        None => None,
    }
}

/// Brings a table's index entries in line with an item's change, as
/// `index_writes` says; a refusal there is a `Validation` error.
pub fn update_index_entries<T: WriteTxn>(
    txn: &mut T,
    def: &TableDef,
    key: &[u8],
    before: Option<&Item>,
    after: Option<&Item>,
) -> (r: Result<(), DbError>)
    ensures
        r is Ok ==> index_writes(
            old(txn).contents(),
            def.name@,
            def.indexes@,
            key@,
            opt_item(before),
            opt_item(after),
        ) == Ok::<Contents, ()>(final(txn).contents()),
        r matches Err(e) ==> e is Storage || (e is Validation && index_writes(
            old(txn).contents(),
            def.name@,
            def.indexes@,
            key@,
            opt_item(before),
            opt_item(after),
        ) is Err),
        index_writes(
            old(txn).contents(),
            def.name@,
            def.indexes@,
            key@,
            opt_item(before),
            opt_item(after),
        ) is Err ==> r is Err,
{
    let none: Vec<u8> = Vec::new();
    let ghost c0 = txn.contents();
    let ghost t = def.name@;
    let ghost o = opt_item(before);
    let ghost nw = opt_item(after);
    let mut i: usize = 0;
    assert(def.indexes@.take(0) =~= Seq::<IndexDef>::empty());
    while i < def.indexes.len()
        invariant
            i <= def.indexes@.len(),
            c0 == old(txn).contents(),
            t == def.name@,
            o == opt_item(before),
            nw == opt_item(after),
            none@ == Seq::<u8>::empty(),
            index_writes(c0, t, def.indexes@.take(i as int), key@, o, nw) == Ok::<Contents, ()>(
                txn.contents(),
            ),
        decreases def.indexes@.len() - i,
    {
        let idx = &def.indexes[i];
        let idx_table = index_table_name(def.name.as_str(), idx.name.as_str());
        let ghost ci = txn.contents();
        proof {
            assert(def.indexes@.take(i + 1).drop_last() =~= def.indexes@.take(i as int));
            if index_writes(c0, t, def.indexes@.take(i + 1), key@, o, nw) is Err {
                lemma_index_writes_err(c0, t, def.indexes@, key@, o, nw, i + 1);
            }
        }
        if let Some(o2) = before {
            if let Some(k) = index_entry_key(idx, o2, key)? {
                txn.delete(idx_table.as_str(), k.as_slice())?;
            }
        }
        if let Some(n) = after {
            if let Some(k) = index_entry_key(idx, n, key)? {
                txn.put(idx_table.as_str(), k.as_slice(), none.as_slice())?;
            }
        }
        assert(index_step(ci, t, *idx, key@, o, nw) == Ok::<Contents, ()>(txn.contents()));
        i = i + 1;
    }
    assert(def.indexes@.take(i as int) =~= def.indexes@);
    Ok(())
}

/// A refusal for some first indexes is a refusal for all of them.
proof fn lemma_index_writes_err(
    c: Contents,
    table: Seq<char>,
    indexes: Seq<IndexDef>,
    key: Seq<u8>,
    old: Option<Item>,
    new: Option<Item>,
    n: int,
)
    requires
        0 <= n <= indexes.len(),
        index_writes(c, table, indexes.take(n), key, old, new) is Err,
    ensures
        index_writes(c, table, indexes, key, old, new) is Err,
    decreases indexes.len() - n,
{
    if n < indexes.len() {
        assert(indexes.take(n + 1).drop_last() =~= indexes.take(n));
        lemma_index_writes_err(c, table, indexes, key, old, new, n + 1);
    } else {
        assert(indexes.take(n) =~= indexes);
    }
}

/// The current item under a key: the decoded stored item, or an empty item
/// when nothing is stored.
pub fn decode_item_or_empty<DI: Fn(&[u8]) -> Result<Item, DbError>>(
    bytes: Option<&Vec<u8>>,
    decode_item: &DI,
) -> (r: Result<Item, DbError>)
    requires
        forall|b: &[u8]| decode_item.requires((b,)),
    ensures
        bytes is None ==> (r matches Ok(it) && it.entries@.len() == 0),
        bytes is Some ==> (r matches Ok(it) ==> decoded_item(*decode_item, it)),
        r matches Err(e) ==> exists|s: &[u8]| #[trigger] decode_item.ensures((s,), Err::<Item, DbError>(e)),
{
    match bytes {
        None => Ok(Item::new()),
        Some(b) => decode_item(b.as_slice()),
    }
}

} // verus!
