//! Querying one partition (pk equality) in sort key order, on the table or
//! on one of its secondary indexes. The limit counts the items read before
//! the filter; expired items are not there (and do not count). Through an
//! index the whole item is read from the table.
use vstd::prelude::*;
use crate::application::meta::load_def_read;
use crate::application::usecases::inputs::{
    key_condition_readable, opt_condition_readable, past_start_spec, finished, filtered, projected,
    decoded_item,
    apply_filter, page_full, past_start, project_items, within_limit, Codec, KeyConditionInput, Page, QueryOptions,
};
use crate::domain::attribute::{AttrMap, AttributeValue, Item, Model};
use crate::domain::expr::grammar::key_condition_ok;
use crate::domain::expr::key::sk_spec;
use crate::domain::expr::lexer::lex_spec;
use crate::domain::text::utf8;
use crate::domain::ttl::expired_spec;
use crate::domain::byte_order::{lemma_lex_order_antisym, lemma_lex_order_eq, lex_order};
use crate::application::usecases::transact_write::sk_model;
use crate::domain::error::{DbError, validation};
use crate::domain::expr::ast::{KeyCondition, SkCond};
use crate::domain::expr::eval::{seg_key, ExprContext};
use crate::domain::expr::key::{attr_name, sk_matches};
use crate::domain::expr::parser::parse_key_condition;
use crate::domain::index::index_table_name;
use crate::application::usecases::inputs::index_table;
use crate::ports::storage::{entries_view, lookup, scan_of, value_view, Contents};
use crate::domain::key::KeySchema;
use crate::domain::key_codec::{
    decode_first, decode_key, enc_value, encode_value, is_atom, read_first, read_key, KeyAtom,
};
use crate::domain::table::TableDef;
use crate::domain::text::{owned, str_eq};
use crate::domain::ttl::is_expired;
use crate::ports::storage::{Clock, ReadTxn, StorageEngine};

verus! {

/// The bytes of an optional key.
pub open spec fn key_view(k: Option<Vec<u8>>) -> Option<Seq<u8>> {
    match k {
        Some(b) => Some(b@),
        None => None,
    }
}

/// One step of filling a page with a candidate (its key and item): an
/// expired item is passed over; a live one is added, and where that fills
/// the page, its key is the last evaluated key.
pub open spec fn page_step(
    acc: Seq<Item>,
    key: Seq<u8>,
    item: Item,
    def: TableDef,
    now: int,
    limit: Option<usize>,
) -> (Seq<Item>, Option<Seq<u8>>) {
    if expired_spec(def, item, now) {
        (acc, None)
    } else if limit matches Some(l) && acc.len() + 1 >= l {
        (acc.push(item), Some(key))
    } else {
        (acc.push(item), None)
    }
}

/// The page that candidates fill in the order they are visited, before the
/// filter: the limit counts the live items read, and once it is reached
/// nothing more is taken.
pub open spec fn page_fold(
    cands: Seq<(Seq<u8>, Item)>,
    def: TableDef,
    now: int,
    limit: Option<usize>,
) -> (Seq<Item>, Option<Seq<u8>>)
    decreases cands.len(),
{
    if cands.len() == 0 {
        (Seq::empty(), None)
    } else {
        let prev = page_fold(cands.drop_last(), def, now, limit);
        if prev.1 is Some {
            prev
        } else {
            page_step(prev.0, cands.last().0, cands.last().1, def, now, limit)
        }
    }
}

/// A visited entry is a candidate: its key lies past the resume point and
/// its sort key meets the key condition's sort key condition.
pub open spec fn admitted(
    key: Seq<u8>,
    sk: Option<Model>,
    kc: KeyCondition,
    values: AttrMap<AttributeValue>,
    opts: QueryOptions,
) -> bool {
    &&& past_start_spec(key, opts.exclusive_start_key, opts.scan_forward)
    &&& match kc.sk {
        Some((_, c)) => sk_spec(c, sk, values) == Ok::<bool, ()>(true),
        None => true,
    }
}

/// `p` is the page of a query whose key condition parsed to `kc`, given the
/// candidates it took in visit order (with their sort keys; each item one
/// that the item decoder gives), the table's definition and the time: the
/// page filled from them, then filtered and projected.
pub open spec fn query_page<DI: Fn(&[u8]) -> Result<Item, DbError>>(
    decode: DI,
    input: KeyConditionInput,
    opts: QueryOptions,
    kc: KeyCondition,
    cands: Seq<(Seq<u8>, Item)>,
    sks: Seq<Option<Model>>,
    def: TableDef,
    now: int,
    p: Page,
) -> bool {
    &&& lex_spec(utf8(input.expression@)) matches Some(t) && key_condition_ok(t, kc)
    &&& sks.len() == cands.len()
    &&& forall|j: int|
        0 <= j < cands.len() ==> admitted(cands[j].0, #[trigger] sks[j], kc, input.values, opts)
    &&& forall|j: int| 0 <= j < cands.len() ==> decoded_item(decode, #[trigger] cands[j].1)
    &&& key_view(p.last_evaluated_key) == page_fold(cands, def, now, opts.limit).1
    &&& finished(page_fold(cands, def, now, opts.limit).0, opts.filter, opts.projection, p.items@)
}

/// The sort key atom an entry's key holds, where it can be read: the index
/// sort key of an index entry, else the table sort key of the item key.
pub open spec fn key_sk(key: Seq<u8>, via_index: bool, has_sk: bool) -> Option<Option<KeyAtom>> {
    if via_index {
        match entry_layout(key, has_sk) {
            Some((a, _)) => Some(a),
            None => None,
        }
    } else {
        match read_key(key) {
            Some((_, c)) => Some(c),
            None => None,
        }
    }
}

/// The key condition's sort key condition gives `b` on the sort key written
/// as `atom` (true where there is no such condition).
pub open spec fn sk_verdict(
    kc: KeyCondition,
    atom: Option<KeyAtom>,
    values: AttrMap<AttributeValue>,
    b: bool,
) -> bool {
    match kc.sk {
        None => b,
        Some((_, c)) => exists|v: Option<AttributeValue>|
            #[trigger] atom_of(v, atom) && sk_spec(c, sk_model(v), values) == Ok::<bool, ()>(b),
    }
}

/// The position of the `v`-th entry visited among `n`, in the direction of
/// the query.
pub open spec fn visit_at(n: int, v: int, forward: bool) -> int {
    if forward {
        v
    } else {
        n - 1 - v
    }
}

/// `it` is the item an entry stands for: the decoded entry value on the
/// table, or the decoded item stored under the entry's main key when the
/// entry is an index entry.
pub open spec fn entry_item<DI: Fn(&[u8]) -> Result<Item, DbError>>(
    decode: DI,
    c: Contents,
    table: Seq<char>,
    e: (Seq<u8>, Seq<u8>),
    via_index: bool,
    has_sk: bool,
    it: Item,
) -> bool {
    if via_index {
        entry_layout(e.0, has_sk) matches Some((_, m)) && lookup(c, table, m) matches Some(b)
            && exists|s: &[u8]| s@ == b && #[trigger] decode.ensures((s,), Ok::<Item, DbError>(it))
    } else {
        exists|s: &[u8]| s@ == e.1 && #[trigger] decode.ensures((s,), Ok::<Item, DbError>(it))
    }
}

/// A visited entry is passed over: its key is not past the resume point, or
/// its sort key fails the sort key condition, or (for an index entry) no
/// item is stored under its main key.
pub open spec fn passed_over(
    kc: KeyCondition,
    values: AttrMap<AttributeValue>,
    opts: QueryOptions,
    c: Contents,
    table: Seq<char>,
    key: Seq<u8>,
    via_index: bool,
    has_sk: bool,
) -> bool {
    ||| !past_start_spec(key, opts.exclusive_start_key, opts.scan_forward)
    ||| (kc.sk is Some && (key_sk(key, via_index, has_sk) matches Some(a) && sk_verdict(
        kc,
        a,
        values,
        false,
    )))
    ||| (via_index && (entry_layout(key, has_sk) matches Some((_, m)) && lookup(c, table, m) is None))
}

/// A visited entry is a candidate: its key is past the resume point, its sort
/// key meets the sort key condition, and `it` is the item it stands for.
pub open spec fn taken<DI: Fn(&[u8]) -> Result<Item, DbError>>(
    decode: DI,
    kc: KeyCondition,
    values: AttrMap<AttributeValue>,
    opts: QueryOptions,
    c: Contents,
    table: Seq<char>,
    e: (Seq<u8>, Seq<u8>),
    via_index: bool,
    has_sk: bool,
    it: Item,
) -> bool {
    &&& past_start_spec(e.0, opts.exclusive_start_key, opts.scan_forward)
    &&& (kc.sk is Some ==> (key_sk(e.0, via_index, has_sk) matches Some(a) && sk_verdict(
        kc,
        a,
        values,
        true,
    )))
    &&& entry_item(decode, c, table, e, via_index, has_sk, it)
}

/// The candidates of a query are read from the store `c`: `es` is the scan,
/// on the table (or the requested index's table), of the key prefix that
/// encodes the partition key value the key condition names, `visited` of its entries were visited in the query's direction,
/// and the candidates are, in visit order, exactly the visited entries that
/// were not passed over (`vis` gives their visit numbers), each with the
/// item it stands for.
pub open spec fn query_read<DI: Fn(&[u8]) -> Result<Item, DbError>>(
    decode: DI,
    kc: KeyCondition,
    values: AttrMap<AttributeValue>,
    opts: QueryOptions,
    def: TableDef,
    c: Contents,
    prefix: Seq<u8>,
    es: Seq<(Seq<u8>, Seq<u8>)>,
    has_sk: bool,
    visited: int,
    vis: Seq<int>,
    cands: Seq<(Seq<u8>, Item)>,
) -> bool {
    let via_index = opts.index is Some;
    let source = match opts.index {
        None => def.name@,
        Some(ix) => index_table(def.name@, ix@),
    };
    &&& scan_of(c, source, prefix, es)
    &&& (values.find(seq![58u8 as char] + kc.pk_value@) matches Some(pkv) && enc_value(pkv@)
        == Some(prefix))
    &&& 0 <= visited <= es.len()
    &&& vis.len() == cands.len()
    &&& forall|j: int, k: int| #![trigger vis[j], vis[k]] 0 <= j < k < vis.len() ==> vis[j] < vis[k]
    &&& forall|j: int|
        0 <= j < vis.len() ==> 0 <= #[trigger] vis[j] < visited && cands[j].0 == es[visit_at(
            es.len() as int,
            vis[j],
            opts.scan_forward,
        )].0 && taken(
            decode,
            kc,
            values,
            opts,
            c,
            def.name@,
            es[visit_at(es.len() as int, vis[j], opts.scan_forward)],
            via_index,
            has_sk,
            cands[j].1,
        )
    &&& forall|v: int|
        0 <= v < visited && !vis.contains(v) ==> #[trigger] passed_over(
            kc,
            values,
            opts,
            c,
            def.name@,
            es[visit_at(es.len() as int, v, opts.scan_forward)].0,
            via_index,
            has_sk,
        )
}

/// Adds a candidate to a page being filled (`page_step`); the key returned
/// is the last evaluated key when the page is now full.
pub fn add_candidate(
    items: &mut Vec<Item>,
    key: &Vec<u8>,
    item: Item,
    def: &TableDef,
    now: i64,
    limit: Option<usize>,
) -> (r: Option<Vec<u8>>)
    ensures
        (final(items)@, key_view(r)) == page_step(old(items)@, key@, item, *def, now as int, limit),
{
    if is_expired(def, &item, now) {
        return None;
    }
    items.push(item);
    if page_full(items.len(), limit) {
        Some(key.clone())
    } else {
        None
    }
}

/// Candidates whose keys ascend strictly, as a forward scan visits them.
pub open spec fn keys_ascending(c: Seq<(Seq<u8>, Item)>) -> bool {
    forall|i: int, j: int| 0 <= i < j < c.len() ==> lex_order(c[i].0, c[j].0) < 0
}

/// The candidates whose keys come after `k`, in order: those a page resumed
/// after `k` visits.
pub open spec fn cands_after(c: Seq<(Seq<u8>, Item)>, k: Seq<u8>) -> Seq<(Seq<u8>, Item)>
    decreases c.len(),
{
    if c.len() == 0 {
        c
    } else if lex_order(c.last().0, k) > 0 {
        cands_after(c.drop_last(), k).push(c.last())
    } else {
        cands_after(c.drop_last(), k)
    }
}

proof fn lemma_fold_unlimited(c: Seq<(Seq<u8>, Item)>, def: TableDef, now: int)
    ensures
        page_fold(c, def, now, None).1 is None,
    decreases c.len(),
{
    if c.len() > 0 {
        lemma_fold_unlimited(c.drop_last(), def, now);
    }
}

proof fn lemma_fold_unfilled(c: Seq<(Seq<u8>, Item)>, def: TableDef, now: int, limit: Option<usize>)
    requires
        page_fold(c, def, now, limit).1 is None,
    ensures
        page_fold(c, def, now, limit).0 == page_fold(c, def, now, None).0,
    decreases c.len(),
{
    if c.len() > 0 {
        lemma_fold_unlimited(c.drop_last(), def, now);
        lemma_fold_unfilled(c.drop_last(), def, now, limit);
    }
}

proof fn lemma_fold_key_in(c: Seq<(Seq<u8>, Item)>, def: TableDef, now: int, limit: Option<usize>, k: Seq<u8>) -> (i: int)
    requires
        page_fold(c, def, now, limit).1 == Some(k),
    ensures
        0 <= i < c.len() && c[i].0 == k,
    decreases c.len(),
{
    let prev = page_fold(c.drop_last(), def, now, limit);
    if prev.1 is Some {
        lemma_fold_key_in(c.drop_last(), def, now, limit, k)
    } else {
        c.len() - 1
    }
}

proof fn lemma_after_none(c: Seq<(Seq<u8>, Item)>, k: Seq<u8>)
    requires
        forall|i: int| 0 <= i < c.len() ==> lex_order(#[trigger] c[i].0, k) <= 0,
    ensures
        cands_after(c, k).len() == 0,
    decreases c.len(),
{
    if c.len() > 0 {
        assert(lex_order(c[c.len() - 1].0, k) <= 0);
        lemma_after_none(c.drop_last(), k);
    }
}

/// Paging resumes where it stopped: over candidates in ascending key order,
/// the items of a page that the limit cut at key `k`, followed by all the
/// items that the candidates after `k` give without a limit, are all the
/// items that the candidates give without a limit; so the pages of a query
/// resumed from each last evaluated key hold every item once, in order.
pub proof fn lemma_page_resume(
    c: Seq<(Seq<u8>, Item)>,
    def: TableDef,
    now: int,
    limit: Option<usize>,
    k: Seq<u8>,
)
    requires
        keys_ascending(c),
        page_fold(c, def, now, limit).1 == Some(k),
    ensures
        page_fold(c, def, now, None).0 == page_fold(c, def, now, limit).0 + page_fold(
            cands_after(c, k),
            def,
            now,
            None,
        ).0,
    decreases c.len(),
{
    let c0 = c.drop_last();
    let x = c.last();
    assert(keys_ascending(c0));
    lemma_fold_unlimited(c0, def, now);
    let p = page_fold(c0, def, now, limit);
    if p.1 is Some {
        lemma_page_resume(c0, def, now, limit, k);
        let i = lemma_fold_key_in(c0, def, now, limit, k);
        assert(c[i] == c0[i]);
        assert(lex_order(c[i].0, c[c.len() - 1].0) < 0);
        lemma_lex_order_antisym(c[i].0, x.0);
        assert(cands_after(c, k) == cands_after(c0, k).push(x));
        assert(cands_after(c, k).drop_last() =~= cands_after(c0, k));
        lemma_fold_unlimited(cands_after(c0, k), def, now);
        let full0 = page_fold(c0, def, now, None).0;
        let rest0 = page_fold(cands_after(c0, k), def, now, None).0;
        if !expired_spec(def, x.1, now) {
            assert((p.0 + rest0).push(x.1) =~= p.0 + rest0.push(x.1));
        }
    } else {
        lemma_fold_unfilled(c0, def, now, limit);
        assert forall|j: int| 0 <= j < c.len() implies lex_order(#[trigger] c[j].0, k) <= 0 by {
            if j < c.len() - 1 {
                assert(lex_order(c[j].0, c[c.len() - 1].0) < 0);
            } else {
                lemma_lex_order_eq(c[j].0, k);
            }
        }
        lemma_after_none(c, k);
        assert(cands_after(c, k) =~= Seq::empty());
        assert(page_fold(cands_after(c, k), def, now, None).0 =~= Seq::empty());
        assert(page_fold(c, def, now, limit).0 + Seq::empty() =~= page_fold(c, def, now, limit).0);
    }
}

/// The position of an index by name among a table's indexes.
pub fn find_index(def: &TableDef, name: &str) -> (r: Option<usize>)
    ensures
        match r {
            Some(i) => i < def.indexes@.len() && def.indexes@[i as int].name@ == name@,
            None => forall|k: int|
                0 <= k < def.indexes@.len() ==> (#[trigger] def.indexes@[k]).name@ != name@,
        },
{
    let mut i: usize = 0;
    while i < def.indexes.len()
        invariant
            i <= def.indexes@.len(),
            forall|k: int| 0 <= k < i ==> (#[trigger] def.indexes@[k]).name@ != name@,
        decreases def.indexes@.len() - i,
    {
        if str_eq(def.indexes[i].name.as_str(), name) {
            return Some(i);
        }
        i = i + 1;
    }
    None
}

/// The sort key condition of a key condition, checked against the key
/// schema queried: its attribute must be the schema's sort key.
pub fn resolve_sk<'a>(kc: &'a KeyCondition, schema: &KeySchema, ctx: &ExprContext) -> (r: Result<
    Option<&'a SkCond>,
    DbError,
>)
    ensures
        match kc.sk {
            None => r matches Ok(None),
            Some((seg, cond)) => match (seg_key(*ctx.names, seg), schema.sk) {
                (Ok(name), Some(sk)) => if sk@ == name {
                    r matches Ok(Some(c)) && *c == cond
                } else {
                    r matches Err(e) && e is Validation
                },
                _ => r matches Err(e) && e is Validation,
            },
        },
{
    match &kc.sk {
        None => Ok(None),
        Some((seg, cond)) => {
            let name = attr_name(seg, ctx)?;
            match &schema.sk {
                Some(sk_name) => {
                    if str_eq(sk_name.as_str(), name.as_str()) {
                        Ok(Some(cond))
                    } else {
                        Err(validation("the key condition does not reference the sort key"))
                    }
                },
                None => Err(validation("the key schema has no sort key")),
            }
        },
    }
}

/// The layout of an index entry key: the index partition key value, then
/// (when the index has a sort key) the index sort key value, then the
/// item's main key. Gives the sort key atom and the main key.
pub open spec fn entry_layout(e: Seq<u8>, has_sk: bool) -> Option<(Option<KeyAtom>, Seq<u8>)> {
    match read_first(e) {
        None => None,
        Some((_, n1)) => if n1 > e.len() {
            None
        } else if !has_sk {
            Some((None, e.skip(n1)))
        } else {
            match read_first(e.skip(n1)) {
                None => None,
                Some((a, n2)) => if n2 > e.len() - n1 {
                    None
                } else {
                    Some((Some(a), e.skip(n1 + n2)))
                },
            }
        },
    }
}

/// An optional value is written as an optional key atom.
pub open spec fn atom_of(v: Option<AttributeValue>, a: Option<KeyAtom>) -> bool {
    match (v, a) {
        (None, None) => true,
        (Some(x), Some(y)) => is_atom(x, y),
        _ => false,
    }
}

/// The parts of an index entry key: the index sort key value (when the
/// index has one) and the item's main key, as `entry_layout` gives them.
pub fn entry_parts(entry: &[u8], has_sk: bool) -> (r: Result<
    (Option<AttributeValue>, Vec<u8>),
    DbError,
>)
    ensures
        match r {
            Ok((sk, main)) => entry_layout(entry@, has_sk) matches Some((a, m)) && m == main@
                && atom_of(sk, a),
            Err(e) => entry_layout(entry@, has_sk) is None && e is Validation,
        },
        r matches Ok((sk, main)) ==> (has_sk <==> sk is Some) && main@.len() <= entry@.len(),
{
    let (_, n1) = decode_first(entry)?;
    if n1 > entry.len() {
        return Err(validation("malformed index entry key"));
    }
    let mut at = n1;
    let mut sk: Option<AttributeValue> = None;
    let ghost mut atom: Option<KeyAtom> = None;
    if has_sk {
        let mut rest: Vec<u8> = Vec::new();
        let mut j: usize = at;
        while j < entry.len()
            invariant
                at <= j <= entry@.len(),
                rest@ == entry@.subrange(at as int, j as int),
            decreases entry@.len() - j,
        {
            rest.push(entry[j]);
            j = j + 1;
            assert(rest@ =~= entry@.subrange(at as int, j as int));
        }
        assert(rest@ =~= entry@.skip(n1 as int));
        let (v, n2) = decode_first(rest.as_slice())?;
        if n2 > rest.len() {
            return Err(validation("malformed index entry key"));
        }
        proof {
            atom = match read_first(entry@.skip(n1 as int)) {
                Some((a, _)) => Some(a),
                None => None,
            };
        }
        at = at + n2;
        sk = Some(v);
    }
    let mut main: Vec<u8> = Vec::new();
    let mut k: usize = at;
    while k < entry.len()
        invariant
            at <= entry@.len(),
            at <= k <= entry@.len(),
            main@ == entry@.subrange(at as int, k as int),
        decreases entry@.len() - k,
    {
        main.push(entry[k]);
        k = k + 1;
        assert(main@ =~= entry@.subrange(at as int, k as int));
    }
    assert(main@ =~= entry@.skip(at as int));
    Ok((sk, main))
}

/// A page of one partition's items, in sort key order (descending when
/// `scan_forward` is false). `last_evaluated_key` is set only when the limit
/// cut the page.
pub fn query<E, DD, ED, DI, EI>(
    engine: &E,
    table: &str,
    key_condition: &KeyConditionInput,
    opts: &QueryOptions,
    codec: &Codec<DD, ED, DI, EI>,
) -> (r: Result<Page, DbError>) where
    E: StorageEngine,
    DD: Fn(&[u8]) -> Result<TableDef, DbError>,
    ED: Fn(&TableDef) -> Result<Vec<u8>, DbError>,
    DI: Fn(&[u8]) -> Result<Item, DbError>,
    EI: Fn(&Item) -> Result<Vec<u8>, DbError>,

    requires
        codec.total(),
    ensures
        r matches Ok(p) ==> (p.last_evaluated_key is Some ==> opts.limit is Some),
        r matches Ok(p) ==> within_limit(p.items@.len(), opts.limit),
        r is Ok ==> key_condition_readable(key_condition.expression@) && opt_condition_readable(
            opts.filter,
        ),
        r matches Ok(p) ==> exists|
            kc: KeyCondition,
            cands: Seq<(Seq<u8>, Item)>,
            sks: Seq<Option<Model>>,
            def: TableDef,
            now: int,
        | #[trigger] query_page(codec.decode_item, *key_condition, *opts, kc, cands, sks, def, now, p),
        r matches Ok(p) ==> exists|
            kc: KeyCondition,
            cands: Seq<(Seq<u8>, Item)>,
            sks: Seq<Option<Model>>,
            def: TableDef,
            now: int,
            c: Contents,
            prefix: Seq<u8>,
            es: Seq<(Seq<u8>, Seq<u8>)>,
            has_sk: bool,
            visited: int,
            vis: Seq<int>,
        |
            #![trigger query_page(codec.decode_item, *key_condition, *opts, kc, cands, sks, def, now, p), query_read(codec.decode_item, kc, key_condition.values, *opts, def, c, prefix, es, has_sk, visited, vis, cands)]
            query_page(codec.decode_item, *key_condition, *opts, kc, cands, sks, def, now, p)
                && query_read(
                codec.decode_item,
                kc,
                key_condition.values,
                *opts,
                def,
                c,
                prefix,
                es,
                has_sk,
                visited,
                vis,
                cands,
            ),
{
    let now = engine.clock().now_epoch();
    let txn = engine.begin_read()?;
    let def = load_def_read(&txn, table, &codec.decode_def)?;
    let kc = parse_key_condition(key_condition.expression.as_str())?;
    let ctx = ExprContext { names: &key_condition.names, values: &key_condition.values };
    // The key schema and the logical table that are read.
    let (schema, source, via_index) = match &opts.index {
        None => (&def.key, owned(def.name.as_str()), false),
        Some(index_name) => match find_index(&def, index_name.as_str()) {
            Some(i) => (
                &def.indexes[i].key,
                index_table_name(def.name.as_str(), index_name.as_str()),
                true,
            ),
            None => {
                return Err(DbError::ResourceNotFound(owned(index_name.as_str())));
            },
        },
    };
    let pk_name = attr_name(&kc.pk_name, &ctx)?;
    if !str_eq(pk_name.as_str(), schema.pk.as_str()) {
        return Err(validation("the key condition does not reference the partition key"));
    }
    let sk_cond = resolve_sk(&kc, schema, &ctx)?;
    let has_sk = schema.sk.is_some();
    let pk_value = match key_condition.values.get_tagged(58, kc.pk_value.as_str()) {
        Some(v) => v,
        None => {
            return Err(validation("unknown expression attribute value"));
        },
    };
    let prefix = encode_value(pk_value)?;
    let entries = txn.scan_prefix(source.as_str(), prefix.as_slice())?;
    let n = entries.len();
    let mut matched: Vec<Item> = Vec::new();
    let mut last_key: Option<Vec<u8>> = None;
    let mut limit_hit = false;
    let ghost mut cands: Seq<(Seq<u8>, Item)> = Seq::empty();
    let ghost mut sks: Seq<Option<Model>> = Seq::empty();
    let ghost es = entries_view(entries@);
    let ghost mut vis: Seq<int> = Seq::empty();
    assert(source@ == match opts.index {
        None => def.name@,
        Some(ix) => index_table(def.name@, ix@),
    });
    let mut i: usize = 0;
    while i < n
        invariant_except_break
            !limit_hit,
            match opts.limit {
                Some(l) => l == 0 || matched@.len() < l,
                None => true,
            },
            page_fold(cands, def, now as int, opts.limit) == (matched@, None::<Seq<u8>>),
        invariant
            i <= n,
            n == entries@.len(),
            codec.total(),
            es == entries_view(entries@),
            via_index == opts.index is Some,
            has_sk == schema.sk is Some,
            source@ == match opts.index {
                None => def.name@,
                Some(ix) => index_table(def.name@, ix@),
            },
            scan_of(txn.contents(), source@, prefix@, es),
            vis.len() == cands.len(),
            forall|j: int, k: int| #![trigger vis[j], vis[k]] 0 <= j < k < vis.len() ==> vis[j] < vis[k],
            forall|j: int|
                0 <= j < vis.len() ==> 0 <= #[trigger] vis[j] < i && cands[j].0 == es[visit_at(
                    es.len() as int,
                    vis[j],
                    opts.scan_forward,
                )].0 && taken(
                    codec.decode_item,
                    kc,
                    key_condition.values,
                    *opts,
                    txn.contents(),
                    def.name@,
                    es[visit_at(es.len() as int, vis[j], opts.scan_forward)],
                    via_index,
                    has_sk,
                    cands[j].1,
                ),
            forall|v: int|
                0 <= v < i && !vis.contains(v) ==> #[trigger] passed_over(
                    kc,
                    key_condition.values,
                    *opts,
                    txn.contents(),
                    def.name@,
                    es[visit_at(es.len() as int, v, opts.scan_forward)].0,
                    via_index,
                    has_sk,
                ),
            limit_hit ==> opts.limit is Some,
            within_limit(matched@.len(), opts.limit),
            sk_cond == match kc.sk {
                Some((_, c)) => Some(&c),
                None => None,
            },
            *ctx.values == key_condition.values,
            forall|j: int| 0 <= j < cands.len() ==> decoded_item(codec.decode_item, #[trigger] cands[j].1),
            sks.len() == cands.len(),
            forall|j: int|
                0 <= j < cands.len() ==> admitted(
                    cands[j].0,
                    #[trigger] sks[j],
                    kc,
                    key_condition.values,
                    *opts,
                ),
        ensures
            within_limit(matched@.len(), opts.limit),
            limit_hit ==> opts.limit is Some,
            page_fold(cands, def, now as int, opts.limit) == (
                matched@,
                if limit_hit {
                    key_view(last_key)
                } else {
                    None
                },
            ),
            sks.len() == cands.len(),
            forall|j: int|
                0 <= j < cands.len() ==> admitted(
                    cands[j].0,
                    #[trigger] sks[j],
                    kc,
                    key_condition.values,
                    *opts,
                ),
            forall|j: int| 0 <= j < cands.len() ==> decoded_item(codec.decode_item, #[trigger] cands[j].1),
        decreases n - i,
    {
        let at = if opts.scan_forward {
            i
        } else {
            n - 1 - i
        };
        let ghost v = i as int;
        i = i + 1;
        let key = &entries[at].0;
        assert(visit_at(es.len() as int, v, opts.scan_forward) == at);
        assert(es[at as int].0 == key@ && es[at as int].1 == entries@[at as int].1@);
        assert(!vis.contains(v));
        if !past_start(key.as_slice(), &opts.exclusive_start_key, opts.scan_forward) {
            assert(passed_over(kc, key_condition.values, *opts, txn.contents(), def.name@, key@, via_index, has_sk));
            continue;
        }
        let ghost mut skv: Option<Model> = None;
        if let Some(cond) = sk_cond {
            let sk = if via_index {
                let (isk, _) = entry_parts(key.as_slice(), has_sk)?;
                isk
            } else {
                let (_, tsk) = decode_key(key.as_slice())?;
                tsk
            };
            assert(key_sk(key@, via_index, has_sk) is Some);
            assert(atom_of(sk, key_sk(key@, via_index, has_sk)->0));
            if !sk_matches(cond, sk.as_ref(), &ctx)? {
                assert(sk_verdict(kc, key_sk(key@, via_index, has_sk)->0, key_condition.values, false));
                assert(passed_over(kc, key_condition.values, *opts, txn.contents(), def.name@, key@, via_index, has_sk));
                continue;
            }
            assert(sk_verdict(kc, key_sk(key@, via_index, has_sk)->0, key_condition.values, true));
            proof {
                skv = sk_model(sk);
            }
        }
        let item = if via_index {
            let (_, main_key) = entry_parts(key.as_slice(), has_sk)?;
            match txn.get(def.name.as_str(), main_key.as_slice())? {
                Some(bytes) => {
                    let it = (codec.decode_item)(bytes.as_slice())?;
                    assert(entry_item(codec.decode_item, txn.contents(), def.name@, es[at as int], via_index, has_sk, it));
                    it
                },
                None => {
                    assert(passed_over(kc, key_condition.values, *opts, txn.contents(), def.name@, key@, via_index, has_sk));
                    continue;
                },
            }
        } else {
            let it = (codec.decode_item)(entries[at].1.as_slice())?;
            assert(entry_item(codec.decode_item, txn.contents(), def.name@, es[at as int], via_index, has_sk, it));
            it
        };
        assert(taken(codec.decode_item, kc, key_condition.values, *opts, txn.contents(), def.name@, es[at as int], via_index, has_sk, item));
        let ghost prev = cands;
        assert(admitted(key@, skv, kc, key_condition.values, *opts));
        assert(decoded_item(codec.decode_item, item));
        proof {
            cands = cands.push((key@, item));
            sks = sks.push(skv);
            let pv = vis;
            vis = vis.push(v);
            assert(cands.drop_last() =~= prev);
            assert forall|w: int| 0 <= w < i && !vis.contains(w) implies #[trigger] passed_over(
                kc,
                key_condition.values,
                *opts,
                txn.contents(),
                def.name@,
                es[visit_at(es.len() as int, w, opts.scan_forward)].0,
                via_index,
                has_sk,
            ) by {
                if w == v {
                    assert(vis[vis.len() - 1] == v);
                } else if pv.contains(w) {
                    let j = choose|j: int| 0 <= j < pv.len() && pv[j] == w;
                    assert(vis[j] == w);
                }
            }
        }
        let full = add_candidate(&mut matched, key, item, &def, now, opts.limit);
        if full.is_some() {
            last_key = full;
            limit_hit = true;
            break;
        }
    }
    let last_evaluated_key = if limit_hit {
        last_key
    } else {
        None
    };
    let ghost read = matched@;
    let kept = apply_filter(matched, opts.filter.as_ref())?;
    let ghost k = kept@;
    let items = project_items(kept, opts.projection.as_ref())?;
    proof {
        assert(filtered(read, opts.filter, k));
        assert(projected(k, opts.projection, items@));
        assert(finished(read, opts.filter, opts.projection, items@));
    }
    let page = Page { items, last_evaluated_key };
    assert(query_page(codec.decode_item, *key_condition, *opts, kc, cands, sks, def, now as int, page));
    assert(query_read(codec.decode_item, kc, key_condition.values, *opts, def, txn.contents(), prefix@, es, has_sk, i as int, vis, cands));
    Ok(page)
}

} // verus!
