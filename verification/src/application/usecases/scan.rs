//! Scanning a whole table in key order. The limit counts the items read
//! before the filter; expired items are not there (and do not count).
use vstd::prelude::*;
use crate::application::meta::load_def_read;
use crate::application::usecases::inputs::{
    opt_condition_readable, past_start_spec, finished, filtered, projected, decoded_item,
    apply_filter, page_full, past_start, project_items, within_limit, Codec, Page, ScanOptions,
};
use crate::domain::attribute::Item;
use crate::domain::error::DbError;
use crate::application::usecases::query::{add_candidate, key_view, page_fold};
use crate::domain::table::TableDef;
use crate::ports::storage::{entries_view, scan_of, Contents};
use crate::ports::storage::{Clock, ReadTxn, StorageEngine};

verus! {

/// `p` is the page of a scan, given the candidates it took in key order (the
/// entries past the resume point, with the items the item decoder gives for
/// them), the table's definition
/// and the time: the page filled from them, then filtered and projected.
pub open spec fn scan_page<DI: Fn(&[u8]) -> Result<Item, DbError>>(
    decode: DI,
    opts: ScanOptions,
    cands: Seq<(Seq<u8>, Item)>,
    def: TableDef,
    now: int,
    p: Page,
) -> bool {
    &&& forall|j: int|
        0 <= j < cands.len() ==> past_start_spec(
            #[trigger] cands[j].0,
            opts.exclusive_start_key,
            true,
        )
    &&& forall|j: int| 0 <= j < cands.len() ==> decoded_item(decode, #[trigger] cands[j].1)
    &&& key_view(p.last_evaluated_key) == page_fold(cands, def, now, opts.limit).1
    &&& finished(page_fold(cands, def, now, opts.limit).0, opts.filter, opts.projection, p.items@)
}

/// `it` is what the item decoder gives for the stored bytes `b`.
pub open spec fn value_item<DI: Fn(&[u8]) -> Result<Item, DbError>>(decode: DI, b: Seq<u8>, it: Item) -> bool {
    exists|s: &[u8]| s@ == b && #[trigger] decode.ensures((s,), Ok::<Item, DbError>(it))
}

/// The candidates of a scan are read from the store `c`: `es` is the scan of
/// the whole table, its first `visited` entries were visited in key order,
/// and the candidates are, in order, exactly the visited entries past the
/// resume point (`vis` gives their positions), each with the item its value
/// decodes to.
pub open spec fn scan_read<DI: Fn(&[u8]) -> Result<Item, DbError>>(
    decode: DI,
    opts: ScanOptions,
    def: TableDef,
    c: Contents,
    es: Seq<(Seq<u8>, Seq<u8>)>,
    visited: int,
    vis: Seq<int>,
    cands: Seq<(Seq<u8>, Item)>,
) -> bool {
    &&& scan_of(c, def.name@, Seq::empty(), es)
    &&& 0 <= visited <= es.len()
    &&& vis.len() == cands.len()
    &&& forall|j: int, k: int| #![trigger vis[j], vis[k]] 0 <= j < k < vis.len() ==> vis[j] < vis[k]
    &&& forall|j: int|
        0 <= j < vis.len() ==> 0 <= #[trigger] vis[j] < visited && cands[j].0 == es[vis[j]].0
            && value_item(decode, es[vis[j]].1, cands[j].1)
    &&& forall|v: int|
        0 <= v < visited && !vis.contains(v) ==> !past_start_spec(
            #[trigger] es[v].0,
            opts.exclusive_start_key,
            true,
        )
}

/// A page of a table's items. `last_evaluated_key` is set only when the
/// limit cut the page.
pub fn scan<E, DD, ED, DI, EI>(
    engine: &E,
    table: &str,
    opts: &ScanOptions,
    codec: &Codec<DD, ED, DI, EI>,
) -> (r: Result<Page, DbError>) where
    E: StorageEngine,
    DD: Fn(&[u8]) -> Result<TableDef, DbError>,
    ED: Fn(&TableDef) -> Result<Vec<u8>, DbError>,
    DI: Fn(&[u8]) -> Result<Item, DbError>,
    EI: Fn(&Item) -> Result<Vec<u8>, DbError>,

    requires
        codec.total(),
    ensures
        r matches Ok(p) ==> (p.last_evaluated_key is Some ==> opts.limit is Some),
        r matches Ok(p) ==> within_limit(p.items@.len(), opts.limit),
        r is Ok ==> opt_condition_readable(opts.filter),
        r matches Ok(p) ==> exists|cands: Seq<(Seq<u8>, Item)>, def: TableDef, now: int|
            #[trigger] scan_page(codec.decode_item, *opts, cands, def, now, p),
        r matches Ok(p) ==> exists|
            cands: Seq<(Seq<u8>, Item)>,
            def: TableDef,
            now: int,
            c: Contents,
            es: Seq<(Seq<u8>, Seq<u8>)>,
            visited: int,
            vis: Seq<int>,
        |
            #![trigger scan_page(codec.decode_item, *opts, cands, def, now, p), scan_read(codec.decode_item, *opts, def, c, es, visited, vis, cands)]
            scan_page(codec.decode_item, *opts, cands, def, now, p) && scan_read(
                codec.decode_item,
                *opts,
                def,
                c,
                es,
                visited,
                vis,
                cands,
            ),
{
    let now = engine.clock().now_epoch();
    let txn = engine.begin_read()?;
    let def = load_def_read(&txn, table, &codec.decode_def)?;
    let all: Vec<u8> = Vec::new();
    let entries = txn.scan_prefix(def.name.as_str(), all.as_slice())?;
    let mut matched: Vec<Item> = Vec::new();
    let mut last_key: Option<Vec<u8>> = None;
    let mut limit_hit = false;
    let ghost mut cands: Seq<(Seq<u8>, Item)> = Seq::empty();
    let ghost es = entries_view(entries@);
    let ghost mut vis: Seq<int> = Seq::empty();
    assert(all@ =~= Seq::<u8>::empty());
    let mut i: usize = 0;
    while i < entries.len()
        invariant_except_break
            !limit_hit,
            match opts.limit {
                Some(l) => l == 0 || matched@.len() < l,
                None => true,
            },
            page_fold(cands, def, now as int, opts.limit) == (matched@, None::<Seq<u8>>),
        invariant
            i <= entries@.len(),
            codec.total(),
            es == entries_view(entries@),
            scan_of(txn.contents(), def.name@, Seq::empty(), es),
            vis.len() == cands.len(),
            forall|j: int, k: int| #![trigger vis[j], vis[k]] 0 <= j < k < vis.len() ==> vis[j] < vis[k],
            forall|j: int|
                0 <= j < vis.len() ==> 0 <= #[trigger] vis[j] < i && cands[j].0 == es[vis[j]].0
                    && value_item(codec.decode_item, es[vis[j]].1, cands[j].1),
            forall|v: int|
                0 <= v < i && !vis.contains(v) ==> !past_start_spec(
                    #[trigger] es[v].0,
                    opts.exclusive_start_key,
                    true,
                ),
            limit_hit ==> opts.limit is Some,
            within_limit(matched@.len(), opts.limit),
            forall|j: int|
                0 <= j < cands.len() ==> past_start_spec(
                    #[trigger] cands[j].0,
                    opts.exclusive_start_key,
                    true,
                ),
            forall|j: int| 0 <= j < cands.len() ==> decoded_item(codec.decode_item, #[trigger] cands[j].1),
        ensures
            within_limit(matched@.len(), opts.limit),
            limit_hit ==> opts.limit is Some,
            page_fold(cands, def, now as int, opts.limit) == (
                matched@,
                if limit_hit {
                    key_view(last_key)
                } else {
                    None
                },
            ),
            forall|j: int|
                0 <= j < cands.len() ==> past_start_spec(
                    #[trigger] cands[j].0,
                    opts.exclusive_start_key,
                    true,
                ),
            forall|j: int| 0 <= j < cands.len() ==> decoded_item(codec.decode_item, #[trigger] cands[j].1),
        decreases entries@.len() - i,
    {
        let key = &entries[i].0;
        let ghost v = i as int;
        i = i + 1;
        assert(es[v].0 == key@ && es[v].1 == entries@[v].1@);
        assert(!vis.contains(v));
        if !past_start(key.as_slice(), &opts.exclusive_start_key, true) {
            continue;
        }
        let value = entries[i - 1].1.as_slice();
        let item = (codec.decode_item)(value)?;
        assert(value@ == es[v].1);
        assert(value_item(codec.decode_item, es[v].1, item));
        let ghost prev = cands;
        assert(decoded_item(codec.decode_item, item));
        proof {
            let pv = vis;
            vis = vis.push(v);
            assert forall|w: int| 0 <= w < i && !vis.contains(w) implies !past_start_spec(
                #[trigger] es[w].0,
                opts.exclusive_start_key,
                true,
            ) by {
                if w == v {
                    assert(vis[vis.len() - 1] == v);
                } else if pv.contains(w) {
                    let j = choose|j: int| 0 <= j < pv.len() && pv[j] == w;
                    assert(vis[j] == w);
                }
            }
            cands = cands.push((key@, item));
            assert(cands.drop_last() =~= prev);
        }
        let full = add_candidate(&mut matched, key, item, &def, now, opts.limit);
        if full.is_some() {
            last_key = full;
            limit_hit = true;
            break;
        }
    }
    let last_evaluated_key = if limit_hit {
        last_key
    } else {
        None
    };
    let ghost read = matched@;
    let kept = apply_filter(matched, opts.filter.as_ref())?;
    let ghost k = kept@;
    let items = project_items(kept, opts.projection.as_ref())?;
    proof {
        assert(filtered(read, opts.filter, k));
        assert(projected(k, opts.projection, items@));
        assert(finished(read, opts.filter, opts.projection, items@));
    }
    let page = Page { items, last_evaluated_key };
    assert(scan_page(codec.decode_item, *opts, cands, def, now as int, page));
    assert(scan_read(codec.decode_item, *opts, def, txn.contents(), es, i as int, vis, cands));
    Ok(page)
}

} // verus!
