//! What an update leaves alone: every top-level attribute that none of its
//! actions names keeps its value. Key attributes are refused among the
//! names an update touches, so an updated item keeps its key.
use vstd::prelude::*;
use crate::domain::attribute::{
    drop_entry, entries_model, lemma_find_model, model_find, put_entry, slot, model_keys, Model,
    AttrMap, AttributeValue, Item,
};
use crate::domain::expr::ast::{Path, SetValue, UpdateExpr};
use crate::domain::expr::eval::seg_key;
use crate::domain::expr::update::{
    add_action, add_all, apply_sets, apply_spec, delete_action, delete_all, heads, remove_all,
    remove_path_spec, set_path_spec, set_paths, top_name, touched_spec, value_paths,
};

verus! {

proof fn lemma_find_insert_other(s: Seq<(Seq<char>, Model)>, i: int, e: (Seq<char>, Model), k: Seq<char>)
    requires
        0 <= i <= s.len(),
        e.0 != k,
    ensures
        model_find(s.insert(i, e), k) == model_find(s, k),
    decreases s.len(),
{
    if i == 0 {
        assert(s.insert(0, e).drop_first() =~= s);
    } else {
        assert(s.insert(i, e)[0] == s[0]);
        if s[0].0 != k {
            assert(s.insert(i, e).drop_first() =~= s.drop_first().insert(i - 1, e));
            lemma_find_insert_other(s.drop_first(), i - 1, e, k);
        }
    }
}

proof fn lemma_find_update_other(s: Seq<(Seq<char>, Model)>, i: int, e: (Seq<char>, Model), k: Seq<char>)
    requires
        0 <= i < s.len(),
        e.0 != k,
        s[i].0 != k,
    ensures
        model_find(s.update(i, e), k) == model_find(s, k),
    decreases s.len(),
{
    if i > 0 {
        assert(s.update(i, e)[0] == s[0]);
        if s[0].0 != k {
            assert(s.update(i, e).drop_first() =~= s.drop_first().update(i - 1, e));
            lemma_find_update_other(s.drop_first(), i - 1, e, k);
        }
    } else {
        assert(s.update(0, e).drop_first() =~= s.drop_first());
    }
}

proof fn lemma_find_remove_other(s: Seq<(Seq<char>, Model)>, i: int, k: Seq<char>)
    requires
        0 <= i < s.len(),
        s[i].0 != k,
    ensures
        model_find(s.remove(i), k) == model_find(s, k),
    decreases s.len(),
{
    if i > 0 {
        assert(s.remove(i)[0] == s[0]);
        if s[0].0 != k {
            assert(s.remove(i).drop_first() =~= s.drop_first().remove(i - 1));
            lemma_find_remove_other(s.drop_first(), i - 1, k);
        }
    } else {
        assert(s.remove(0) =~= s.drop_first());
    }
}

/// Binding one attribute leaves every other one as it was.
pub proof fn lemma_put_entry_other(s: Seq<(Seq<char>, Model)>, k: Seq<char>, v: Model, k2: Seq<char>)
    requires
        k != k2,
    ensures
        model_find(put_entry(s, k, v), k2) == model_find(s, k2),
{
    let i = slot(model_keys(s), k);
    crate::domain::attribute::lemma_slot_bounds(model_keys(s), k);
    if i < s.len() && s[i].0 == k {
        lemma_find_update_other(s, i, (k, v), k2);
    } else {
        lemma_find_insert_other(s, i, (k, v), k2);
    }
}

/// Removing one attribute leaves every other one as it was.
pub proof fn lemma_drop_entry_other(s: Seq<(Seq<char>, Model)>, k: Seq<char>, k2: Seq<char>)
    requires
        k != k2,
    ensures
        model_find(drop_entry(s, k), k2) == model_find(s, k2),
{
    let i = slot(model_keys(s), k);
    crate::domain::attribute::lemma_slot_bounds(model_keys(s), k);
    if i < s.len() && s[i].0 == k {
        lemma_find_remove_other(s, i, k2);
    }
}

/// The head of each path, as `heads` lists them.
proof fn lemma_heads(names: AttrMap<String>, ps: Seq<Path>, i: int)
    requires
        heads(names, ps) is Ok,
        0 <= i < ps.len(),
    ensures
        heads(names, ps)->Ok_0.len() == ps.len(),
        ps[i].0@.len() > 0,
        seg_key(names, ps[i].0@[0]) == Ok::<Seq<char>, ()>(heads(names, ps)->Ok_0[i]),
    decreases ps.len(),
{
    let h = heads(names, ps)->Ok_0;
    let h0 = heads(names, ps.drop_last())->Ok_0;
    let last = ps.last().0@;
    assert(h == h0.push(seg_key(names, last[0])->Ok_0));
    if i < ps.len() - 1 {
        lemma_heads(names, ps.drop_last(), i);
        assert(ps.drop_last()[i] == ps[i]);
        assert(h[i] == h0[i]);
    } else if ps.len() > 1 {
        lemma_heads(names, ps.drop_last(), 0);
    }
}

/// No path among `ps` has the head `k`.
pub open spec fn untouched(names: AttrMap<String>, ps: Seq<Path>, k: Seq<char>) -> bool {
    forall|i: int|
        0 <= i < ps.len() ==> seg_key(names, (#[trigger] ps[i]).0@[0]) != Ok::<Seq<char>, ()>(k)
}

proof fn lemma_sets_frame(
    names: AttrMap<String>,
    out: Seq<(Seq<char>, Model)>,
    sets: Seq<(Path, SetValue)>,
    vals: Seq<Model>,
    k: Seq<char>,
)
    requires
        apply_sets(names, out, sets, vals) is Ok,
        untouched(names, set_paths(sets), k),
    ensures
        model_find(apply_sets(names, out, sets, vals)->Ok_0, k) == model_find(out, k),
    decreases sets.len(),
{
    if sets.len() > 0 {
        let p = sets[0].0.0@;
        assert(set_paths(sets)[0] == sets[0].0);
        let o = set_path_spec(names, out, p, vals[0])->Ok_0;
        let kh = seg_key(names, p[0])->Ok_0;
        assert(kh != k);
        lemma_put_entry_other(out, kh, if p.len() == 1 {
            vals[0]
        } else {
            crate::domain::expr::update::set_at(names, model_find(out, kh)->0, p.drop_first(), vals[0])->Ok_0
        }, k);
        assert(untouched(names, set_paths(sets.drop_first()), k)) by {
            assert forall|i: int| 0 <= i < set_paths(sets.drop_first()).len() implies seg_key(
                names,
                (#[trigger] set_paths(sets.drop_first())[i]).0@[0],
            ) != Ok::<Seq<char>, ()>(k) by {
                assert(set_paths(sets.drop_first())[i] == set_paths(sets)[i + 1]);
            }
        }
        lemma_sets_frame(names, o, sets.drop_first(), vals.drop_first(), k);
    }
}

proof fn lemma_removes_frame(
    names: AttrMap<String>,
    out: Seq<(Seq<char>, Model)>,
    paths: Seq<Path>,
    k: Seq<char>,
)
    requires
        remove_all(names, out, paths) is Ok,
        untouched(names, paths, k),
    ensures
        model_find(remove_all(names, out, paths)->Ok_0, k) == model_find(out, k),
    decreases paths.len(),
{
    if paths.len() > 0 {
        let p = paths[0].0@;
        let kh = seg_key(names, p[0])->Ok_0;
        assert(kh != k);
        let o = remove_path_spec(names, out, p)->Ok_0;
        if p.len() == 1 {
            lemma_drop_entry_other(out, kh, k);
        } else if model_find(out, kh) is Some {
            lemma_put_entry_other(
                out,
                kh,
                crate::domain::expr::update::remove_at(names, model_find(out, kh)->0, p.drop_first())->Ok_0,
                k,
            );
        }
        assert(untouched(names, paths.drop_first(), k)) by {
            assert forall|i: int| 0 <= i < paths.drop_first().len() implies seg_key(
                names,
                (#[trigger] paths.drop_first()[i]).0@[0],
            ) != Ok::<Seq<char>, ()>(k) by {
                assert(paths.drop_first()[i] == paths[i + 1]);
            }
        }
        lemma_removes_frame(names, o, paths.drop_first(), k);
    }
}

proof fn lemma_adds_frame(
    item: Item,
    names: AttrMap<String>,
    values: AttrMap<AttributeValue>,
    out: Seq<(Seq<char>, Model)>,
    acts: Seq<(Path, String)>,
    k: Seq<char>,
)
    requires
        add_all(item, names, values, out, acts) is Ok,
        untouched(names, value_paths(acts), k),
    ensures
        model_find(add_all(item, names, values, out, acts)->Ok_0, k) == model_find(out, k),
    decreases acts.len(),
{
    if acts.len() > 0 {
        assert(value_paths(acts)[0] == acts[0].0);
        let kh = top_name(names, acts[0].0)->Ok_0;
        assert(kh != k);
        let o = add_action(item, names, values, out, acts[0])->Ok_0;
        assert(model_find(o, k) == model_find(out, k)) by {
            assert(exists|v: Model| o == put_entry(out, kh, v));
            let v = choose|v: Model| o == put_entry(out, kh, v);
            lemma_put_entry_other(out, kh, v, k);
        }
        assert(untouched(names, value_paths(acts.drop_first()), k)) by {
            assert forall|i: int| 0 <= i < value_paths(acts.drop_first()).len() implies seg_key(
                names,
                (#[trigger] value_paths(acts.drop_first())[i]).0@[0],
            ) != Ok::<Seq<char>, ()>(k) by {
                assert(value_paths(acts.drop_first())[i] == value_paths(acts)[i + 1]);
            }
        }
        lemma_adds_frame(item, names, values, o, acts.drop_first(), k);
    }
}

proof fn lemma_deletes_frame(
    item: Item,
    names: AttrMap<String>,
    values: AttrMap<AttributeValue>,
    out: Seq<(Seq<char>, Model)>,
    acts: Seq<(Path, String)>,
    k: Seq<char>,
)
    requires
        delete_all(item, names, values, out, acts) is Ok,
        untouched(names, value_paths(acts), k),
    ensures
        model_find(delete_all(item, names, values, out, acts)->Ok_0, k) == model_find(out, k),
    decreases acts.len(),
{
    if acts.len() > 0 {
        assert(value_paths(acts)[0] == acts[0].0);
        let kh = top_name(names, acts[0].0)->Ok_0;
        assert(kh != k);
        let o = delete_action(item, names, values, out, acts[0])->Ok_0;
        assert(model_find(o, k) == model_find(out, k)) by {
            if o != out {
                if exists|v: Model| o == put_entry(out, kh, v) {
                    let v = choose|v: Model| o == put_entry(out, kh, v);
                    lemma_put_entry_other(out, kh, v, k);
                } else {
                    lemma_drop_entry_other(out, kh, k);
                }
            }
        }
        assert(untouched(names, value_paths(acts.drop_first()), k)) by {
            assert forall|i: int| 0 <= i < value_paths(acts.drop_first()).len() implies seg_key(
                names,
                (#[trigger] value_paths(acts.drop_first())[i]).0@[0],
            ) != Ok::<Seq<char>, ()>(k) by {
                assert(value_paths(acts.drop_first())[i] == value_paths(acts)[i + 1]);
            }
        }
        lemma_deletes_frame(item, names, values, o, acts.drop_first(), k);
    }
}

proof fn lemma_untouched(names: AttrMap<String>, ps: Seq<Path>, k: Seq<char>)
    requires
        heads(names, ps) is Ok,
        !heads(names, ps)->Ok_0.contains(k),
    ensures
        untouched(names, ps, k),
{
    let h = heads(names, ps)->Ok_0;
    assert forall|i: int| 0 <= i < ps.len() implies seg_key(names, (#[trigger] ps[i]).0@[0])
        != Ok::<Seq<char>, ()>(k) by {
        lemma_heads(names, ps, i);
        assert(h[i] != k) by {
            if h[i] == k {
                assert(h.contains(k));
            }
        }
    }
}

/// An update changes only the top-level attributes it names: an attribute
/// outside the touched roots keeps its value (or stays absent). Key
/// attributes are refused among the touched roots, so the key of an updated
/// item stays what it was.
pub proof fn lemma_update_frame(
    u: UpdateExpr,
    item: Item,
    names: AttrMap<String>,
    values: AttrMap<AttributeValue>,
    k: Seq<char>,
)
    requires
        apply_spec(u, item, names, values) is Ok,
        touched_spec(u, names) is Ok,
        !touched_spec(u, names)->Ok_0.contains(k),
    ensures
        model_find(apply_spec(u, item, names, values)->Ok_0, k) == model_find(
            entries_model(item.entries@),
            k,
        ),
{
    let a = heads(names, set_paths(u.sets@))->Ok_0;
    let b = heads(names, u.removes@)->Ok_0;
    let c = heads(names, value_paths(u.adds@))->Ok_0;
    let d = heads(names, value_paths(u.deletes@))->Ok_0;
    let all = touched_spec(u, names)->Ok_0;
    assert(all == a + b + c + d);
    assert(!a.contains(k)) by {
        if a.contains(k) {
            let i = choose|i: int| 0 <= i < a.len() && a[i] == k;
            assert(all[i] == k);
        }
    }
    assert(!b.contains(k)) by {
        if b.contains(k) {
            let i = choose|i: int| 0 <= i < b.len() && b[i] == k;
            assert(all[a.len() + i] == k);
        }
    }
    assert(!c.contains(k)) by {
        if c.contains(k) {
            let i = choose|i: int| 0 <= i < c.len() && c[i] == k;
            assert(all[a.len() + b.len() + i] == k);
        }
    }
    assert(!d.contains(k)) by {
        if d.contains(k) {
            let i = choose|i: int| 0 <= i < d.len() && d[i] == k;
            assert(all[a.len() + b.len() + c.len() + i] == k);
        }
    }
    lemma_untouched(names, set_paths(u.sets@), k);
    lemma_untouched(names, u.removes@, k);
    lemma_untouched(names, value_paths(u.adds@), k);
    lemma_untouched(names, value_paths(u.deletes@), k);
    let vals = crate::domain::expr::update::staged_values(u.sets@, item, names, values)->Ok_0;
    let o0 = entries_model(item.entries@);
    let o1 = apply_sets(names, o0, u.sets@, vals)->Ok_0;
    let o2 = remove_all(names, o1, u.removes@)->Ok_0;
    let o3 = add_all(item, names, values, o2, u.adds@)->Ok_0;
    lemma_sets_frame(names, o0, u.sets@, vals, k);
    lemma_removes_frame(names, o1, u.removes@, k);
    lemma_adds_frame(item, names, values, o2, u.adds@, k);
    lemma_deletes_frame(item, names, values, o3, u.deletes@, k);
}

} // verus!
