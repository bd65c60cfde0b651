//! Projections: the part of an item that a list of paths selects.
//!
//! - a path that is missing, or that crosses a value of another type, is
//!   left out (the result may be empty; that is no error);
//! - nested maps keep their structure; list elements picked by index come
//!   back compacted, in ascending index order;
//! - two paths that overlap (equal, or one a prefix of the other) are a
//!   validation error.
use vstd::prelude::*;
use crate::domain::attribute::{
    AttrMap, AttributeValue, Item, Model, copy_string, entries_model, lemma_find_model,
    lemma_list_model, lemma_put_model, list_model, model_find, model_of, put_entry,
};
use crate::domain::byte_order::{compare_bytes, lex_order};
use crate::domain::error::{DbError, validation};
use crate::domain::expr::ast::{Path, PathSeg};
use crate::domain::expr::eval::{ExprContext, seg_key, seg_name};
use crate::domain::text::{str_eq, utf8};

verus! {

/// A step of a selection: an attribute name or a list index.
pub enum Key {
    Name(Seq<char>),
    Index(nat),
}

/// A selection tree: take everything below, or take the listed children.
pub enum Sel {
    Leaf,
    Node(Seq<(Key, Sel)>),
}

/// The order of steps: names (by bytes) before indexes (by value).
pub open spec fn key_lt(a: Key, b: Key) -> bool {
    match (a, b) {
        (Key::Name(x), Key::Name(y)) => lex_order(utf8(x), utf8(y)) < 0,
        (Key::Name(_), Key::Index(_)) => true,
        (Key::Index(_), Key::Name(_)) => false,
        (Key::Index(i), Key::Index(j)) => i < j,
    }
}

/// Where a step belongs among ordered children: the first not below it.
pub open spec fn key_slot(ch: Seq<(Key, Sel)>, k: Key) -> int
    decreases ch.len(),
{
    if ch.len() == 0 {
        0
    } else if key_lt(ch[0].0, k) {
        1 + key_slot(ch.drop_first(), k)
    } else {
        0
    }
}

/// The step a path segment stands for.
pub open spec fn seg_step(names: AttrMap<String>, seg: PathSeg) -> Result<Key, ()> {
    match seg {
        PathSeg::Index(i) => Ok(Key::Index(i as nat)),
        _ => match seg_key(names, seg) {
            Ok(k) => Ok(Key::Name(k)),
            Err(()) => Err(()),
        },
    }
}

/// Adds a path to the children of a selection; an error where it overlaps a
/// path already there (equal, longer or shorter).
pub open spec fn sel_insert(names: AttrMap<String>, ch: Seq<(Key, Sel)>, segs: Seq<PathSeg>) -> Result<
    Seq<(Key, Sel)>,
    (),
>
    decreases segs.len(),
{
    if segs.len() == 0 {
        Err(())
    } else {
        match seg_step(names, segs[0]) {
            Err(()) => Err(()),
            Ok(k) => {
                let i = key_slot(ch, k);
                let present = i < ch.len() && ch[i].0 == k;
                if segs.len() == 1 {
                    if present {
                        Err(())
                    } else {
                        Ok(ch.insert(i, (k, Sel::Leaf)))
                    }
                } else if present {
                    match ch[i].1 {
                        Sel::Leaf => Err(()),
                        Sel::Node(sub) => match sel_insert(names, sub, segs.drop_first()) {
                            Ok(s2) => Ok(ch.update(i, (k, Sel::Node(s2)))),
                            Err(()) => Err(()),
                        },
                    }
                } else {
                    match sel_insert(names, Seq::empty(), segs.drop_first()) {
                        Ok(s2) => Ok(ch.insert(i, (k, Sel::Node(s2)))),
                        Err(()) => Err(()),
                    }
                }
            },
        }
    }
}

/// The selection of a list of paths, added in order.
pub open spec fn build(names: AttrMap<String>, paths: Seq<Path>) -> Result<Seq<(Key, Sel)>, ()>
    decreases paths.len(),
{
    if paths.len() == 0 {
        Ok(Seq::empty())
    } else {
        match build(names, paths.drop_last()) {
            Err(()) => Err(()),
            Ok(r) => sel_insert(names, r, paths.last().0@),
        }
    }
}

/// What a selection picks from a value; `None` where nothing matches.
pub open spec fn pick_spec(v: Model, node: Sel) -> Option<Model>
    decreases node,
{
    match node {
        Sel::Leaf => Some(v),
        Sel::Node(ch) => match v {
            Model::M(m) => {
                let out = pick_map(m, ch);
                if out.len() == 0 {
                    None
                } else {
                    Some(Model::M(out))
                }
            },
            Model::L(l) => {
                let out = pick_list(l, ch);
                if out.len() == 0 {
                    None
                } else {
                    Some(Model::L(out))
                }
            },
            _ => None,
        },
    }
}

/// The entries a selection's named children pick from a map.
pub open spec fn pick_map(m: Seq<(Seq<char>, Model)>, ch: Seq<(Key, Sel)>) -> Seq<(Seq<char>, Model)>
    decreases ch,
{
    if ch.len() == 0 {
        Seq::empty()
    } else {
        let acc = pick_map(m, ch.drop_last());
        match ch.last().0 {
            Key::Name(k) => match model_find(m, k) {
                Some(x) => match pick_spec(x, ch.last().1) {
                    Some(y) => put_entry(acc, k, y),
                    None => acc,
                },
                None => acc,
            },
            Key::Index(_) => acc,
        }
    }
}

/// The elements a selection's indexed children pick from a list, in the
/// children's (ascending) order.
pub open spec fn pick_list(l: Seq<Model>, ch: Seq<(Key, Sel)>) -> Seq<Model>
    decreases ch,
{
    if ch.len() == 0 {
        Seq::empty()
    } else {
        let acc = pick_list(l, ch.drop_last());
        match ch.last().0 {
            Key::Index(i) => if i < l.len() {
                match pick_spec(l[i as int], ch.last().1) {
                    Some(y) => acc.push(y),
                    None => acc,
                }
            } else {
                acc
            },
            Key::Name(_) => acc,
        }
    }
}

/// The projection of an item: an error where a path is empty, names an
/// unknown `#name`, starts with an index, or overlaps another path.
pub open spec fn project_spec(names: AttrMap<String>, item: Item, paths: Seq<Path>) -> Result<
    Seq<(Seq<char>, Model)>,
    (),
> {
    match build(names, paths) {
        Err(()) => Err(()),
        Ok(root) => if exists|j: int| 0 <= j < root.len() && (#[trigger] root[j]).0 is Index {
            Err(())
        } else {
            Ok(pick_map(entries_model(item.entries@), root))
        },
    }
}

/// A step of a selection being built.
enum SelKey {
    Name(String),
    Index(usize),
}

/// A selection tree being built; children ordered by `key_lt`.
enum SelNode {
    Leaf,
    Children(Vec<(SelKey, SelNode)>),
}

impl View for SelKey {
    type V = Key;

    closed spec fn view(&self) -> Key {
        match self {
            SelKey::Name(s) => Key::Name(s@),
            SelKey::Index(i) => Key::Index(*i as nat),
        }
    }
}

spec fn sel_of(n: SelNode) -> Sel
    decreases n,
{
    match n {
        SelNode::Leaf => Sel::Leaf,
        SelNode::Children(v) => Sel::Node(children_of(v@)),
    }
}

spec fn children_of(s: Seq<(SelKey, SelNode)>) -> Seq<(Key, Sel)>
    decreases s,
{
    if s.len() == 0 {
        Seq::empty()
    } else {
        children_of(s.drop_last()).push((s.last().0@, sel_of(s.last().1)))
    }
}

proof fn lemma_children_of(s: Seq<(SelKey, SelNode)>)
    ensures
        children_of(s).len() == s.len(),
        forall|i: int| 0 <= i < s.len() ==> #[trigger] children_of(s)[i] == (s[i].0@, sel_of(s[i].1)),
    decreases s.len(),
{
    if s.len() > 0 {
        lemma_children_of(s.drop_last());
    }
}

proof fn lemma_key_slot(ch: Seq<(Key, Sel)>, k: Key, p: int)
    requires
        0 <= p <= ch.len(),
        forall|j: int| 0 <= j < p ==> key_lt(#[trigger] ch[j].0, k),
        p < ch.len() ==> !key_lt(ch[p].0, k),
    ensures
        key_slot(ch, k) == p,
    decreases p,
{
    if p > 0 {
        let t = ch.drop_first();
        assert(key_lt(ch[0].0, k));
        assert forall|j: int| 0 <= j < p - 1 implies key_lt(#[trigger] t[j].0, k) by {
            assert(t[j] == ch[j + 1]);
        }
        if p - 1 < t.len() {
            assert(t[p - 1] == ch[p]);
        }
        lemma_key_slot(t, k, p - 1);
    }
}

fn key_less(a: &SelKey, b: &SelKey) -> (r: bool)
    ensures
        r == key_lt(a@, b@),
{
    match (a, b) {
        (SelKey::Name(x), SelKey::Name(y)) => compare_bytes(x.as_str().as_bytes(), y.as_str().as_bytes())
            < 0,
        (SelKey::Name(_), SelKey::Index(_)) => true,
        (SelKey::Index(_), SelKey::Name(_)) => false,
        (SelKey::Index(i), SelKey::Index(j)) => *i < *j,
    }
}

fn key_same(a: &SelKey, b: &SelKey) -> (r: bool)
    ensures
        r == (a@ == b@),
{
    match (a, b) {
        (SelKey::Name(x), SelKey::Name(y)) => str_eq(x.as_str(), y.as_str()),
        (SelKey::Index(i), SelKey::Index(j)) => *i == *j,
        _ => false,
    }
}

fn overlap() -> (e: DbError)
    ensures
        e matches DbError::Validation(s) && s@ == "projection paths overlap or are duplicated"@,
{
    validation("projection paths overlap or are duplicated")
}

/// Adds `segs[from..]` below the children, as `sel_insert` says.
fn insert_path(children: Vec<(SelKey, SelNode)>, segs: &Vec<PathSeg>, from: usize, ctx: &ExprContext) -> (r: Result<
    Vec<(SelKey, SelNode)>,
    DbError,
>)
    requires
        from < segs@.len(),
    ensures
        match r {
            Ok(v) => sel_insert(*ctx.names, children_of(children@), segs@.skip(from as int)) == Ok::<
                Seq<(Key, Sel)>,
                (),
            >(children_of(v@)),
            Err(e) => sel_insert(*ctx.names, children_of(children@), segs@.skip(from as int)) is Err
                && e is Validation,
        },
    decreases segs@.len() - from,
{
    let ghost rest = segs@.skip(from as int);
    assert(rest[0] == segs@[from as int]);
    assert(rest.drop_first() =~= segs@.skip(from + 1));
    let key = match &segs[from] {
        PathSeg::Index(i) => SelKey::Index(*i),
        seg => SelKey::Name(seg_name(seg, ctx)?),
    };
    let mut ch = children;
    let ghost c0 = children_of(ch@);
    proof {
        lemma_children_of(ch@);
    }
    let mut p: usize = 0;
    while p < ch.len() && key_less(&ch[p].0, &key)
        invariant
            c0 == children_of(ch@),
            c0.len() == ch@.len(),
            forall|i: int| 0 <= i < ch@.len() ==> #[trigger] c0[i] == (ch@[i].0@, sel_of(ch@[i].1)),
            p <= ch@.len(),
            forall|j: int| 0 <= j < p ==> key_lt(#[trigger] c0[j].0, key@),
        decreases ch@.len() - p,
    {
        p = p + 1;
    }
    proof {
        lemma_key_slot(c0, key@, p as int);
    }
    let present = p < ch.len() && key_same(&ch[p].0, &key);
    let ghost gk = key;
    if from == segs.len() - 1 {
        if present {
            return Err(overlap());
        }
        ch.insert(p, (key, SelNode::Leaf));
        proof {
            lemma_children_of(ch@);
            assert(children_of(ch@) =~= c0.insert(p as int, (gk@, Sel::Leaf)));
        }
        return Ok(ch);
    }
    if present {
        let (k, node) = ch.remove(p);
        match node {
            SelNode::Leaf => Err(overlap()),
            SelNode::Children(sub) => {
                proof {
                    lemma_children_of(sub@);
                }
                let sub2 = insert_path(sub, segs, from + 1, ctx)?;
                let ghost gs = sub2;
                ch.insert(p, (k, SelNode::Children(sub2)));
                proof {
                    lemma_children_of(ch@);
                    assert(children_of(ch@) =~= c0.update(p as int, (gk@, Sel::Node(children_of(gs@)))));
                }
                Ok(ch)
            },
        }
    } else {
        let empty: Vec<(SelKey, SelNode)> = Vec::new();
        assert(children_of(empty@) =~= Seq::<(Key, Sel)>::empty());
        let sub2 = insert_path(empty, segs, from + 1, ctx)?;
        let ghost gs = sub2;
        ch.insert(p, (key, SelNode::Children(sub2)));
        proof {
            lemma_children_of(ch@);
            assert(children_of(ch@) =~= c0.insert(p as int, (gk@, Sel::Node(children_of(gs@)))));
        }
        Ok(ch)
    }
}

/// What a selection picks from a value, as `pick_spec` says.
fn pick(v: &AttributeValue, node: &SelNode) -> (r: Option<AttributeValue>)
    ensures
        match r {
            Some(x) => pick_spec(v@, sel_of(*node)) == Some(x@),
            None => pick_spec(v@, sel_of(*node)) is None,
        },
    decreases node,
{
    let ch = match node {
        SelNode::Leaf => {
            return Some(v.duplicate());
        },
        SelNode::Children(ch) => ch,
    };
    let ghost cm = children_of(ch@);
    proof {
        lemma_children_of(ch@);
    }
    match v {
        AttributeValue::M(map) => {
            let mut out: Item = AttrMap::new();
            let mut idx: usize = 0;
            assert(cm.take(0) =~= Seq::<(Key, Sel)>::empty());
            assert(entries_model(out.entries@) =~= Seq::<(Seq<char>, Model)>::empty());
            while idx < ch.len()
                invariant
                    *node == SelNode::Children(*ch),
                    cm == children_of(ch@),
                    cm.len() == ch@.len(),
                    forall|i: int| 0 <= i < ch@.len() ==> #[trigger] cm[i] == (ch@[i].0@, sel_of(ch@[i].1)),
                    idx <= ch@.len(),
                    entries_model(out.entries@) == pick_map(entries_model(map.entries@), cm.take(idx as int)),
                decreases ch@.len() - idx,
            {
                assert(cm.take(idx + 1).drop_last() =~= cm.take(idx as int));
                assert(cm.take(idx + 1).last() == cm[idx as int]);
                proof {
                    assert(decreases_to!(*node => node->0));
                    assert(node->0 == *ch);
                    vstd::std_specs::vec::axiom_vec_decreases_to_view(*ch);
                    vstd::seq::axiom_seq_index_decreases(ch@, idx as int);
                    assert(decreases_to!(ch@[idx as int] => ch@[idx as int].1));
                    assert(decreases_to!(*node => ch@[idx as int].1));
                }
                match &ch[idx].0 {
                    SelKey::Name(k) => {
                        proof {
                            lemma_find_model(map.entries@, k@);
                        }
                        match map.get(k.as_str()) {
                            Some(inner) => match pick(inner, &ch[idx].1) {
                                Some(x) => {
                                    let ghost m0 = out.entries@;
                                    let kc = copy_string(k);
                                    let ghost (gk, gx) = (kc, x);
                                    out.insert(kc, x);
                                    proof {
                                        lemma_put_model(m0, gk, gx);
                                    }
                                },
                                None => {},
                            },
                            None => {},
                        }
                    },
                    SelKey::Index(_) => {},
                }
                idx = idx + 1;
            }
            assert(cm.take(idx as int) =~= cm);
            if out.len() == 0 {
                None
            } else {
                Some(AttributeValue::M(out))
            }
        },
        AttributeValue::L(list) => {
            let ghost lm = list_model(list@);
            proof {
                lemma_list_model(list@);
            }
            let mut out: Vec<AttributeValue> = Vec::new();
            let mut idx: usize = 0;
            assert(cm.take(0) =~= Seq::<(Key, Sel)>::empty());
            assert(list_model(out@) =~= Seq::<Model>::empty());
            while idx < ch.len()
                invariant
                    *node == SelNode::Children(*ch),
                    cm == children_of(ch@),
                    cm.len() == ch@.len(),
                    forall|i: int| 0 <= i < ch@.len() ==> #[trigger] cm[i] == (ch@[i].0@, sel_of(ch@[i].1)),
                    lm == list_model(list@),
                    lm.len() == list@.len(),
                    forall|i: int| 0 <= i < list@.len() ==> #[trigger] lm[i] == model_of(list@[i]),
                    idx <= ch@.len(),
                    list_model(out@) == pick_list(lm, cm.take(idx as int)),
                decreases ch@.len() - idx,
            {
                assert(cm.take(idx + 1).drop_last() =~= cm.take(idx as int));
                assert(cm.take(idx + 1).last() == cm[idx as int]);
                proof {
                    assert(decreases_to!(*node => node->0));
                    assert(node->0 == *ch);
                    vstd::std_specs::vec::axiom_vec_decreases_to_view(*ch);
                    vstd::seq::axiom_seq_index_decreases(ch@, idx as int);
                    assert(decreases_to!(ch@[idx as int] => ch@[idx as int].1));
                    assert(decreases_to!(*node => ch@[idx as int].1));
                }
                match &ch[idx].0 {
                    SelKey::Index(i) => {
                        if *i < list.len() {
                            match pick(&list[*i], &ch[idx].1) {
                                Some(x) => {
                                    let ghost before = out@;
                                    out.push(x);
                                    assert(out@.drop_last() =~= before);
                                },
                                None => {},
                            }
                        }
                    },
                    SelKey::Name(_) => {},
                }
                idx = idx + 1;
            }
            assert(cm.take(idx as int) =~= cm);
            proof {
                lemma_list_model(out@);
            }
            if out.len() == 0 {
                None
            } else {
                Some(AttributeValue::L(out))
            }
        },
        _ => None,
    }
}

/// The part of an item the paths select, as `project_spec` says.
pub fn project(paths: &[Path], item: &Item, ctx: &ExprContext) -> (r: Result<Item, DbError>)
    ensures
        match r {
            Ok(o) => project_spec(*ctx.names, *item, paths@) == Ok::<Seq<(Seq<char>, Model)>, ()>(
                entries_model(o.entries@),
            ),
            Err(e) => project_spec(*ctx.names, *item, paths@) is Err && e is Validation,
        },
{
    let ghost names = *ctx.names;
    let mut root: Vec<(SelKey, SelNode)> = Vec::new();
    let mut i: usize = 0;
    assert(paths@.take(0) =~= Seq::<Path>::empty());
    assert(children_of(root@) =~= Seq::<(Key, Sel)>::empty());
    while i < paths.len()
        invariant
            names == *ctx.names,
            i <= paths@.len(),
            build(names, paths@.take(i as int)) == Ok::<Seq<(Key, Sel)>, ()>(children_of(root@)),
        decreases paths@.len() - i,
    {
        assert(paths@.take(i + 1).drop_last() =~= paths@.take(i as int));
        assert(paths@.take(i + 1).last() == paths@[i as int]);
        if paths[i].0.len() == 0 {
            proof {
                lemma_build_err(names, paths@, i + 1);
            }
            return Err(overlap());
        }
        assert(paths@[i as int].0@.skip(0) =~= paths@[i as int].0@);
        root = match insert_path(root, &paths[i].0, 0, ctx) {
            Ok(r) => r,
            Err(e) => {
                proof {
                    lemma_build_err(names, paths@, i + 1);
                }
                return Err(e);
            },
        };
        i = i + 1;
    }
    assert(paths@.take(i as int) =~= paths@);
    let ghost rm = children_of(root@);
    proof {
        lemma_children_of(root@);
    }
    let mut out: Item = AttrMap::new();
    let mut j: usize = 0;
    assert(rm.take(0) =~= Seq::<(Key, Sel)>::empty());
    assert(entries_model(out.entries@) =~= Seq::<(Seq<char>, Model)>::empty());
    while j < root.len()
        invariant
            names == *ctx.names,
            build(names, paths@) == Ok::<Seq<(Key, Sel)>, ()>(rm),
            rm == children_of(root@),
            rm.len() == root@.len(),
            forall|k: int| 0 <= k < root@.len() ==> #[trigger] rm[k] == (root@[k].0@, sel_of(root@[k].1)),
            j <= root@.len(),
            forall|k: int| 0 <= k < j ==> !((#[trigger] rm[k]).0 is Index),
            entries_model(out.entries@) == pick_map(entries_model(item.entries@), rm.take(j as int)),
        decreases root@.len() - j,
    {
        assert(rm.take(j + 1).drop_last() =~= rm.take(j as int));
        assert(rm.take(j + 1).last() == rm[j as int]);
        match &root[j].0 {
            SelKey::Index(_) => {
                assert(rm[j as int].0 is Index);
                return Err(validation("attribute path cannot start with a list index"));
            },
            SelKey::Name(name) => {
                proof {
                    lemma_find_model(item.entries@, name@);
                }
                match item.get(name.as_str()) {
                    Some(v) => match pick(v, &root[j].1) {
                        Some(x) => {
                            let ghost m0 = out.entries@;
                            let kc = copy_string(name);
                            let ghost (gk, gx) = (kc, x);
                            out.insert(kc, x);
                            proof {
                                lemma_put_model(m0, gk, gx);
                            }
                        },
                        None => {},
                    },
                    None => {},
                }
            },
        }
        j = j + 1;
    }
    assert(rm.take(j as int) =~= rm);
    Ok(out)
}

proof fn lemma_build_err(names: AttrMap<String>, paths: Seq<Path>, j: int)
    requires
        0 <= j <= paths.len(),
        build(names, paths.take(j)) is Err,
    ensures
        build(names, paths) is Err,
    decreases paths.len() - j,
{
    if j < paths.len() {
        assert(paths.take(j + 1).drop_last() =~= paths.take(j));
        lemma_build_err(names, paths, j + 1);
    } else {
        assert(paths.take(j) =~= paths);
    }
}

} // verus!
