//! Attribute values: the DynamoDB type system (S, N, B, BOOL, NULL, M, L, SS, NS, BS).
use vstd::prelude::*;
use crate::domain::text::{lemma_utf8_ascii_prefix, lemma_utf8_injective, str_eq, utf8};
use crate::domain::byte_order::{
    compare_bytes, lemma_lex_order_antisym, lemma_lex_order_eq, lemma_lex_order_trans, lex_order,
};

verus! {

/// A decimal number of arbitrary precision, kept as its text.
#[derive(Debug, Clone, PartialEq, Eq)]
pub struct Number(pub String);

/// An association of string keys to values, kept in ascending key order.
/// Lookups take the first entry whose key matches.
#[derive(Debug, Clone, PartialEq, Eq)]
pub struct AttrMap<V> {
    pub entries: Vec<(String, V)>,
}

/// An attribute value.
///
/// Sets (SS / NS / BS) are kept sorted, without duplicates and non-empty when
/// built with `string_set` / `number_set` / `binary_set`.
#[derive(Debug, PartialEq, Eq)]
pub enum AttributeValue {
    S(String),
    N(Number),
    B(Vec<u8>),
    Bool(bool),
    Null,
    M(AttrMap<AttributeValue>),
    L(Vec<AttributeValue>),
    Ss(Vec<String>),
    Ns(Vec<Number>),
    Bs(Vec<Vec<u8>>),
}

/// An item: attribute names to values.
pub type Item = AttrMap<AttributeValue>;

/// The mathematical value of an attribute value.
pub enum Model {
    S(Seq<char>),
    N(Seq<char>),
    B(Seq<u8>),
    Bool(bool),
    Null,
    M(Seq<(Seq<char>, Model)>),
    L(Seq<Model>),
    Ss(Seq<Seq<char>>),
    Ns(Seq<Seq<char>>),
    Bs(Seq<Seq<u8>>),
}

/// The first value bound to `k` in an association list.
pub open spec fn assoc_find<V>(s: Seq<(String, V)>, k: Seq<char>) -> Option<V>
    decreases s.len(),
{
    if s.len() == 0 {
        None
    } else if s[0].0@ == k {
        Some(s[0].1)
    } else {
        assoc_find(s.drop_first(), k)
    }
}

/// The first model bound to `k` in a model association list.
pub open spec fn model_find(s: Seq<(Seq<char>, Model)>, k: Seq<char>) -> Option<Model>
    decreases s.len(),
{
    if s.len() == 0 {
        None
    } else if s[0].0 == k {
        Some(s[0].1)
    } else {
        model_find(s.drop_first(), k)
    }
}

pub open spec fn model_of(v: AttributeValue) -> Model
    decreases v,
{
    match v {
        AttributeValue::S(s) => Model::S(s@),
        AttributeValue::N(n) => Model::N(n.0@),
        AttributeValue::B(b) => Model::B(b@),
        AttributeValue::Bool(b) => Model::Bool(b),
        AttributeValue::Null => Model::Null,
        AttributeValue::M(m) => Model::M(entries_model(m.entries@)),
        AttributeValue::L(l) => Model::L(list_model(l@)),
        AttributeValue::Ss(v) => Model::Ss(strings_model(v@)),
        AttributeValue::Ns(v) => Model::Ns(numbers_model(v@)),
        AttributeValue::Bs(v) => Model::Bs(bytes_model(v@)),
    }
}

pub open spec fn list_model(s: Seq<AttributeValue>) -> Seq<Model>
    decreases s,
{
    if s.len() == 0 {
        Seq::empty()
    } else {
        list_model(s.drop_last()).push(model_of(s.last()))
    }
}

pub open spec fn entries_model(s: Seq<(String, AttributeValue)>) -> Seq<(Seq<char>, Model)>
    decreases s,
{
    if s.len() == 0 {
        Seq::empty()
    } else {
        entries_model(s.drop_last()).push((s.last().0@, model_of(s.last().1)))
    }
}

pub open spec fn strings_model(s: Seq<String>) -> Seq<Seq<char>> {
    Seq::new(s.len(), |i: int| s[i]@)
}

pub open spec fn numbers_model(s: Seq<Number>) -> Seq<Seq<char>> {
    Seq::new(s.len(), |i: int| s[i].0@)
}

pub open spec fn bytes_model(s: Seq<Vec<u8>>) -> Seq<Seq<u8>> {
    Seq::new(s.len(), |i: int| s[i]@)
}

/// Where key `k` belongs among keys sorted by their bytes: the first key not
/// below it.
pub open spec fn slot(keys: Seq<Seq<char>>, k: Seq<char>) -> int
    decreases keys.len(),
{
    if keys.len() == 0 {
        0
    } else if lex_order(utf8(keys[0]), utf8(k)) < 0 {
        1 + slot(keys.drop_first(), k)
    } else {
        0
    }
}

/// The keys of an association list.
pub open spec fn pair_keys<V>(s: Seq<(String, V)>) -> Seq<Seq<char>> {
    Seq::new(s.len(), |i: int| s[i].0@)
}

/// The keys of a map's model.
pub open spec fn model_keys(s: Seq<(Seq<char>, Model)>) -> Seq<Seq<char>> {
    Seq::new(s.len(), |i: int| s[i].0)
}

/// Binding `key` in a key-ordered association list: the entry of that key is
/// replaced, or a new one goes where the key belongs.
pub open spec fn put_pair<V>(s: Seq<(String, V)>, key: String, v: V) -> Seq<(String, V)> {
    let i = slot(pair_keys(s), key@);
    if i < s.len() && s[i].0@ == key@ {
        s.update(i, (key, v))
    } else {
        s.insert(i, (key, v))
    }
}

/// Unbinding `k` in a key-ordered association list.
pub open spec fn drop_pair<V>(s: Seq<(String, V)>, k: Seq<char>) -> Seq<(String, V)> {
    let i = slot(pair_keys(s), k);
    if i < s.len() && s[i].0@ == k {
        s.remove(i)
    } else {
        s
    }
}

/// `put_pair` on a map's model.
pub open spec fn put_entry(s: Seq<(Seq<char>, Model)>, k: Seq<char>, v: Model) -> Seq<
    (Seq<char>, Model),
> {
    let i = slot(model_keys(s), k);
    if i < s.len() && s[i].0 == k {
        s.update(i, (k, v))
    } else {
        s.insert(i, (k, v))
    }
}

/// `drop_pair` on a map's model.
pub open spec fn drop_entry(s: Seq<(Seq<char>, Model)>, k: Seq<char>) -> Seq<(Seq<char>, Model)> {
    let i = slot(model_keys(s), k);
    if i < s.len() && s[i].0 == k {
        s.remove(i)
    } else {
        s
    }
}

/// The slot is the first key not below `k`.
pub proof fn lemma_slot(keys: Seq<Seq<char>>, k: Seq<char>, i: int)
    requires
        0 <= i <= keys.len(),
        forall|j: int| 0 <= j < i ==> lex_order(utf8(#[trigger] keys[j]), utf8(k)) < 0,
        i < keys.len() ==> lex_order(utf8(keys[i]), utf8(k)) >= 0,
    ensures
        slot(keys, k) == i,
    decreases i,
{
    if i > 0 {
        let t = keys.drop_first();
        assert(lex_order(utf8(keys[0]), utf8(k)) < 0);
        assert forall|j: int| 0 <= j < i - 1 implies lex_order(utf8(#[trigger] t[j]), utf8(k)) < 0 by {
            assert(t[j] == keys[j + 1]);
        }
        if i - 1 < t.len() {
            assert(t[i - 1] == keys[i]);
        }
        lemma_slot(t, k, i - 1);
    }
}

impl View for AttributeValue {
    type V = Model;

    open spec fn view(&self) -> Model {
        model_of(*self)
    }
}

impl<V> AttrMap<V> {
    /// The value bound to `k`.
    pub open spec fn find(&self, k: Seq<char>) -> Option<V> {
        assoc_find(self.entries@, k)
    }

    /// An empty map.
    pub fn new() -> (m: Self)
        ensures
            m.entries@ == Seq::<(String, V)>::empty(),
    {
        AttrMap { entries: Vec::new() }
    }

    /// Number of entries.
    pub fn len(&self) -> (n: usize)
        ensures
            n == self.entries@.len(),
    {
        self.entries.len()
    }

    /// Whether there are no entries.
    pub fn is_empty(&self) -> (b: bool)
        ensures
            b == (self.entries@.len() == 0),
    {
        self.entries.len() == 0
    }

    /// The value bound to `key`.
    pub fn get(&self, key: &str) -> (r: Option<&V>)
        ensures
            match r {
                Some(v) => self.find(key@) == Some(*v),
                None => self.find(key@) is None,
            },
    {
        let mut i: usize = 0;
        assert(self.entries@.skip(0) =~= self.entries@);
        while i < self.entries.len()
            invariant
                i <= self.entries@.len(),
                self.find(key@) == assoc_find(self.entries@.skip(i as int), key@),
            decreases self.entries@.len() - i,
        {
            assert(self.entries@.skip(i as int).drop_first() =~= self.entries@.skip(i + 1));
            if str_eq(self.entries[i].0.as_str(), key) {
                return Some(&self.entries[i].1);
            }
            i = i + 1;
        }
        None
    }

    /// The value bound to the key made of the ASCII character `tag` followed
    /// by `name` (`:v`, `#n`).
    pub fn get_tagged(&self, tag: u8, name: &str) -> (r: Option<&V>)
        requires
            tag < 128,
        ensures
            match r {
                Some(v) => self.find(seq![tag as char] + name@) == Some(*v),
                None => self.find(seq![tag as char] + name@) is None,
            },
    {
        let ghost key = seq![tag as char] + name@;
        proof {
            lemma_utf8_ascii_prefix(tag, name@);
        }
        let nb = name.as_bytes();
        let mut i: usize = 0;
        assert(self.entries@.skip(0) =~= self.entries@);
        while i < self.entries.len()
            invariant
                i <= self.entries@.len(),
                nb@ == utf8(name@),
                key == seq![tag as char] + name@,
                utf8(key) == seq![tag] + nb@,
                self.find(key) == assoc_find(self.entries@.skip(i as int), key),
            decreases self.entries@.len() - i,
        {
            assert(self.entries@.skip(i as int).drop_first() =~= self.entries@.skip(i + 1));
            let kb = self.entries[i].0.as_str().as_bytes();
            let ghost want = seq![tag] + nb@;
            let mut same = kb.len() > 0 && kb.len() - 1 == nb.len() && kb[0] == tag;
            proof {
                if !same && kb@ == want {
                    assert(want[0] == tag);
                }
            }
            let mut k: usize = 0;
            while same && k < nb.len()
                invariant
                    same ==> kb@.len() == nb@.len() + 1 && kb@[0] == tag,
                    k <= nb@.len(),
                    same ==> forall|m: int| 0 <= m < k ==> kb@[m + 1] == nb@[m],
                    !same ==> kb@ != want,
                    want == seq![tag] + nb@,
                decreases nb@.len() - k,
            {
                if kb[k + 1] != nb[k] {
                    assert(want[k + 1] == nb@[k as int]);
                    same = false;
                }
                k = k + 1;
            }
            proof {
                let kc = self.entries@[i as int].0@;
                assert(kb@ == utf8(kc));
                if same {
                    assert(kb@ =~= want);
                }
                lemma_utf8_injective(kc, key);
                let rest = self.entries@.skip(i as int);
                assert(rest[0] == self.entries@[i as int]);
                if same {
                    assert(utf8(kc) == utf8(key));
                    assert(kc == key);
                    assert(assoc_find(rest, key) == Some(self.entries@[i as int].1));
                }
            }
            if same {
                return Some(&self.entries[i].1);
            }
            i = i + 1;
        }
        None
    }

    /// Whether `key` is bound.
    pub fn contains_key(&self, key: &str) -> (b: bool)
        ensures
            b == self.find(key@) is Some,
    {
        self.get(key).is_some()
    }
}

/// Inserting before every entry leaves the other keys' lookups unchanged.
pub proof fn lemma_find_insert<V>(s: Seq<(String, V)>, i: int, e: (String, V), k: Seq<char>)
    requires
        0 <= i <= s.len(),
        forall|j: int| 0 <= j < i ==> s[j].0@ != e.0@,
    ensures
        assoc_find(s.insert(i, e), k) == if k == e.0@ {
            Some(e.1)
        } else {
            assoc_find(s, k)
        },
    decreases i,
{
    if i == 0 {
        assert(s.insert(0, e).drop_first() =~= s);
    } else {
        assert(s.insert(i, e).drop_first() =~= s.drop_first().insert(i - 1, e));
        lemma_find_insert(s.drop_first(), i - 1, e, k);
    }
}

/// Updating the first match of a key replaces its binding.
pub proof fn lemma_find_update<V>(s: Seq<(String, V)>, i: int, e: (String, V), k: Seq<char>)
    requires
        0 <= i < s.len(),
        s[i].0@ == e.0@,
        forall|j: int| 0 <= j < i ==> s[j].0@ != e.0@,
    ensures
        assoc_find(s.update(i, e), k) == if k == e.0@ {
            Some(e.1)
        } else {
            assoc_find(s, k)
        },
    decreases i,
{
    if i > 0 {
        assert(s.update(i, e).drop_first() =~= s.drop_first().update(i - 1, e));
        lemma_find_update(s.drop_first(), i - 1, e, k);
    } else {
        assert(s.update(0, e).drop_first() =~= s.drop_first());
    }
}

/// Removing an entry whose key is not `k` leaves the lookup of `k` unchanged.
pub proof fn lemma_find_remove_other<V>(s: Seq<(String, V)>, i: int, k: Seq<char>)
    requires
        0 <= i < s.len(),
        s[i].0@ != k,
    ensures
        assoc_find(s.remove(i), k) == assoc_find(s, k),
    decreases i,
{
    if i > 0 {
        assert(s.remove(i).drop_first() =~= s.drop_first().remove(i - 1));
        lemma_find_remove_other(s.drop_first(), i - 1, k);
    } else {
        assert(s.remove(0) =~= s.drop_first());
    }
}

/// Lookup of a key that no entry of a prefix has starts after that prefix.
pub proof fn lemma_find_skip<V>(s: Seq<(String, V)>, i: int, k: Seq<char>)
    requires
        0 <= i <= s.len(),
        forall|j: int| 0 <= j < i ==> s[j].0@ != k,
    ensures
        assoc_find(s, k) == assoc_find(s.skip(i), k),
    decreases i,
{
    if i > 0 {
        assert(s.drop_first().skip(i - 1) =~= s.skip(i));
        lemma_find_skip(s.drop_first(), i - 1, k);
    } else {
        assert(s.skip(0) =~= s);
    }
}

/// No entry has the key: nothing is found.
pub proof fn lemma_find_none<V>(s: Seq<(String, V)>, k: Seq<char>)
    requires
        forall|j: int| 0 <= j < s.len() ==> s[j].0@ != k,
    ensures
        assoc_find(s, k) is None,
    decreases s.len(),
{
    if s.len() > 0 {
        lemma_find_none(s.drop_first(), k);
    }
}

impl<V> AttrMap<V> {
    /// Binds `key` to `value`, keeping the entries in ascending byte order of keys
    /// when they were so before.
    pub fn insert(&mut self, key: String, value: V)
        ensures
            final(self).entries@ == put_pair(old(self).entries@, key, value),
            forall|k: Seq<char>|
                #![trigger final(self).find(k)]
                final(self).find(k) == if k == key@ {
                    Some(value)
                } else {
                    old(self).find(k)
                },
    {
        let mut i: usize = 0;
        while i < self.entries.len()
            invariant
                i <= self.entries@.len(),
                self.entries@ == old(self).entries@,
                forall|j: int| 0 <= j < i ==> lex_order(utf8(self.entries@[j].0@), utf8(key@)) < 0,
            ensures
                i <= self.entries@.len(),
                self.entries@ == old(self).entries@,
                forall|j: int| 0 <= j < i ==> lex_order(utf8(self.entries@[j].0@), utf8(key@)) < 0,
                i < self.entries@.len() ==> lex_order(utf8(self.entries@[i as int].0@), utf8(key@))
                    >= 0,
            decreases self.entries@.len() - i,
        {
            let c = compare_bytes(self.entries[i].0.as_str().as_bytes(), key.as_str().as_bytes());
            if c >= 0 {
                break;
            }
            i = i + 1;
        }
        proof {
            assert forall|j: int| 0 <= j < i implies self.entries@[j].0@ != key@ by {
                crate::domain::byte_order::lemma_lex_order_eq(utf8(self.entries@[j].0@), utf8(key@));
            }
            let keys = pair_keys(self.entries@);
            if i < self.entries@.len() {
                crate::domain::byte_order::lemma_lex_order_antisym(
                    utf8(self.entries@[i as int].0@),
                    utf8(key@),
                );
            }
            lemma_slot(keys, key@, i as int);
        }
        if i < self.entries.len() && str_eq(self.entries[i].0.as_str(), key.as_str()) {
            let ghost e = (key, value);
            proof {
                assert forall|k: Seq<char>| #[trigger] assoc_find(self.entries@.update(i as int, e), k)
                    == if k == key@ { Some(value) } else { assoc_find(self.entries@, k) } by {
                    lemma_find_update(self.entries@, i as int, e, k);
                }
            }
            self.entries.set(i, (key, value));
        } else {
            let ghost e = (key, value);
            proof {
                assert forall|k: Seq<char>| #[trigger] assoc_find(self.entries@.insert(i as int, e), k)
                    == if k == key@ { Some(value) } else { assoc_find(self.entries@, k) } by {
                    lemma_find_insert(self.entries@, i as int, e, k);
                }
            }
            self.entries.insert(i, (key, value));
        }
    }

    /// Unbinds `key`.
    pub fn remove(&mut self, key: &str)
        ensures
            final(self).entries@ == drop_pair(old(self).entries@, key@),
    {
        let mut i: usize = 0;
        while i < self.entries.len()
            invariant
                i <= self.entries@.len(),
                self.entries@ == old(self).entries@,
                forall|j: int| 0 <= j < i ==> lex_order(utf8(self.entries@[j].0@), utf8(key@)) < 0,
            ensures
                i <= self.entries@.len(),
                self.entries@ == old(self).entries@,
                forall|j: int| 0 <= j < i ==> lex_order(utf8(self.entries@[j].0@), utf8(key@)) < 0,
                i < self.entries@.len() ==> lex_order(utf8(self.entries@[i as int].0@), utf8(key@))
                    >= 0,
            decreases self.entries@.len() - i,
        {
            let c = compare_bytes(self.entries[i].0.as_str().as_bytes(), key.as_bytes());
            if c >= 0 {
                break;
            }
            i = i + 1;
        }
        proof {
            if i < self.entries@.len() {
                crate::domain::byte_order::lemma_lex_order_antisym(
                    utf8(self.entries@[i as int].0@),
                    utf8(key@),
                );
            }
            lemma_slot(pair_keys(self.entries@), key@, i as int);
        }
        if i < self.entries.len() && str_eq(self.entries[i].0.as_str(), key) {
            self.entries.remove(i);
        }
    }
}

} // verus!

verus! {

/// `list_model` is taken element by element.
pub proof fn lemma_list_model(s: Seq<AttributeValue>)
    ensures
        list_model(s).len() == s.len(),
        forall|i: int| 0 <= i < s.len() ==> #[trigger] list_model(s)[i] == model_of(s[i]),
    decreases s.len(),
{
    if s.len() > 0 {
        lemma_list_model(s.drop_last());
    }
}

/// `entries_model` is taken entry by entry.
pub proof fn lemma_entries_model(s: Seq<(String, AttributeValue)>)
    ensures
        entries_model(s).len() == s.len(),
        forall|i: int|
            0 <= i < s.len() ==> #[trigger] entries_model(s)[i] == (s[i].0@, model_of(s[i].1)),
    decreases s.len(),
{
    if s.len() > 0 {
        lemma_entries_model(s.drop_last());
    }
}

/// Lookup commutes with taking models.
pub proof fn lemma_find_model(s: Seq<(String, AttributeValue)>, k: Seq<char>)
    ensures
        model_find(entries_model(s), k) == match assoc_find(s, k) {
            Some(v) => Some(model_of(v)),
            None => None,
        },
    decreases s.len(),
{
    lemma_entries_model(s);
    if s.len() > 0 {
        lemma_entries_model(s.drop_first());
        assert(entries_model(s).drop_first() =~= entries_model(s.drop_first()));
        lemma_find_model(s.drop_first(), k);
    }
}

/// Copies a string.
pub fn copy_string(s: &String) -> (r: String)
    ensures
        r@ == s@,
{
    s.clone()
}

/// Copies a byte string.
pub fn copy_bytes(b: &Vec<u8>) -> (r: Vec<u8>)
    ensures
        r@ == b@,
{
    let mut out: Vec<u8> = Vec::new();
    let mut i: usize = 0;
    while i < b.len()
        invariant
            i <= b@.len(),
            out@ == b@.take(i as int),
        decreases b@.len() - i,
    {
        out.push(b[i]);
        i = i + 1;
        assert(out@ =~= b@.take(i as int));
    }
    assert(b@.take(i as int) =~= b@);
    out
}

impl Number {
    /// Copies the number.
    pub fn copy(&self) -> (r: Number)
        ensures
            r.0@ == self.0@,
    {
        Number(copy_string(&self.0))
    }
}

impl AttributeValue {
    /// A deep copy of the value.
    #[verifier::loop_isolation(false)]
    pub fn duplicate(&self) -> (r: AttributeValue)
        ensures
            r@ == self@,
        decreases self,
    {
        match self {
            AttributeValue::S(s) => AttributeValue::S(copy_string(s)),
            AttributeValue::N(n) => AttributeValue::N(n.copy()),
            AttributeValue::B(b) => AttributeValue::B(copy_bytes(b)),
            AttributeValue::Bool(b) => AttributeValue::Bool(*b),
            AttributeValue::Null => AttributeValue::Null,
            AttributeValue::M(m) => AttributeValue::M(m.duplicate()),
            AttributeValue::L(l) => {
                let mut out: Vec<AttributeValue> = Vec::new();
                let mut i: usize = 0;
                while i < l.len()
                    invariant
                        i <= l@.len(),
                        list_model(out@) == list_model(l@.take(i as int)),
                    decreases l@.len() - i,
                {
                    proof {
                        vstd::std_specs::vec::axiom_vec_decreases_to_view(*l);
                        vstd::seq::axiom_seq_index_decreases(l@, i as int);
                        assert(decreases_to!(*self => l@[i as int]));
                    }
                    let c = l[i].duplicate();
                    let ghost prev = out@;
                    out.push(c);
                    proof {
                        assert(out@.drop_last() =~= prev);
                        assert(l@.take(i + 1).drop_last() =~= l@.take(i as int));
                    }
                    i = i + 1;
                }
                assert(l@.take(i as int) =~= l@);
                AttributeValue::L(out)
            },
            AttributeValue::Ss(v) => {
                let mut out: Vec<String> = Vec::new();
                let mut i: usize = 0;
                while i < v.len()
                    invariant
                        i <= v@.len(),
                        out@.len() == i,
                        forall|j: int| 0 <= j < i ==> #[trigger] out@[j]@ == v@[j]@,
                    decreases v@.len() - i,
                {
                    out.push(copy_string(&v[i]));
                    i = i + 1;
                }
                assert(strings_model(out@) =~= strings_model(v@));
                AttributeValue::Ss(out)
            },
            AttributeValue::Ns(v) => {
                let mut out: Vec<Number> = Vec::new();
                let mut i: usize = 0;
                while i < v.len()
                    invariant
                        i <= v@.len(),
                        out@.len() == i,
                        forall|j: int| 0 <= j < i ==> #[trigger] out@[j].0@ == v@[j].0@,
                    decreases v@.len() - i,
                {
                    out.push(v[i].copy());
                    i = i + 1;
                }
                assert(numbers_model(out@) =~= numbers_model(v@));
                AttributeValue::Ns(out)
            },
            AttributeValue::Bs(v) => {
                let mut out: Vec<Vec<u8>> = Vec::new();
                let mut i: usize = 0;
                while i < v.len()
                    invariant
                        i <= v@.len(),
                        out@.len() == i,
                        forall|j: int| 0 <= j < i ==> #[trigger] out@[j]@ == v@[j]@,
                    decreases v@.len() - i,
                {
                    out.push(copy_bytes(&v[i]));
                    i = i + 1;
                }
                assert(bytes_model(out@) =~= bytes_model(v@));
                AttributeValue::Bs(out)
            },
        }
    }
}

impl AttrMap<AttributeValue> {
    /// The entries' models.
    pub open spec fn model(&self) -> Seq<(Seq<char>, Model)> {
        entries_model(self.entries@)
    }

    /// A deep copy of the map.
    pub fn duplicate(&self) -> (r: Self)
        ensures
            r.model() == self.model(),
        decreases self,
    {
        let mut out: Vec<(String, AttributeValue)> = Vec::new();
        let mut i: usize = 0;
        while i < self.entries.len()
            invariant
                i <= self.entries@.len(),
                entries_model(out@) == entries_model(self.entries@.take(i as int)),
            decreases self.entries@.len() - i,
        {
            proof {
                vstd::std_specs::vec::axiom_vec_decreases_to_view(self.entries);
                vstd::seq::axiom_seq_index_decreases(self.entries@, i as int);
            }
            let k = copy_string(&self.entries[i].0);
            let v = self.entries[i].1.duplicate();
            let ghost prev = out@;
            out.push((k, v));
            proof {
                assert(out@.drop_last() =~= prev);
                assert(self.entries@.take(i + 1).drop_last() =~= self.entries@.take(i as int));
            }
            i = i + 1;
        }
        assert(self.entries@.take(i as int) =~= self.entries@);
        AttrMap { entries: out }
    }
}

/// The slot lies within the keys.
/// The keys of an association list ascend strictly by their bytes, so each
/// key occurs once.
pub open spec fn keys_sorted<V>(s: Seq<(String, V)>) -> bool {
    forall|i: int, j: int|
        #![trigger s[i], s[j]]
        0 <= i < j < s.len() ==> lex_order(utf8(s[i].0@), utf8(s[j].0@)) < 0
}

proof fn lemma_slot_sides(keys: Seq<Seq<char>>, k: Seq<char>)
    ensures
        0 <= slot(keys, k) <= keys.len(),
        forall|j: int| 0 <= j < slot(keys, k) ==> lex_order(utf8(#[trigger] keys[j]), utf8(k)) < 0,
        slot(keys, k) < keys.len() ==> lex_order(utf8(keys[slot(keys, k)]), utf8(k)) >= 0,
    decreases keys.len(),
{
    if keys.len() > 0 && lex_order(utf8(keys[0]), utf8(k)) < 0 {
        let t = keys.drop_first();
        lemma_slot_sides(t, k);
        assert forall|j: int| 0 <= j < slot(keys, k) implies lex_order(
            utf8(#[trigger] keys[j]),
            utf8(k),
        ) < 0 by {
            if j > 0 {
                assert(keys[j] == t[j - 1]);
            }
        }
        if slot(keys, k) < keys.len() {
            assert(keys[slot(keys, k)] == t[slot(t, k)]);
        }
    }
}

/// Binding a key keeps the keys of a map in strictly ascending byte order:
/// every map built by `insert` from an empty one holds each key once.
pub proof fn lemma_put_pair_sorted<V>(s: Seq<(String, V)>, key: String, v: V)
    requires
        keys_sorted(s),
    ensures
        keys_sorted(put_pair(s, key, v)),
{
    let keys = pair_keys(s);
    lemma_slot_sides(keys, key@);
    let i = slot(keys, key@);
    let t = put_pair(s, key, v);
    if i < s.len() && s[i].0@ == key@ {
        assert forall|a: int, b: int| 0 <= a < b < t.len() implies lex_order(
            utf8(t[a].0@),
            utf8(t[b].0@),
        ) < 0 by {
            assert(t[a].0@ == s[a].0@ && t[b].0@ == s[b].0@);
            assert(lex_order(utf8(s[a].0@), utf8(s[b].0@)) < 0);
        }
    } else {
        let u = utf8(key@);
        if i < s.len() {
            assert(keys[i] == s[i].0@);
            lemma_lex_order_eq(utf8(s[i].0@), u);
            lemma_utf8_injective(s[i].0@, key@);
            lemma_lex_order_antisym(utf8(s[i].0@), u);
        }
        assert forall|a: int, b: int| 0 <= a < b < t.len() implies lex_order(
            utf8(t[a].0@),
            utf8(t[b].0@),
        ) < 0 by {
            if b < i {
                assert(t[a] == s[a] && t[b] == s[b]);
                assert(lex_order(utf8(s[a].0@), utf8(s[b].0@)) < 0);
            } else if b == i {
                assert(t[a] == s[a] && t[b].0@ == key@);
                assert(keys[a] == s[a].0@);
            } else if a < i {
                assert(t[a] == s[a] && t[b] == s[b - 1]);
                assert(keys[a] == s[a].0@);
                if b - 1 > i {
                    assert(lex_order(utf8(s[i].0@), utf8(s[b - 1].0@)) < 0);
                    lemma_lex_order_trans(u, utf8(s[i].0@), utf8(s[b - 1].0@));
                }
                lemma_lex_order_trans(utf8(s[a].0@), u, utf8(s[b - 1].0@));
            } else if a == i {
                assert(t[a].0@ == key@ && t[b] == s[b - 1]);
                if b - 1 > i {
                    assert(lex_order(utf8(s[i].0@), utf8(s[b - 1].0@)) < 0);
                    lemma_lex_order_trans(u, utf8(s[i].0@), utf8(s[b - 1].0@));
                }
            } else {
                assert(t[a] == s[a - 1] && t[b] == s[b - 1]);
                assert(lex_order(utf8(s[a - 1].0@), utf8(s[b - 1].0@)) < 0);
            }
        }
    }
}

/// Unbinding a key keeps the keys of a map in strictly ascending byte order.
pub proof fn lemma_drop_pair_sorted<V>(s: Seq<(String, V)>, k: Seq<char>)
    requires
        keys_sorted(s),
    ensures
        keys_sorted(drop_pair(s, k)),
{
    let i = slot(pair_keys(s), k);
    lemma_slot_bounds(pair_keys(s), k);
    let t = drop_pair(s, k);
    if i < s.len() && s[i].0@ == k {
        assert forall|a: int, b: int| 0 <= a < b < t.len() implies lex_order(
            utf8(t[a].0@),
            utf8(t[b].0@),
        ) < 0 by {
            let a0 = if a < i { a } else { a + 1 };
            let b0 = if b < i { b } else { b + 1 };
            assert(t[a] == s[a0] && t[b] == s[b0]);
            assert(lex_order(utf8(s[a0].0@), utf8(s[b0].0@)) < 0);
        }
    }
}

pub proof fn lemma_slot_bounds(keys: Seq<Seq<char>>, k: Seq<char>)
    ensures
        0 <= slot(keys, k) <= keys.len(),
    decreases keys.len(),
{
    if keys.len() > 0 {
        lemma_slot_bounds(keys.drop_first(), k);
    }
}

/// The keys of an association list are those of its model.
pub proof fn lemma_keys_model(s: Seq<(String, AttributeValue)>)
    ensures
        pair_keys(s) == model_keys(entries_model(s)),
{
    lemma_entries_model(s);
    assert(pair_keys(s) =~= model_keys(entries_model(s)));
}

/// Binding a key commutes with taking models.
pub proof fn lemma_put_model(s: Seq<(String, AttributeValue)>, key: String, v: AttributeValue)
    ensures
        entries_model(put_pair(s, key, v)) == put_entry(entries_model(s), key@, model_of(v)),
{
    lemma_keys_model(s);
    lemma_entries_model(s);
    lemma_slot_bounds(pair_keys(s), key@);
    let r = put_pair(s, key, v);
    lemma_entries_model(r);
    let m = entries_model(s);
    let i = slot(pair_keys(s), key@);
    if i < s.len() && s[i].0@ == key@ {
        assert(entries_model(r) =~= m.update(i, (key@, model_of(v))));
    } else {
        assert(entries_model(r) =~= m.insert(i, (key@, model_of(v))));
    }
}

/// Unbinding a key commutes with taking models.
pub proof fn lemma_drop_model(s: Seq<(String, AttributeValue)>, k: Seq<char>)
    ensures
        entries_model(drop_pair(s, k)) == drop_entry(entries_model(s), k),
{
    lemma_keys_model(s);
    lemma_entries_model(s);
    lemma_slot_bounds(pair_keys(s), k);
    let r = drop_pair(s, k);
    lemma_entries_model(r);
    let m = entries_model(s);
    let i = slot(pair_keys(s), k);
    if i < s.len() && s[i].0@ == k {
        assert(entries_model(r) =~= m.remove(i));
    } else {
        assert(entries_model(r) =~= m);
    }
}

} // verus!
