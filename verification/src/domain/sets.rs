//! The set types SS / NS / BS: built sorted, without duplicates, never empty,
//! so that equal sets are equal values.
use vstd::prelude::*;
use crate::domain::attribute::{AttributeValue, Number, bytes_model, copy_bytes, copy_string, numbers_model, strings_model};
use crate::domain::byte_order::{compare_bytes, lemma_lex_order_antisym, lemma_lex_order_eq, lemma_lex_order_trans, lex_order};
use crate::domain::error::{DbError, validation};
use crate::domain::number::{
    Dec, canonicalize, dec_ok, dec_order, format_spec, lemma_dec_order_antisym, lemma_dec_order_eq,
    lemma_dec_order_trans, lemma_parse_ok, number_bytes, number_dec, number_order,
};
use crate::domain::text::{lemma_utf8_injective, utf8};
use crate::domain::expr::eval::num_of;

verus! {

/// Strictly ascending by UTF-8 bytes.
pub open spec fn sorted_text(v: Seq<Seq<char>>) -> bool {
    forall|i: int, j: int| 0 <= i < j < v.len() ==> lex_order(utf8(v[i]), utf8(v[j])) < 0
}

/// Strictly ascending by bytes.
pub open spec fn sorted_bytes(v: Seq<Seq<u8>>) -> bool {
    forall|i: int, j: int| 0 <= i < j < v.len() ==> lex_order(v[i], v[j]) < 0
}

/// The number's text is the canonical text of its value.
pub open spec fn canonical_number(n: Number) -> bool {
    number_dec(n) matches Some(d) && number_bytes(n) == format_spec(d.neg, d.digits, d.exp)
}

/// Canonical numbers strictly ascending by value.
pub open spec fn sorted_numbers(v: Seq<Number>) -> bool {
    &&& forall|k: int| 0 <= k < v.len() ==> canonical_number(#[trigger] v[k])
    &&& forall|i: int, j: int|
        0 <= i < j < v.len() ==> dec_order(number_dec(v[i])->0, number_dec(v[j])->0) < 0
}

/// Pushing an element adds it to the set of elements.
pub proof fn lemma_push_set<T>(t: Seq<T>, x: T)
    ensures
        t.push(x).to_set() == t.to_set().insert(x),
{
    assert forall|y: T| #[trigger] t.push(x).to_set().contains(y) <==> t.to_set().insert(x).contains(y) by {
        if t.push(x).contains(y) {
            let k = choose|k: int| 0 <= k < t.push(x).len() && t.push(x)[k] == y;
            if k < t.len() {
                assert(t[k] == y);
            }
        }
        if t.contains(y) {
            let k = choose|k: int| 0 <= k < t.len() && t[k] == y;
            assert(t.push(x)[k] == y);
        }
        if y == x {
            assert(t.push(x)[t.len() as int] == y);
        }
    }
    assert(t.push(x).to_set() =~= t.to_set().insert(x));
}

/// A sequence strictly ascending by `lt`.
pub open spec fn ascending<T>(s: Seq<T>, lt: spec_fn(T, T) -> bool) -> bool {
    forall|i: int, j: int| 0 <= i < j < s.len() ==> lt(s[i], s[j])
}

/// Two sequences strictly ascending by one strict order, holding the same
/// elements, are the same sequence.
pub proof fn lemma_ascending_unique<T>(a: Seq<T>, b: Seq<T>, lt: spec_fn(T, T) -> bool)
    requires
        forall|x: T, y: T, z: T| #[trigger] lt(x, y) && #[trigger] lt(y, z) ==> lt(x, z),
        forall|x: T| !#[trigger] lt(x, x),
        ascending(a, lt),
        ascending(b, lt),
        forall|x: T| a.contains(x) <==> b.contains(x),
    ensures
        a == b,
    decreases a.len(),
{
    if a.len() == 0 {
        if b.len() > 0 {
            assert(b.contains(b[0]));
        }
        assert(a =~= b);
    } else {
        assert(a.contains(a[0]));
        let j = choose|j: int| 0 <= j < b.len() && b[j] == a[0];
        assert(b.contains(b[0]));
        let i = choose|i: int| 0 <= i < a.len() && a[i] == b[0];
        if j > 0 {
            assert(lt(b[0], b[j]));
            if i > 0 {
                assert(lt(a[0], a[i]));
                assert(lt(a[0], a[0]));
            }
        }
        assert(a[0] == b[0]);
        let (ta, tb) = (a.drop_first(), b.drop_first());
        assert forall|x: T| ta.contains(x) <==> tb.contains(x) by {
            if ta.contains(x) {
                let k = choose|k: int| 0 <= k < ta.len() && ta[k] == x;
                assert(a[k + 1] == x);
                assert(lt(a[0], a[k + 1]));
                assert(b.contains(x));
                let m = choose|m: int| 0 <= m < b.len() && b[m] == x;
                if m == 0 {
                    assert(lt(x, x));
                }
                assert(tb[m - 1] == x);
            }
            if tb.contains(x) {
                let k = choose|k: int| 0 <= k < tb.len() && tb[k] == x;
                assert(b[k + 1] == x);
                assert(lt(b[0], b[k + 1]));
                assert(a.contains(x));
                let m = choose|m: int| 0 <= m < a.len() && a[m] == x;
                if m == 0 {
                    assert(lt(x, x));
                }
                assert(ta[m - 1] == x);
            }
        }
        assert forall|p: int, q: int| 0 <= p < q < ta.len() implies lt(ta[p], ta[q]) by {
            assert(lt(a[p + 1], a[q + 1]));
        }
        assert forall|p: int, q: int| 0 <= p < q < tb.len() implies lt(tb[p], tb[q]) by {
            assert(lt(b[p + 1], b[q + 1]));
        }
        lemma_ascending_unique(ta, tb, lt);
        assert(a =~= seq![a[0]] + ta);
        assert(b =~= seq![b[0]] + tb);
    }
}

/// The values of a list of numbers.
pub open spec fn values_of(v: Seq<Number>) -> Seq<Option<Dec>> {
    Seq::new(v.len(), |i: int| number_dec(v[i]))
}

/// The order of strings by their bytes.
pub open spec fn text_lt() -> spec_fn(Seq<char>, Seq<char>) -> bool {
    |x: Seq<char>, y: Seq<char>| lex_order(utf8(x), utf8(y)) < 0
}

/// The order of byte strings.
pub open spec fn bytes_lt() -> spec_fn(Seq<u8>, Seq<u8>) -> bool {
    |x: Seq<u8>, y: Seq<u8>| lex_order(x, y) < 0
}

/// The order of numeric values.
pub open spec fn value_lt() -> spec_fn(Option<Dec>, Option<Dec>) -> bool {
    |x: Option<Dec>, y: Option<Dec>| x is Some && y is Some && dec_order(x->0, y->0) < 0
}

/// The SS of some strings: the strings sorted by bytes, without duplicates.
pub open spec fn norm_text(src: Seq<Seq<char>>) -> Seq<Seq<char>> {
    choose|v: Seq<Seq<char>>|
        sorted_text(v) && forall|x: Seq<char>| v.contains(x) <==> src.contains(x)
}

/// The BS of some byte strings: sorted, without duplicates.
pub open spec fn norm_bytes(src: Seq<Seq<u8>>) -> Seq<Seq<u8>> {
    choose|v: Seq<Seq<u8>>| sorted_bytes(v) && forall|x: Seq<u8>| v.contains(x) <==> src.contains(x)
}

/// A text is the canonical text of the number it denotes.
pub open spec fn canonical_text(t: Seq<char>) -> bool {
    num_of(t) matches Some(d) && utf8(t) == format_spec(d.neg, d.digits, d.exp)
}

/// The values of number texts.
pub open spec fn num_values(v: Seq<Seq<char>>) -> Seq<Option<Dec>> {
    Seq::new(v.len(), |i: int| num_of(v[i]))
}

/// Canonical number texts strictly ascending by value.
pub open spec fn sorted_num_texts(v: Seq<Seq<char>>) -> bool {
    &&& forall|k: int| 0 <= k < v.len() ==> canonical_text(#[trigger] v[k])
    &&& ascending(num_values(v), value_lt())
}

/// The NS of some number texts: one canonical text per value, ascending.
pub open spec fn norm_numbers(src: Seq<Seq<char>>) -> Seq<Seq<char>> {
    choose|v: Seq<Seq<char>>|
        sorted_num_texts(v) && num_values(v).to_set() == num_values(src).to_set()
}

/// The SS of the strings is unique.
pub proof fn lemma_norm_text(v: Seq<Seq<char>>, src: Seq<Seq<char>>)
    requires
        sorted_text(v),
        forall|x: Seq<char>| v.contains(x) <==> src.contains(x),
    ensures
        v == norm_text(src),
{
    let w = norm_text(src);
    let lt = text_lt();
    assert forall|x: Seq<char>, y: Seq<char>, z: Seq<char>|
        #[trigger] lt(x, y) && #[trigger] lt(y, z) implies lt(x, z) by {
        lemma_lex_order_trans(utf8(x), utf8(y), utf8(z));
    }
    assert forall|x: Seq<char>| !#[trigger] lt(x, x) by {
        lemma_lex_order_eq(utf8(x), utf8(x));
    }
    lemma_ascending_unique(v, w, lt);
}

/// The BS of the byte strings is unique.
pub proof fn lemma_norm_bytes(v: Seq<Seq<u8>>, src: Seq<Seq<u8>>)
    requires
        sorted_bytes(v),
        forall|x: Seq<u8>| v.contains(x) <==> src.contains(x),
    ensures
        v == norm_bytes(src),
{
    let w = norm_bytes(src);
    let lt = bytes_lt();
    assert forall|x: Seq<u8>, y: Seq<u8>, z: Seq<u8>|
        #[trigger] lt(x, y) && #[trigger] lt(y, z) implies lt(x, z) by {
        lemma_lex_order_trans(x, y, z);
    }
    assert forall|x: Seq<u8>| !#[trigger] lt(x, x) by {
        lemma_lex_order_eq(x, x);
    }
    lemma_ascending_unique(v, w, lt);
}

/// The NS of the number texts is unique.
pub proof fn lemma_norm_numbers(v: Seq<Seq<char>>, src: Seq<Seq<char>>)
    requires
        sorted_num_texts(v),
        num_values(v).to_set() == num_values(src).to_set(),
    ensures
        v == norm_numbers(src),
{
    let w = norm_numbers(src);
    let lt = value_lt();
    assert forall|x: Option<Dec>, y: Option<Dec>, z: Option<Dec>|
        #[trigger] lt(x, y) && #[trigger] lt(y, z) implies lt(x, z) by {
        lemma_dec_order_trans(x->0, y->0, z->0);
    }
    assert forall|x: Option<Dec>| !#[trigger] lt(x, x) by {
        if x is Some {
            lemma_dec_order_antisym(x->0, x->0);
        }
    }
    let (a, b) = (num_values(v), num_values(w));
    assert forall|x: Option<Dec>| a.contains(x) <==> b.contains(x) by {
        assert(a.to_set().contains(x) == b.to_set().contains(x));
    }
    lemma_ascending_unique(a, b, lt);
    assert(v.len() == w.len());
    assert forall|k: int| 0 <= k < v.len() implies v[k] == w[k] by {
        assert(canonical_text(v[k]));
        assert(canonical_text(w[k]));
        assert(a[k] == b[k]);
        lemma_utf8_injective(v[k], w[k]);
    }
    assert(v =~= w);
}

/// The Number-level and text-level descriptions of number lists agree.
proof fn lemma_numbers_model(v: Seq<Number>)
    ensures
        num_values(numbers_model(v)) == values_of(v),
        sorted_numbers(v) ==> sorted_num_texts(numbers_model(v)),
{
    assert(num_values(numbers_model(v)) =~= values_of(v));
    if sorted_numbers(v) {
        let m = numbers_model(v);
        assert forall|k: int| 0 <= k < m.len() implies canonical_text(#[trigger] m[k]) by {
            assert(canonical_number(v[k]));
        }
        assert forall|i: int, j: int| 0 <= i < j < m.len() implies value_lt()(
            num_values(m)[i],
            num_values(m)[j],
        ) by {
            assert(canonical_number(v[i]));
            assert(canonical_number(v[j]));
        }
    }
}

/// Numeric order of two numbers known to be valid.
fn order_of_valid(a: &Number, b: &Number) -> (r: i8)
    requires
        number_dec(*a) is Some,
        number_dec(*b) is Some,
    ensures
        r == dec_order(number_dec(*a)->0, number_dec(*b)->0),
{
    match number_order(a, b) {
        Ok(c) => c,
        Err(_) => {
            proof {
                assert(false);
            }
            0
        },
    }
}

proof fn lemma_insert_sorted(m: Seq<Number>, p: int, e: Number)
    requires
        sorted_numbers(m),
        canonical_number(e),
        0 <= p <= m.len(),
        forall|k: int| 0 <= k < p ==> dec_order(number_dec(#[trigger] m[k])->0, number_dec(e)->0) < 0,
        p < m.len() ==> dec_order(number_dec(e)->0, number_dec(m[p])->0) < 0,
    ensures
        sorted_numbers(m.insert(p, e)),
{
    let m2 = m.insert(p, e);
    let de = number_dec(e)->0;
    assert forall|k: int| 0 <= k < m2.len() implies canonical_number(#[trigger] m2[k]) by {
        if k < p {
            assert(m2[k] == m[k]);
        } else if k > p {
            assert(m2[k] == m[k - 1]);
        }
    }
    assert forall|i: int, j: int| 0 <= i < j < m2.len() implies dec_order(
        number_dec(m2[i])->0,
        number_dec(m2[j])->0,
    ) < 0 by {
        if j < p {
            assert(m2[i] == m[i] && m2[j] == m[j]);
        } else if j == p {
            assert(m2[i] == m[i]);
        } else if i > p {
            assert(m2[i] == m[i - 1] && m2[j] == m[j - 1]);
        } else if i == p {
            assert(m2[j] == m[j - 1]);
            if j - 1 > p {
                lemma_dec_order_trans(de, number_dec(m[p])->0, number_dec(m[j - 1])->0);
            }
        } else {
            assert(m2[i] == m[i] && m2[j] == m[j - 1]);
        }
    }
}

proof fn lemma_insert_values(m: Seq<Number>, p: int, e: Number)
    requires
        0 <= p <= m.len(),
    ensures
        values_of(m.insert(p, e)).to_set() == values_of(m).to_set().insert(number_dec(e)),
{
    let vm = values_of(m);
    let vm2 = values_of(m.insert(p, e));
    assert(vm2 =~= vm.insert(p, number_dec(e)));
    assert forall|x: Option<Dec>| vm2.contains(x) <==> (vm.contains(x) || x == number_dec(e)) by {
        if vm2.contains(x) {
            let k = choose|k: int| 0 <= k < vm2.len() && vm2[k] == x;
            if k < p {
                assert(vm[k] == x);
            } else if k > p {
                assert(vm[k - 1] == x);
            }
        }
        if vm.contains(x) {
            let k = choose|k: int| 0 <= k < vm.len() && vm[k] == x;
            if k < p {
                assert(vm2[k] == x);
            } else {
                assert(vm2[k + 1] == x);
            }
        }
        if x == number_dec(e) {
            assert(vm2[p] == x);
        }
    }
    assert(vm2.to_set() =~= vm.to_set().insert(number_dec(e)));
}

fn insert_number(out: Vec<Number>, e: Number) -> (r: Vec<Number>)
    requires
        sorted_numbers(out@),
        canonical_number(e),
    ensures
        sorted_numbers(r@),
        values_of(r@).to_set() == values_of(out@).to_set().insert(number_dec(e)),
{
    let ghost m = out@;
    let ghost de = number_dec(e)->0;
    let mut v = out;
    let mut p: usize = 0;
    while p < v.len() && order_of_valid(&v[p], &e) < 0
        invariant
            m == v@,
            sorted_numbers(m),
            canonical_number(e),
            de == number_dec(e)->0,
            p <= v@.len(),
            forall|k: int| 0 <= k < p ==> dec_order(number_dec(#[trigger] m[k])->0, de) < 0,
        decreases v@.len() - p,
    {
        assert(canonical_number(m[p as int]));
        p = p + 1;
    }
    proof {
        lemma_parse_ok(number_bytes(e));
        if p < m.len() {
            assert(canonical_number(m[p as int]));
            lemma_parse_ok(number_bytes(m[p as int]));
            lemma_dec_order_antisym(number_dec(m[p as int])->0, de);
        }
    }
    if p < v.len() && order_of_valid(&v[p], &e) == 0 {
        proof {
            lemma_dec_order_eq(number_dec(m[p as int])->0, de);
            assert(values_of(m)[p as int] == number_dec(e));
            assert(values_of(m).contains(number_dec(e)));
            assert(values_of(m).to_set() =~= values_of(m).to_set().insert(number_dec(e)));
        }
        return v;
    }
    proof {
        lemma_insert_sorted(m, p as int, e);
        lemma_insert_values(m, p as int, e);
    }
    let ghost eg = e;
    v.insert(p, e);
    assert(v@ =~= m.insert(p as int, eg));
    v
}

fn insert_text(out: &mut Vec<String>, e: String)
    requires
        sorted_text(strings_model(old(out)@)),
    ensures
        sorted_text(strings_model(final(out)@)),
        forall|x: Seq<char>|
            strings_model(final(out)@).contains(x) <==> (strings_model(old(out)@).contains(x)
                || x == e@),
{
    let ghost m = strings_model(out@);
    let eb = e.as_str().as_bytes();
    let mut p: usize = 0;
    while p < out.len() && compare_bytes(out[p].as_str().as_bytes(), eb) < 0
        invariant
            m == strings_model(out@),
            eb@ == utf8(e@),
            p <= out@.len(),
            forall|k: int| 0 <= k < p ==> lex_order(utf8(#[trigger] m[k]), utf8(e@)) < 0,
        decreases out@.len() - p,
    {
        p = p + 1;
    }
    if p < out.len() && compare_bytes(out[p].as_str().as_bytes(), eb) == 0 {
        proof {
            lemma_lex_order_eq(utf8(m[p as int]), utf8(e@));
            lemma_utf8_injective(m[p as int], e@);
            assert(m.contains(e@));
        }
        return;
    }
    proof {
        if p < m.len() {
            lemma_lex_order_antisym(utf8(m[p as int]), utf8(e@));
        }
    }
    let ghost ev = e@;
    out.insert(p, e);
    proof {
        let m2 = strings_model(out@);
        assert(m2 =~= m.insert(p as int, ev));
        assert forall|i: int, j: int| 0 <= i < j < m2.len() implies lex_order(
            utf8(m2[i]),
            utf8(m2[j]),
        ) < 0 by {
            if j < p {
            } else if j == p {
            } else if i > p {
                assert(m2[i] == m[i - 1] && m2[j] == m[j - 1]);
            } else if i == p {
                assert(m2[j] == m[j - 1]);
                if j - 1 > p {
                    lemma_lex_order_trans(utf8(ev), utf8(m[p as int]), utf8(m[j - 1]));
                }
            } else {
                assert(m2[j] == m[j - 1]);
            }
        }
        assert forall|x: Seq<char>| m2.contains(x) <==> (m.contains(x) || x == ev) by {
            if m2.contains(x) {
                let k = choose|k: int| 0 <= k < m2.len() && m2[k] == x;
                if k < p {
                    assert(m[k] == x);
                } else if k > p {
                    assert(m[k - 1] == x);
                }
            }
            if m.contains(x) {
                let k = choose|k: int| 0 <= k < m.len() && m[k] == x;
                if k < p {
                    assert(m2[k] == x);
                } else {
                    assert(m2[k + 1] == x);
                }
            }
            if x == ev {
                assert(m2[p as int] == x);
            }
        }
    }
}

fn insert_bytes(out: &mut Vec<Vec<u8>>, e: Vec<u8>)
    requires
        sorted_bytes(bytes_model(old(out)@)),
    ensures
        sorted_bytes(bytes_model(final(out)@)),
        forall|x: Seq<u8>|
            bytes_model(final(out)@).contains(x) <==> (bytes_model(old(out)@).contains(x) || x
                == e@),
{
    let ghost m = bytes_model(out@);
    let mut p: usize = 0;
    while p < out.len() && compare_bytes(out[p].as_slice(), e.as_slice()) < 0
        invariant
            m == bytes_model(out@),
            p <= out@.len(),
            forall|k: int| 0 <= k < p ==> lex_order(#[trigger] m[k], e@) < 0,
        decreases out@.len() - p,
    {
        p = p + 1;
    }
    if p < out.len() && compare_bytes(out[p].as_slice(), e.as_slice()) == 0 {
        proof {
            lemma_lex_order_eq(m[p as int], e@);
            assert(m.contains(e@));
        }
        return;
    }
    proof {
        if p < m.len() {
            lemma_lex_order_antisym(m[p as int], e@);
        }
    }
    let ghost ev = e@;
    out.insert(p, e);
    proof {
        let m2 = bytes_model(out@);
        assert(m2 =~= m.insert(p as int, ev));
        assert forall|i: int, j: int| 0 <= i < j < m2.len() implies lex_order(m2[i], m2[j]) < 0 by {
            if j < p {
            } else if j == p {
            } else if i > p {
                assert(m2[i] == m[i - 1] && m2[j] == m[j - 1]);
            } else if i == p {
                assert(m2[j] == m[j - 1]);
                if j - 1 > p {
                    lemma_lex_order_trans(ev, m[p as int], m[j - 1]);
                }
            } else {
                assert(m2[j] == m[j - 1]);
            }
        }
        assert forall|x: Seq<u8>| m2.contains(x) <==> (m.contains(x) || x == ev) by {
            if m2.contains(x) {
                let k = choose|k: int| 0 <= k < m2.len() && m2[k] == x;
                if k < p {
                    assert(m[k] == x);
                } else if k > p {
                    assert(m[k - 1] == x);
                }
            }
            if m.contains(x) {
                let k = choose|k: int| 0 <= k < m.len() && m[k] == x;
                if k < p {
                    assert(m2[k] == x);
                } else {
                    assert(m2[k + 1] == x);
                }
            }
            if x == ev {
                assert(m2[p as int] == x);
            }
        }
    }
}

impl AttributeValue {
    /// An SS of the given strings, sorted by bytes and without duplicates;
    /// an error for no strings.
    pub fn string_set(elems: Vec<String>) -> (r: Result<AttributeValue, DbError>)
        ensures
            match r {
                Ok(v) => elems@.len() > 0 && (v matches AttributeValue::Ss(out) && sorted_text(
                    strings_model(out@),
                ) && (forall|x: Seq<char>|
                    strings_model(out@).contains(x) <==> strings_model(elems@).contains(x))
                    && strings_model(out@) == norm_text(strings_model(elems@))),
                Err(e) => elems@.len() == 0 && e is Validation,
            },
    {
        let mut out: Vec<String> = Vec::new();
        let ghost src = strings_model(elems@);
        let mut i: usize = 0;
        while i < elems.len()
            invariant
                src == strings_model(elems@),
                i <= elems@.len(),
                sorted_text(strings_model(out@)),
                forall|x: Seq<char>|
                    strings_model(out@).contains(x) <==> src.take(i as int).contains(x),
            decreases elems@.len() - i,
        {
            let ghost before = strings_model(out@);
            insert_text(&mut out, copy_string(&elems[i]));
            proof {
                assert(src.take(i + 1) =~= src.take(i as int).push(elems@[i as int]@));
                assert forall|x: Seq<char>|
                    strings_model(out@).contains(x) <==> src.take(i + 1).contains(x) by {
                    let t = src.take(i as int);
                    if t.push(elems@[i as int]@).contains(x) {
                        let k = choose|k: int| 0 <= k <= t.len() && t.push(elems@[i as int]@)[k] == x;
                        if k < t.len() {
                            assert(t[k] == x);
                        }
                    }
                    if t.contains(x) {
                        let k = choose|k: int| 0 <= k < t.len() && t[k] == x;
                        assert(t.push(elems@[i as int]@)[k] == x);
                    }
                    if x == elems@[i as int]@ {
                        assert(t.push(elems@[i as int]@)[t.len() as int] == x);
                    }
                }
            }
            i = i + 1;
        }
        assert(src.take(i as int) =~= src);
        assert forall|x: Seq<char>| strings_model(out@).contains(x) <==> src.contains(x) by {
            assert(strings_model(out@).contains(x) <==> src.take(i as int).contains(x));
        }
        if out.len() == 0 {
            proof {
                if elems@.len() > 0 {
                    assert(src.contains(src[0]));
                    assert(strings_model(out@).contains(src[0]));
                }
            }
            return Err(validation("sets (SS/NS/BS) cannot be empty"));
        }
        assert(strings_model(out@).contains(strings_model(out@)[0]));
        proof {
            lemma_norm_text(strings_model(out@), src);
        }
        Ok(AttributeValue::Ss(out))
    }

    /// A BS of the given byte strings, sorted and without duplicates; an
    /// error for no byte strings.
    pub fn binary_set(elems: Vec<Vec<u8>>) -> (r: Result<AttributeValue, DbError>)
        ensures
            match r {
                Ok(v) => elems@.len() > 0 && (v matches AttributeValue::Bs(out) && sorted_bytes(
                    bytes_model(out@),
                ) && (forall|x: Seq<u8>|
                    bytes_model(out@).contains(x) <==> bytes_model(elems@).contains(x))
                    && bytes_model(out@) == norm_bytes(bytes_model(elems@))),
                Err(e) => elems@.len() == 0 && e is Validation,
            },
    {
        let mut out: Vec<Vec<u8>> = Vec::new();
        let ghost src = bytes_model(elems@);
        let mut i: usize = 0;
        while i < elems.len()
            invariant
                src == bytes_model(elems@),
                i <= elems@.len(),
                sorted_bytes(bytes_model(out@)),
                forall|x: Seq<u8>| bytes_model(out@).contains(x) <==> src.take(i as int).contains(x),
            decreases elems@.len() - i,
        {
            insert_bytes(&mut out, copy_bytes(&elems[i]));
            proof {
                assert(src.take(i + 1) =~= src.take(i as int).push(elems@[i as int]@));
                assert forall|x: Seq<u8>|
                    bytes_model(out@).contains(x) <==> src.take(i + 1).contains(x) by {
                    let t = src.take(i as int);
                    if t.push(elems@[i as int]@).contains(x) {
                        let k = choose|k: int| 0 <= k <= t.len() && t.push(elems@[i as int]@)[k] == x;
                        if k < t.len() {
                            assert(t[k] == x);
                        }
                    }
                    if t.contains(x) {
                        let k = choose|k: int| 0 <= k < t.len() && t[k] == x;
                        assert(t.push(elems@[i as int]@)[k] == x);
                    }
                    if x == elems@[i as int]@ {
                        assert(t.push(elems@[i as int]@)[t.len() as int] == x);
                    }
                }
            }
            i = i + 1;
        }
        assert(src.take(i as int) =~= src);
        assert forall|x: Seq<u8>| bytes_model(out@).contains(x) <==> src.contains(x) by {
            assert(bytes_model(out@).contains(x) <==> src.take(i as int).contains(x));
        }
        if out.len() == 0 {
            proof {
                if elems@.len() > 0 {
                    assert(src.contains(src[0]));
                    assert(bytes_model(out@).contains(src[0]));
                }
            }
            return Err(validation("sets (SS/NS/BS) cannot be empty"));
        }
        assert(bytes_model(out@).contains(bytes_model(out@)[0]));
        proof {
            lemma_norm_bytes(bytes_model(out@), src);
        }
        Ok(AttributeValue::Bs(out))
    }

    /// An NS of the given numbers: each in its canonical text ("1.0" → "1"),
    /// one per numeric value, in ascending numeric order; an error for no
    /// numbers or for a text that is not a number.
    pub fn number_set(elems: Vec<Number>) -> (r: Result<AttributeValue, DbError>)
        ensures
            match r {
                Ok(v) => elems@.len() > 0 && (forall|k: int|
                    0 <= k < elems@.len() ==> number_dec(#[trigger] elems@[k]) is Some) && (
                v matches AttributeValue::Ns(out) && sorted_numbers(out@) && values_of(out@).to_set()
                    == values_of(elems@).to_set() && numbers_model(out@) == norm_numbers(
                    numbers_model(elems@),
                )),
                Err(e) => (elems@.len() == 0 || exists|k: int|
                    0 <= k < elems@.len() && number_dec(#[trigger] elems@[k]) is None)
                    && e is Validation,
            },
    {
        let mut out: Vec<Number> = Vec::new();
        let ghost src = values_of(elems@);
        let mut i: usize = 0;
        assert(values_of(out@).to_set() =~= src.take(0).to_set());
        while i < elems.len()
            invariant
                src == values_of(elems@),
                i <= elems@.len(),
                sorted_numbers(out@),
                forall|k: int| 0 <= k < i ==> number_dec(#[trigger] elems@[k]) is Some,
                values_of(out@).to_set() == src.take(i as int).to_set(),
            decreases elems@.len() - i,
        {
            let c = match canonicalize(&elems[i]) {
                Ok(c) => c,
                Err(e) => {
                    return Err(e);
                },
            };
            out = insert_number(out, c);
            proof {
                let t = src.take(i as int);
                assert(src.take(i + 1) =~= t.push(src[i as int]));
                assert(src[i as int] == number_dec(elems@[i as int]));
                lemma_push_set(t, src[i as int]);
            }
            i = i + 1;
        }
        assert(src.take(i as int) =~= src);
        if out.len() == 0 {
            proof {
                if elems@.len() > 0 {
                    assert(src.contains(src[0]));
                    assert(src.to_set().contains(src[0]));
                    assert(values_of(out@).to_set().contains(src[0]));
                }
            }
            return Err(validation("sets (SS/NS/BS) cannot be empty"));
        }
        proof {
            let v0 = values_of(out@)[0];
            assert(values_of(out@).contains(v0));
            assert(values_of(out@).to_set().contains(v0));
            assert(src.to_set().contains(v0));
            lemma_numbers_model(out@);
            lemma_numbers_model(elems@);
            lemma_norm_numbers(numbers_model(out@), numbers_model(elems@));
        }
        Ok(AttributeValue::Ns(out))
    }
}

} // verus!
