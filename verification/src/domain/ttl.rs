//! Expiry of items by their TTL attribute.
use vstd::prelude::*;
use crate::domain::attribute::{AttributeValue, Item, Number};
use crate::domain::expr::eval::num_of;
use crate::domain::arith::{
    digits_of, lemma_digits_of, lemma_pow10_pos, lemma_value_bound, lemma_value_concat,
    lemma_value_order, lemma_value_single,
};
use crate::domain::byte_order::{
    lemma_lex_order_antisym, lemma_lex_order_common_prefix, lemma_lex_order_eq, lex_order,
};
use crate::domain::number::{
    Dec, dec_order, digit_text, exp_mark_pos, is_digit, leading_zeros, lemma_dec_order_eq,
    lemma_dec_order_trans, lemma_digit_text, mant_ok, number_order, parse_spec, pow10, sign_len,
    trailing_zeros,
};
use crate::domain::table::TableDef;
use crate::domain::text::{
    i64_text, int_chars, lemma_nat_bytes, lemma_utf8_ascii_prefix, nat_bytes, nat_chars, utf8,
};

verus! {

/// An item has expired when its table names a TTL attribute and the item's
/// value there is an N (epoch seconds) not above `now`. A missing attribute,
/// another type or a text that is not a number never expires.
pub open spec fn expired_spec(def: TableDef, item: Item, now: int) -> bool {
    match def.ttl_attr {
        None => false,
        Some(attr) => match item.find(attr@) {
            Some(AttributeValue::N(t)) => match (num_of(t.0@), num_of(int_chars(now))) {
                (Some(a), Some(b)) => dec_order(a, b) <= 0,
                _ => false,
            },
            _ => false,
        },
    }
}

/// Whether the item has expired at `now_epoch`, as `expired_spec` says.
pub fn is_expired(def: &TableDef, item: &Item, now_epoch: i64) -> (r: bool)
    ensures
        r == expired_spec(*def, *item, now_epoch as int),
{
    let attr = match &def.ttl_attr {
        Some(a) => a,
        None => {
            return false;
        },
    };
    let ttl = match item.get(attr.as_str()) {
        Some(AttributeValue::N(t)) => t,
        _ => {
            return false;
        },
    };
    let now = Number(i64_text(now_epoch));
    match number_order(ttl, &now) {
        Ok(c) => c <= 0,
        Err(_) => false,
    }
}

/// The digits of a whole number with its trailing zeros taken off.
pub open spec fn strip_zeros(d: Seq<u8>) -> Seq<u8> {
    d.take(d.len() - trailing_zeros(d))
}

/// The decimal an integer's text stands for.
pub open spec fn int_dec(n: int) -> Dec {
    if n == 0 {
        Dec { neg: false, digits: Seq::empty(), exp: 0 }
    } else {
        let m: nat = if n < 0 {
            (-n) as nat
        } else {
            n as nat
        };
        Dec { neg: n < 0, digits: strip_zeros(digits_of(m)), exp: digits_of(m).len() as int }
    }
}

proof fn lemma_pow10_mono(a: nat, b: nat)
    requires
        a <= b,
    ensures
        pow10(a) <= pow10(b),
    decreases b,
{
    if a < b {
        lemma_pow10_mono(a, (b - 1) as nat);
        lemma_pow10_pos((b - 1) as nat);
    }
}

/// A positive number lies between the powers of ten around its digit count.
proof fn lemma_digits_len(n: nat)
    requires
        n > 0,
    ensures
        digits_of(n).len() >= 1,
        pow10((digits_of(n).len() - 1) as nat) <= n < pow10(digits_of(n).len()),
{
    lemma_digits_of(n);
    let d = digits_of(n);
    lemma_value_bound(d);
    assert(seq![d[0]] + d.drop_first() =~= d);
    lemma_value_concat(seq![d[0]], d.drop_first());
    lemma_value_single(d[0]);
    lemma_value_bound(d.drop_first());
    let p = pow10(d.drop_first().len());
    lemma_pow10_pos(d.drop_first().len());
    assert(d[0] * p >= p) by (nonlinear_arith)
        requires
            d[0] >= 1,
            p >= 1,
    ;
}

/// A number up to 2^63 has at most nineteen digits.
proof fn lemma_digits_len_i64(n: nat)
    requires
        0 < n <= 0x8000_0000_0000_0000,
    ensures
        digits_of(n).len() <= 19,
{
    lemma_digits_len(n);
    if digits_of(n).len() > 19 {
        lemma_pow10_mono(19, (digits_of(n).len() - 1) as nat);
        assert(pow10(19) == 10_000_000_000_000_000_000) by {
            reveal_with_fuel(pow10, 20);
        }
    }
}

/// The text of a whole number is the text of its digits.
proof fn lemma_nat_bytes_digits(n: nat)
    ensures
        nat_bytes(n) == digit_text(if n == 0 {
            seq![0u8]
        } else {
            digits_of(n)
        }),
    decreases n,
{
    if n == 0 {
        assert(nat_bytes(0) =~= digit_text(seq![0u8]));
    } else if n < 10 {
        assert(digits_of(n / 10) =~= Seq::<u8>::empty());
        assert(digits_of(n) =~= seq![n as u8]);
        assert(nat_bytes(n) =~= digit_text(seq![n as u8]));
    } else {
        lemma_nat_bytes_digits(n / 10);
        assert(nat_bytes(n) =~= digit_text(digits_of(n)));
    }
}

/// Digits carry no exponent mark.
proof fn lemma_no_exp_mark(b: Seq<u8>, i: int)
    requires
        0 <= i <= b.len(),
        forall|k: int| i <= k < b.len() ==> is_digit(b[k]),
    ensures
        exp_mark_pos(b, i) == b.len(),
    decreases b.len() - i,
{
    if i < b.len() {
        lemma_no_exp_mark(b, i + 1);
    }
}

/// Reading the digits of a whole number, with or without a minus sign.
proof fn lemma_read_whole(neg: bool, m: nat)
    requires
        m < 0x8000_0000_0000_0000 || (neg && m == 0x8000_0000_0000_0000),
        neg ==> m > 0,
    ensures
        parse_spec(if neg {
            seq![45u8] + nat_bytes(m)
        } else {
            nat_bytes(m)
        }) == Some(
            if m == 0 {
                Dec { neg: false, digits: Seq::empty(), exp: 0 }
            } else {
                Dec {
                    neg: neg,
                    digits: strip_zeros(digits_of(m)),
                    exp: digits_of(m).len() as int,
                }
            },
        ),
{
    let d = if m == 0 {
        seq![0u8]
    } else {
        digits_of(m)
    };
    lemma_nat_bytes_digits(m);
    lemma_digits_of(m);
    assert(forall|k: int| 0 <= k < d.len() ==> d[k] <= 9);
    lemma_digit_text(d);
    let t = digit_text(d);
    let b = if neg {
        seq![45u8] + t
    } else {
        t
    };
    let s0: int = if neg {
        1
    } else {
        0
    };
    assert(d.len() >= 1);
    assert(is_digit(t[0]));
    assert(sign_len(b) == s0);
    assert forall|k: int| s0 <= k < b.len() implies is_digit(b[k]) by {
        assert(b[k] == t[k - s0]);
    }
    lemma_no_exp_mark(b, s0);
    assert(b.subrange(s0, b.len() as int) =~= t);
    assert(mant_ok(t));
    if m == 0 {
        assert(d.drop_first() =~= Seq::<u8>::empty());
        assert(leading_zeros(d.drop_first()) == 0);
        assert(leading_zeros(d) == 1);
        assert(d.skip(1) =~= Seq::<u8>::empty());
    } else {
        lemma_digits_len_i64(m);
        assert(leading_zeros(d) == 0);
        assert(d.skip(0) =~= d);
        crate::domain::number::lemma_trailing_zeros_facts(d);
        assert(trailing_zeros(d) < d.len()) by {
            if trailing_zeros(d) == d.len() {
                assert(d[0] == 0);
            }
        }
    }
}

/// An integer's text reads as `int_dec`.
pub proof fn lemma_int_text(n: int)
    requires
        -0x8000_0000_0000_0000 <= n < 0x8000_0000_0000_0000,
    ensures
        num_of(int_chars(n)) == Some(int_dec(n)),
{
    if n >= 0 {
        lemma_nat_bytes(n as nat);
        lemma_read_whole(false, n as nat);
    } else {
        let m = (-n) as nat;
        lemma_nat_bytes(m);
        assert('-' == (45u8 as char));
        lemma_utf8_ascii_prefix(45u8, nat_chars(m));
        lemma_read_whole(true, m);
    }
}

/// The first place where a smaller string of one length differs.
proof fn lemma_lex_first_diff(a: Seq<u8>, b: Seq<u8>) -> (k: int)
    requires
        a.len() == b.len(),
        lex_order(a, b) < 0,
    ensures
        0 <= k < a.len(),
        a.take(k) == b.take(k),
        a[k] < b[k],
    decreases a.len(),
{
    if a[0] < b[0] {
        assert(a.take(0) =~= b.take(0));
        0
    } else {
        let k1 = lemma_lex_first_diff(a.drop_first(), b.drop_first());
        assert(a.take(k1 + 1) =~= seq![a[0]] + a.drop_first().take(k1));
        assert(b.take(k1 + 1) =~= seq![b[0]] + b.drop_first().take(k1));
        k1 + 1
    }
}

/// Taking trailing zeros off two strings of one length keeps their order.
proof fn lemma_strip_order(x: Seq<u8>, y: Seq<u8>)
    requires
        x.len() == y.len(),
        lex_order(x, y) <= 0,
    ensures
        lex_order(strip_zeros(x), strip_zeros(y)) <= 0,
{
    lemma_lex_order_eq(x, y);
    if lex_order(x, y) < 0 {
        let k = lemma_lex_first_diff(x, y);
        crate::domain::number::lemma_trailing_zeros_facts(x);
        crate::domain::number::lemma_trailing_zeros_facts(y);
        let sx = strip_zeros(x);
        let sy = strip_zeros(y);
        assert(sy.len() > k) by {
            if y.len() - trailing_zeros(y) <= k {
                assert(y[k] == 0);
            }
        }
        if sx.len() > k {
            assert(sx =~= x.take(k) + sx.skip(k));
            assert(sy =~= x.take(k) + sy.skip(k)) by {
                assert(y.take(k) =~= sy.take(k));
            }
            lemma_lex_order_common_prefix(x.take(k), sx.skip(k), sy.skip(k));
            assert(sx.skip(k)[0] == x[k]);
            assert(sy.skip(k)[0] == y[k]);
        } else {
            let p = sx;
            assert(p =~= y.take(p.len() as int)) by {
                assert forall|i: int| 0 <= i < p.len() implies p[i] == y[i] by {
                    assert(x.take(k)[i] == y.take(k)[i]);
                }
            }
            assert(sy =~= p + sy.skip(p.len() as int));
            assert(p =~= p + Seq::<u8>::empty());
            lemma_lex_order_common_prefix(p, Seq::<u8>::empty(), sy.skip(p.len() as int));
        }
    } else {
        lemma_lex_order_eq(strip_zeros(x), strip_zeros(y));
    }
}

/// A nonzero integer reads as a decimal with digits.
proof fn lemma_int_dec_digits(n: int)
    requires
        n != 0,
    ensures
        int_dec(n).digits.len() > 0,
{
    let m: nat = if n < 0 {
        (-n) as nat
    } else {
        n as nat
    };
    lemma_digits_of(m);
    let d = digits_of(m);
    crate::domain::number::lemma_trailing_zeros_facts(d);
    if trailing_zeros(d) == d.len() {
        assert(d[0] == 0);
    }
}

/// For positive whole numbers, the larger reads as the larger decimal.
proof fn lemma_positive_order(a: nat, b: nat)
    requires
        0 < a <= b,
    ensures
        dec_order(int_dec(a as int), int_dec(b as int)) <= 0,
{
    lemma_digits_len(a);
    lemma_digits_len(b);
    lemma_digits_of(a);
    lemma_digits_of(b);
    let (da, db) = (digits_of(a), digits_of(b));
    crate::domain::number::lemma_trailing_zeros_facts(da);
    crate::domain::number::lemma_trailing_zeros_facts(db);
    assert(trailing_zeros(da) < da.len()) by {
        if trailing_zeros(da) == da.len() {
            assert(da[0] == 0);
        }
    }
    assert(trailing_zeros(db) < db.len()) by {
        if trailing_zeros(db) == db.len() {
            assert(db[0] == 0);
        }
    }
    if da.len() > db.len() {
        lemma_pow10_mono(db.len(), (da.len() - 1) as nat);
    }
    if da.len() == db.len() {
        lemma_value_order(da, db);
        lemma_strip_order(da, db);
    }
}

/// A larger integer reads as a decimal that is not smaller.
pub proof fn lemma_int_order(n1: int, n2: int)
    requires
        n1 <= n2,
    ensures
        dec_order(int_dec(n1), int_dec(n2)) <= 0,
{
    if n1 > 0 {
        lemma_positive_order(n1 as nat, n2 as nat);
    } else if n2 < 0 {
        lemma_positive_order((-n2) as nat, (-n1) as nat);
        lemma_lex_order_antisym(int_dec(n2).digits, int_dec(n1).digits);
        lemma_int_dec_digits(n1);
        lemma_int_dec_digits(n2);
    } else if n1 < 0 {
        lemma_int_dec_digits(n1);
        if n2 > 0 {
            lemma_int_dec_digits(n2);
        }
    } else if n2 > 0 {
        lemma_int_dec_digits(n2);
    }
}

/// An item that has expired stays expired: at any later time it is expired
/// too.
pub proof fn lemma_expiry_stays(def: TableDef, item: Item, now: i64, later: i64)
    requires
        expired_spec(def, item, now as int),
        now <= later,
    ensures
        expired_spec(def, item, later as int),
{
    let attr = def.ttl_attr->0;
    let t = item.find(attr@)->0->N_0;
    let a = num_of(t.0@)->0;
    lemma_int_text(now as int);
    lemma_int_text(later as int);
    let b = int_dec(now as int);
    let c = int_dec(later as int);
    lemma_int_order(now as int, later as int);
    crate::domain::number::lemma_parse_ok(utf8(t.0@));
    crate::domain::number::lemma_parse_ok(utf8(int_chars(now as int)));
    crate::domain::number::lemma_parse_ok(utf8(int_chars(later as int)));
    lemma_dec_order_eq(a, b);
    lemma_dec_order_eq(b, c);
    if dec_order(a, b) < 0 && dec_order(b, c) < 0 {
        lemma_dec_order_trans(a, b, c);
    }
}

} // verus!
