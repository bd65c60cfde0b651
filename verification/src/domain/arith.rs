//! Exact decimal addition and subtraction of N values.
use vstd::prelude::*;
use crate::domain::attribute::Number;
use crate::domain::error::DbError;
use crate::domain::number::{
    Dec, Decimal, dec_ok, digits_value, format_decimal, format_spec, leading_zeros,
    lemma_format_round_trip, lemma_leading_zeros_prefix, lemma_parse_ok, normalize,
    normalize_exec, number_bytes, number_dec, parse_number, pow10, trailing_zeros, zeros,
    lemma_normalize_ok,
};

verus! {

/// The base-10 digits of `n`, most significant first; none for zero.
pub open spec fn digits_of(n: nat) -> Seq<u8>
    decreases n,
{
    if n == 0 {
        Seq::empty()
    } else {
        digits_of(n / 10).push((n % 10) as u8)
    }
}

pub open spec fn small_digits(d: Seq<u8>) -> bool {
    forall|k: int| 0 <= k < d.len() ==> d[k] <= 9
}

pub proof fn lemma_pow10_pos(k: nat)
    ensures
        pow10(k) >= 1,
    decreases k,
{
    if k > 0 {
        lemma_pow10_pos((k - 1) as nat);
    }
}

proof fn lemma_pow10_add(a: nat, b: nat)
    ensures
        pow10(a + b) == pow10(a) * pow10(b),
    decreases b,
{
    if b > 0 {
        lemma_pow10_add(a, (b - 1) as nat);
        assert(pow10(a + b) == 10 * pow10((a + b - 1) as nat));
        assert(pow10(b) == 10 * pow10((b - 1) as nat));
        assert(pow10(a) * (10 * pow10((b - 1) as nat)) == 10 * (pow10(a) * pow10((b - 1) as nat)))
            by (nonlinear_arith);
    } else {
        assert(pow10(a) * 1 == pow10(a));
    }
}

/// The value of a concatenation.
pub proof fn lemma_value_concat(a: Seq<u8>, b: Seq<u8>)
    ensures
        digits_value(a + b) == digits_value(a) * pow10(b.len()) + digits_value(b),
    decreases b.len(),
{
    if b.len() == 0 {
        assert(a + b =~= a);
        assert(pow10(0) == 1);
        assert(digits_value(b) == 0);
        assert(digits_value(a) * 1 == digits_value(a));
    } else {
        let b1 = b.drop_last();
        assert((a + b).drop_last() =~= a + b1);
        assert((a + b).last() == b.last());
        assert(digits_value(a + b) == digits_value(a + b1) * 10 + b.last());
        assert(digits_value(b) == digits_value(b1) * 10 + b.last());
        lemma_value_concat(a, b1);
        let va = digits_value(a);
        let p1 = pow10(b1.len());
        let vb1 = digits_value(b1);
        assert(pow10(b.len()) == 10 * p1);
        assert((va * p1 + vb1) * 10 + b.last() == va * (10 * p1) + (vb1 * 10 + b.last()))
            by (nonlinear_arith);
    }
}

pub proof fn lemma_value_single(x: u8)
    ensures
        digits_value(seq![x]) == x,
{
    let s = seq![x];
    assert(s.drop_last() =~= Seq::<u8>::empty());
    assert(s.last() == x);
    assert(digits_value(Seq::<u8>::empty()) == 0);
    assert(digits_value(s) == digits_value(s.drop_last()) * 10 + s.last());
}

proof fn lemma_value_zeros(k: nat)
    ensures
        digits_value(zeros(k)) == 0,
    decreases k,
{
    if k > 0 {
        assert(zeros(k).drop_last() =~= zeros((k - 1) as nat));
        lemma_value_zeros((k - 1) as nat);
    }
}

/// A digit string is below the power of ten of its length.
pub proof fn lemma_value_bound(d: Seq<u8>)
    requires
        small_digits(d),
    ensures
        0 <= digits_value(d) < pow10(d.len()),
    decreases d.len(),
{
    if d.len() > 0 {
        let d1 = d.drop_last();
        lemma_value_bound(d1);
        let v1 = digits_value(d1);
        let p1 = pow10(d1.len());
        assert(v1 * 10 + d.last() < 10 * p1) by (nonlinear_arith)
            requires
                0 <= v1 < p1,
                d.last() <= 9,
        ;
    }
}

/// Same-length digit strings compare as their values.
pub proof fn lemma_value_order(a: Seq<u8>, b: Seq<u8>)
    requires
        small_digits(a),
        small_digits(b),
        a.len() == b.len(),
    ensures
        crate::domain::byte_order::lex_order(a, b) < 0 ==> digits_value(a) < digits_value(b),
        crate::domain::byte_order::lex_order(a, b) == 0 ==> a == b,
        crate::domain::byte_order::lex_order(a, b) > 0 ==> digits_value(a) > digits_value(b),
    decreases a.len(),
{
    crate::domain::byte_order::lemma_lex_order_eq(a, b);
    if a.len() > 0 {
        let (a1, b1) = (a.drop_first(), b.drop_first());
        lemma_value_order(a1, b1);
        assert(seq![a[0]] + a1 =~= a);
        assert(seq![b[0]] + b1 =~= b);
        lemma_value_concat(seq![a[0]], a1);
        lemma_value_concat(seq![b[0]], b1);
        lemma_value_single(a[0]);
        lemma_value_single(b[0]);
        lemma_value_bound(a1);
        lemma_value_bound(b1);
        let p = pow10(a1.len());
        let (x, y) = (digits_value(a1), digits_value(b1));
        let (a0, b0) = (a[0] as int, b[0] as int);
        if a0 < b0 {
            assert(a0 * p + x < b0 * p + y) by (nonlinear_arith)
                requires
                    a0 < b0,
                    0 <= x < p,
                    0 <= y < p,
            ;
        } else if a0 > b0 {
            assert(a0 * p + x > b0 * p + y) by (nonlinear_arith)
                requires
                    a0 > b0,
                    0 <= x < p,
                    0 <= y < p,
            ;
        }
    }
}

/// A digit string without a leading zero is the digit string of its value.
proof fn lemma_canonical_digits(g: Seq<u8>)
    requires
        small_digits(g),
        g.len() == 0 || g[0] != 0,
    ensures
        digits_of(digits_value(g) as nat) == g,
    decreases g.len(),
{
    if g.len() > 0 {
        let g1 = g.drop_last();
        let v = digits_value(g);
        let v1 = digits_value(g1);
        lemma_value_bound(g1);
        // the value is positive
        assert(seq![g[0]] + g.drop_first() =~= g);
        lemma_value_concat(seq![g[0]], g.drop_first());
        lemma_value_single(g[0]);
        lemma_value_bound(g.drop_first());
        lemma_pow10_pos(g.drop_first().len());
        let p = pow10(g.drop_first().len());
        assert(g[0] * p >= 1) by (nonlinear_arith)
            requires
                g[0] >= 1,
                p >= 1,
        ;
        assert(v > 0);
        assert(v == v1 * 10 + g.last());
        assert(v / 10 == v1 && v % 10 == g.last()) by (nonlinear_arith)
            requires
                v == v1 * 10 + g.last(),
                0 <= g.last() <= 9,
                v1 >= 0,
        ;
        lemma_canonical_digits(g1);
        assert(g1.push(g.last()) =~= g);
    }
}

/// Facts about the digits of a number.
pub proof fn lemma_digits_of(n: nat)
    ensures
        small_digits(digits_of(n)),
        digits_value(digits_of(n)) == n,
        n > 0 ==> digits_of(n).len() > 0 && digits_of(n)[0] != 0,
    decreases n,
{
    if n > 0 {
        lemma_digits_of(n / 10);
        let d = digits_of(n / 10);
        assert(digits_of(n).drop_last() =~= d);
        if n / 10 == 0 {
            assert(d.len() == 0);
            assert(n % 10 != 0);
        } else {
            assert(digits_of(n)[0] == d[0]);
        }
    }
}

/// Leading zeros do not change the value; what follows them is the digit
/// string of the value.
proof fn lemma_strip_leading(d: Seq<u8>)
    requires
        small_digits(d),
    ensures
        d.skip(leading_zeros(d) as int) == digits_of(digits_value(d) as nat),
        digits_value(d.skip(leading_zeros(d) as int)) == digits_value(d),
{
    crate::domain::number::lemma_leading_zeros_facts(d);
    let z = leading_zeros(d) as int;
    let g = d.skip(z);
    assert(zeros(z as nat) + g =~= d);
    lemma_value_concat(zeros(z as nat), g);
    lemma_value_zeros(z as nat);
    lemma_canonical_digits(g);
}

/// Shifting a positive value by a power of ten appends zeros to its digits.
proof fn lemma_digits_of_shift(v: nat, k: nat)
    requires
        v > 0,
    ensures
        digits_of((v * pow10(k)) as nat) == digits_of(v) + zeros(k),
{
    lemma_digits_of(v);
    let g = digits_of(v) + zeros(k);
    lemma_value_concat(digits_of(v), zeros(k));
    lemma_value_zeros(k);
    assert(zeros(k).len() == k);
    lemma_canonical_digits(g);
}

fn zero_digits(n: usize) -> (r: Vec<u8>)
    ensures
        r@ == zeros(n as nat),
{
    let mut r: Vec<u8> = Vec::new();
    let mut i: usize = 0;
    while i < n
        invariant
            i <= n,
            r@ == zeros(i as nat),
        decreases n - i,
    {
        r.push(0);
        i = i + 1;
        assert(r@ =~= zeros(i as nat));
    }
    r
}

proof fn lemma_suffix_step(s: Seq<u8>, from: int)
    requires
        0 < from <= s.len(),
    ensures
        digits_value(s.subrange(from - 1, s.len() as int)) == s[from - 1] * pow10(
            (s.len() - from) as nat,
        ) + digits_value(s.subrange(from, s.len() as int)),
{
    let t = s.subrange(from, s.len() as int);
    assert(seq![s[from - 1]] + t =~= s.subrange(from - 1, s.len() as int));
    lemma_value_concat(seq![s[from - 1]], t);
    lemma_value_single(s[from - 1]);
}

/// Sum of two digit strings of one length: one digit longer.
fn add_digits(a: &Vec<u8>, b: &Vec<u8>) -> (c: Vec<u8>)
    requires
        a@.len() == b@.len(),
        a@.len() < 100000,
        small_digits(a@),
        small_digits(b@),
    ensures
        c@.len() == a@.len() + 1,
        small_digits(c@),
        digits_value(c@) == digits_value(a@) + digits_value(b@),
{
    let n = a.len();
    let mut c = zero_digits(n + 1);
    let mut carry: u8 = 0;
    let mut i: usize = 0;
    assert(a@.subrange(n as int, n as int) =~= Seq::<u8>::empty());
    assert(b@.subrange(n as int, n as int) =~= Seq::<u8>::empty());
    assert(c@.subrange(n + 1, n + 1) =~= Seq::<u8>::empty());
    while i < n
        invariant
            n == a@.len(),
            a@.len() == b@.len(),
            small_digits(a@),
            small_digits(b@),
            c@.len() == n + 1,
            small_digits(c@),
            i <= n,
            carry <= 1,
            digits_value(a@.subrange(n - i, n as int)) + digits_value(b@.subrange(n - i, n as int))
                == carry * pow10(i as nat) + digits_value(c@.subrange(n + 1 - i, n + 1)),
        decreases n - i,
    {
        let pos = n - 1 - i;
        let s = a[pos] + b[pos] + carry;
        let d = s % 10;
        let ghost old_c = c@;
        let ghost old_carry = carry;
        c.set(pos + 1, d);
        carry = s / 10;
        proof {
            lemma_suffix_step(a@, pos as int + 1);
            lemma_suffix_step(b@, pos as int + 1);
            lemma_suffix_step(c@, pos as int + 2);
            assert(c@.subrange(pos + 2, n + 1) =~= old_c.subrange(pos + 2, n + 1));
            let p = pow10(i as nat);
            assert(pow10((i + 1) as nat) == 10 * p);
            let va = digits_value(a@.subrange(n - i, n as int));
            let vb = digits_value(b@.subrange(n - i, n as int));
            let vc = digits_value(old_c.subrange(n + 1 - i, n + 1));
            let (x, y, z) = (a@[pos as int] as int, b@[pos as int] as int, old_carry as int);
            assert(x * p + va + (y * p + vb) == (carry as int) * (10 * p) + (d as int * p + vc))
                by (nonlinear_arith)
                requires
                    va + vb == z * p + vc,
                    x + y + z == (carry as int) * 10 + d,
            ;
        }
        i = i + 1;
    }
    let ghost before = c@;
    c.set(0, carry);
    proof {
        assert(a@.subrange(0, n as int) =~= a@);
        assert(b@.subrange(0, n as int) =~= b@);
        assert(c@.subrange(1, n + 1) =~= before.subrange(1, n + 1));
        lemma_suffix_step(c@, 1);
        assert(c@.subrange(0, n + 1) =~= c@);
    }
    c
}

/// Difference of two digit strings of one length, the first not below the
/// second.
fn sub_digits(a: &Vec<u8>, b: &Vec<u8>) -> (c: Vec<u8>)
    requires
        a@.len() == b@.len(),
        a@.len() < 100000,
        small_digits(a@),
        small_digits(b@),
        digits_value(a@) >= digits_value(b@),
    ensures
        c@.len() == a@.len(),
        small_digits(c@),
        digits_value(c@) == digits_value(a@) - digits_value(b@),
{
    let n = a.len();
    let mut c = zero_digits(n);
    let mut borrow: u8 = 0;
    let mut i: usize = 0;
    assert(a@.subrange(n as int, n as int) =~= Seq::<u8>::empty());
    assert(b@.subrange(n as int, n as int) =~= Seq::<u8>::empty());
    assert(c@.subrange(n as int, n as int) =~= Seq::<u8>::empty());
    while i < n
        invariant
            n == a@.len(),
            a@.len() == b@.len(),
            small_digits(a@),
            small_digits(b@),
            c@.len() == n,
            small_digits(c@),
            i <= n,
            borrow <= 1,
            digits_value(a@.subrange(n - i, n as int)) - digits_value(b@.subrange(n - i, n as int))
                == digits_value(c@.subrange(n - i, n as int)) - borrow * pow10(i as nat),
        decreases n - i,
    {
        let pos = n - 1 - i;
        let x = a[pos];
        let y = b[pos] + borrow;
        let ghost old_c = c@;
        let ghost old_borrow = borrow;
        let d: u8;
        if x >= y {
            d = x - y;
            borrow = 0;
        } else {
            d = x + 10 - y;
            borrow = 1;
        }
        c.set(pos, d);
        proof {
            lemma_suffix_step(a@, pos as int + 1);
            lemma_suffix_step(b@, pos as int + 1);
            lemma_suffix_step(c@, pos as int + 1);
            assert(c@.subrange(pos + 1, n as int) =~= old_c.subrange(pos + 1, n as int));
            let p = pow10(i as nat);
            assert(pow10((i + 1) as nat) == 10 * p);
            let va = digits_value(a@.subrange(n - i, n as int));
            let vb = digits_value(b@.subrange(n - i, n as int));
            let vc = digits_value(old_c.subrange(n - i, n as int));
            let (xa, yb, z) = (a@[pos as int] as int, b@[pos as int] as int, old_borrow as int);
            assert(xa * p + va - (yb * p + vb) == (d as int * p + vc) - (borrow as int) * (10 * p))
                by (nonlinear_arith)
                requires
                    va - vb == vc - z * p,
                    xa - yb - z == d - (borrow as int) * 10,
            ;
        }
        i = i + 1;
    }
    proof {
        assert(a@.subrange(0, n as int) =~= a@);
        assert(b@.subrange(0, n as int) =~= b@);
        assert(c@.subrange(0, n as int) =~= c@);
        lemma_value_bound(c@);
        if borrow == 1 {
            assert(digits_value(c@) - pow10(n as nat) < 0);
        }
    }
    c
}

/// A decimal's value times 10^200, an integer for every normalized decimal.
pub open spec fn scaled(d: Dec) -> int {
    let v = digits_value(d.digits) * pow10((d.exp - d.digits.len() + 200) as nat);
    if d.neg {
        -v
    } else {
        v
    }
}

/// The normalized decimal whose value times 10^200 is `s`; `None` where it
/// needs more than 38 significant digits or lies outside the exponent range.
pub open spec fn dec_of_scaled(s: int) -> Option<Dec> {
    let m: nat = if s < 0 {
        (-s) as nat
    } else {
        s as nat
    };
    let ds = digits_of(m);
    normalize(s < 0, ds, ds.len() - 200)
}

/// The value of a digit string with a sign.
pub open spec fn signed_value(d: Seq<u8>, neg: bool) -> int {
    if neg {
        -digits_value(d)
    } else {
        digits_value(d)
    }
}

/// The same decimal with the sign `neg`.
pub open spec fn with_sign(d: Dec, neg: bool) -> Dec {
    Dec { neg: neg, digits: d.digits, exp: d.exp }
}

proof fn lemma_trailing_zeros_append(g: Seq<u8>, k: nat)
    ensures
        trailing_zeros(g + zeros(k)) == trailing_zeros(g) + k,
    decreases k,
{
    if k == 0 {
        assert(g + zeros(k) =~= g);
    } else {
        assert((g + zeros(k)).drop_last() =~= g + zeros((k - 1) as nat));
        lemma_trailing_zeros_append(g, (k - 1) as nat);
    }
}

/// Zeros before the digits and zeros after them normalize alike.
proof fn lemma_normalize_shift(neg: bool, g: Seq<u8>, z: nat, k: nat, e: int)
    requires
        g.len() > 0,
        g[0] != 0,
    ensures
        normalize(neg, zeros(z) + g, e) == normalize(neg, g + zeros(k), e - z),
{
    lemma_leading_zeros_prefix(z, g);
    let r = g + zeros(k);
    assert(r[0] == g[0]);
    assert(leading_zeros(r) == 0);
    assert(r.skip(0) =~= r);
    lemma_trailing_zeros_append(g, k);
    crate::domain::number::lemma_trailing_zeros_facts(g);
    let t = trailing_zeros(g);
    assert(r.take(r.len() - trailing_zeros(r)) =~= g.take(g.len() - t));
}

/// A digit string placed between `hi` and `lo`: zeros above, zeros below.
pub open spec fn aligned_spec(digits: Seq<u8>, exp: int, lo: int, hi: int) -> Seq<u8> {
    zeros((hi - exp) as nat) + digits + zeros((exp - digits.len() - lo) as nat)
}

fn aligned(digits: &Vec<u8>, exp: i64, lo: i64, hi: i64) -> (r: Vec<u8>)
    requires
        lo <= exp - digits@.len(),
        exp <= hi,
        hi - lo < 1000,
        small_digits(digits@),
    ensures
        r@ == aligned_spec(digits@, exp as int, lo as int, hi as int),
        r@.len() == hi - lo,
        small_digits(r@),
{
    let mut r = zero_digits((hi - exp) as usize);
    let mut i: usize = 0;
    let ghost top = r@;
    while i < digits.len()
        invariant
            i <= digits@.len(),
            r@ == top + digits@.take(i as int),
        decreases digits@.len() - i,
    {
        r.push(digits[i]);
        i = i + 1;
        assert(r@ =~= top + digits@.take(i as int));
    }
    assert(digits@.take(i as int) =~= digits@);
    let below = (exp - digits.len() as i64 - lo) as usize;
    let mut z = zero_digits(below);
    r.append(&mut z);
    assert(r@ =~= aligned_spec(digits@, exp as int, lo as int, hi as int));
    r
}

proof fn lemma_aligned_value(digits: Seq<u8>, exp: int, lo: int, hi: int)
    requires
        lo <= exp - digits.len(),
        exp <= hi,
    ensures
        digits_value(aligned_spec(digits, exp, lo, hi)) == digits_value(digits) * pow10(
            (exp - digits.len() - lo) as nat,
        ),
{
    let below = (exp - digits.len() - lo) as nat;
    let top = zeros((hi - exp) as nat);
    assert(aligned_spec(digits, exp, lo, hi) =~= top + (digits + zeros(below)));
    lemma_value_concat(top, digits + zeros(below));
    lemma_value_zeros((hi - exp) as nat);
    lemma_value_concat(digits, zeros(below));
    lemma_value_zeros(below);
}

/// The scaled value of a decimal through its aligned digits.
proof fn lemma_scaled_aligned(d: Dec, lo: int, hi: int)
    requires
        lo <= d.exp - d.digits.len(),
        d.exp <= hi,
        lo + 200 >= 0,
    ensures
        scaled(d) == signed_value(aligned_spec(d.digits, d.exp, lo, hi), d.neg) * pow10(
            (lo + 200) as nat,
        ),
{
    lemma_aligned_value(d.digits, d.exp, lo, hi);
    let a = (d.exp - d.digits.len() - lo) as nat;
    let b = (lo + 200) as nat;
    lemma_pow10_add(a, b);
    assert((a + b) as nat == (d.exp - d.digits.len() + 200) as nat);
    let v = digits_value(d.digits);
    assert(v * (pow10(a) * pow10(b)) == (v * pow10(a)) * pow10(b)) by (nonlinear_arith);
    assert(-(v * pow10(a)) * pow10(b) == -((v * pow10(a)) * pow10(b))) by (nonlinear_arith);
}

/// The result of adding the scaled values `s` of normalized decimals, from
/// digits `c` with `val(c) * 10^(lo + 200) = |s|` and the sign `neg`.
proof fn lemma_result(c: Seq<u8>, neg: bool, lo: int, s: int)
    requires
        small_digits(c),
        lo + 200 >= 0,
        s == signed_value(c, neg) * pow10((lo + 200) as nat),
    ensures
        normalize(neg, c, c.len() + lo) == dec_of_scaled(s),
{
    let k = (lo + 200) as nat;
    let v = digits_value(c);
    assert(-v * pow10(k) == -(v * pow10(k))) by (nonlinear_arith);
    lemma_strip_leading(c);
    lemma_value_bound(c);
    lemma_pow10_pos(k);
    crate::domain::number::lemma_leading_zeros_facts(c);
    let z = leading_zeros(c);
    let g = c.skip(z as int);
    assert(zeros(z) + g =~= c);
    if v == 0 {
        assert(s == 0) by (nonlinear_arith)
            requires
                s == if neg { -(v * pow10(k)) } else { v * pow10(k) },
                v == 0,
        ;
        assert(digits_of(0) =~= Seq::<u8>::empty());
        assert(g.len() == 0);
    } else {
        assert(v * pow10(k) > 0) by (nonlinear_arith)
            requires
                v > 0,
                pow10(k) >= 1,
        ;
        lemma_digits_of_shift(v as nat, k);
        lemma_digits_of(v as nat);
        let m: nat = if s < 0 { (-s) as nat } else { s as nat };
        assert(m == (v * pow10(k)) as nat);
        assert((s < 0) == neg);
        lemma_normalize_shift(neg, g, z, k, c.len() + lo);
    }
}

/// The signed sum of two signed digit strings of one length.
fn combine(a: &Vec<u8>, a_neg: bool, b: &Vec<u8>, b_neg: bool) -> (r: (Vec<u8>, bool))
    requires
        a@.len() == b@.len(),
        a@.len() < 1000,
        small_digits(a@),
        small_digits(b@),
    ensures
        small_digits(r.0@),
        r.0@.len() <= a@.len() + 1,
        signed_value(r.0@, r.1) == signed_value(a@, a_neg) + signed_value(b@, b_neg),
{
    if a_neg == b_neg {
        (add_digits(a, b), a_neg)
    } else {
        proof {
            lemma_value_order(a@, b@);
        }
        if crate::domain::byte_order::compare_bytes(a.as_slice(), b.as_slice()) >= 0 {
            (sub_digits(a, b), a_neg)
        } else {
            (sub_digits(b, a), b_neg)
        }
    }
}

/// The sum of `x` and `y` with the sign `y_neg`, as a normalized decimal.
fn sum_decimals(x: &Decimal, y: &Decimal, y_neg: bool) -> (r: Result<Decimal, DbError>)
    requires
        dec_ok(x.dec()),
        dec_ok(y.dec()),
    ensures
        match r {
            Ok(d) => dec_of_scaled(scaled(x.dec()) + scaled(with_sign(y.dec(), y_neg))) == Some(
                d.dec(),
            ),
            Err(e) => dec_of_scaled(scaled(x.dec()) + scaled(with_sign(y.dec(), y_neg))) is None
                && e is Validation,
        },
{
    let ghost dx = x.dec();
    let ghost dy = with_sign(y.dec(), y_neg);
    let lx = x.digits.len() as i64;
    let ly = y.digits.len() as i64;
    let xl = x.exp - lx;
    let yl = y.exp - ly;
    let lo = if xl < yl { xl } else { yl };
    let hi = if x.exp > y.exp { x.exp } else { y.exp };
    let a = aligned(&x.digits, x.exp, lo, hi);
    let b = aligned(&y.digits, y.exp, lo, hi);
    let (c, neg) = combine(&a, x.neg, &b, y_neg);
    proof {
        lemma_scaled_aligned(dx, lo as int, hi as int);
        lemma_scaled_aligned(dy, lo as int, hi as int);
        let p = pow10((lo + 200) as nat);
        let (sa, sb) = (signed_value(a@, x.neg), signed_value(b@, y_neg));
        assert(sa * p + sb * p == (sa + sb) * p) by (nonlinear_arith);
        lemma_result(c@, neg, lo as int, scaled(dx) + scaled(dy));
    }
    let e = (c.len() as i64 + lo) as i128;
    normalize_exec(neg, c, e)
}

/// The decimal a scaled sum stands for is well formed.
proof fn lemma_result_ok(s: int)
    ensures
        dec_of_scaled(s) matches Some(d) ==> dec_ok(d),
{
    let m: nat = if s < 0 { (-s) as nat } else { s as nat };
    lemma_digits_of(m);
    lemma_normalize_ok(s < 0, digits_of(m), digits_of(m).len() - 200);
}

fn text_of(d: &Decimal) -> (r: Number)
    requires
        dec_ok(d.dec()),
    ensures
        number_bytes(r) == format_spec(d.neg, d.digits@, d.exp as int),
        number_dec(r) == Some(d.dec()),
{
    proof {
        lemma_format_round_trip(d.dec());
    }
    Number(format_decimal(d.neg, d.digits.as_slice(), d.exp))
}

/// The exact sum of two N values, in canonical text ("1200" + "0.5" =
/// "1200.5"); an error where a text is not a number or the sum needs more
/// than 38 significant digits or leaves the exponent range.
pub fn add(a: &Number, b: &Number) -> (r: Result<Number, DbError>)
    ensures
        match r {
            Ok(c) => number_dec(*a) is Some && number_dec(*b) is Some && (dec_of_scaled(
                scaled(number_dec(*a)->0) + scaled(number_dec(*b)->0),
            ) matches Some(d) && number_dec(c) == Some(d) && number_bytes(c) == format_spec(
                d.neg,
                d.digits,
                d.exp,
            )),
            Err(e) => (number_dec(*a) is None || number_dec(*b) is None || dec_of_scaled(
                scaled(number_dec(*a)->0) + scaled(number_dec(*b)->0),
            ) is None) && e is Validation,
        },
{
    let x = parse_number(a)?;
    let y = parse_number(b)?;
    proof {
        lemma_parse_ok(number_bytes(*a));
        lemma_parse_ok(number_bytes(*b));
        assert(with_sign(y.dec(), y.neg) == y.dec());
    }
    let d = sum_decimals(&x, &y, y.neg)?;
    proof {
        lemma_result_ok(scaled(x.dec()) + scaled(y.dec()));
    }
    Ok(text_of(&d))
}

/// The exact difference of two N values, in canonical text ("1200" - "1300"
/// = "-100"); errors as for `add`.
pub fn sub(a: &Number, b: &Number) -> (r: Result<Number, DbError>)
    ensures
        match r {
            Ok(c) => number_dec(*a) is Some && number_dec(*b) is Some && (dec_of_scaled(
                scaled(number_dec(*a)->0) - scaled(number_dec(*b)->0),
            ) matches Some(d) && number_dec(c) == Some(d) && number_bytes(c) == format_spec(
                d.neg,
                d.digits,
                d.exp,
            )),
            Err(e) => (number_dec(*a) is None || number_dec(*b) is None || dec_of_scaled(
                scaled(number_dec(*a)->0) - scaled(number_dec(*b)->0),
            ) is None) && e is Validation,
        },
{
    let x = parse_number(a)?;
    let y = parse_number(b)?;
    proof {
        lemma_parse_ok(number_bytes(*a));
        lemma_parse_ok(number_bytes(*b));
        assert(scaled(with_sign(y.dec(), !y.neg)) == -scaled(y.dec()));
    }
    let d = sum_decimals(&x, &y, !y.neg)?;
    proof {
        lemma_result_ok(scaled(x.dec()) - scaled(y.dec()));
    }
    Ok(text_of(&d))
}

} // verus!
