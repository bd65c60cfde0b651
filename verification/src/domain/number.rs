//! The N type: decimal numbers of up to 38 significant digits, parsed from
//! plain or scientific notation, compared by value and printed canonically.
use vstd::prelude::*;
use crate::domain::attribute::Number;
use crate::domain::byte_order::{lex_order, compare_bytes, lemma_lex_order_antisym, lemma_lex_order_eq, lemma_lex_order_trans};
use crate::domain::error::{DbError, validation};
use crate::domain::text::{utf8, ascii_bytes, ascii_string};
use std::cmp::Ordering;

verus! {

/// At most this many significant digits.
pub const MAX_SIGNIFICANT_DIGITS: usize = 38;

/// Smallest normalized exponent E (value = 0.d1d2... × 10^E): 1E-130.
pub const EXP_MIN: i64 = -129;

/// Largest normalized exponent: 9.9...E+125.
pub const EXP_MAX: i64 = 126;

/// A normalized decimal: value = 0.digits × 10^exp; `digits` has no leading or
/// trailing zero, and is empty for zero.
pub struct Dec {
    pub neg: bool,
    pub digits: Seq<u8>,
    pub exp: int,
}

pub open spec fn is_digit(c: u8) -> bool {
    48 <= c <= 57
}

pub open spec fn is_exp_mark(c: u8) -> bool {
    c == 101 || c == 69
}

/// Length of an optional leading sign.
pub open spec fn sign_len(b: Seq<u8>) -> int {
    if b.len() > 0 && (b[0] == 43 || b[0] == 45) {
        1
    } else {
        0
    }
}

/// The first index at or after `i` holding 'e' or 'E', or the length.
pub open spec fn exp_mark_pos(b: Seq<u8>, i: int) -> int
    decreases b.len() - i,
{
    if i >= b.len() {
        b.len() as int
    } else if is_exp_mark(b[i]) {
        i
    } else {
        exp_mark_pos(b, i + 1)
    }
}

/// The digit values of a mantissa, in order, skipping the decimal point.
pub open spec fn mant_digits(m: Seq<u8>) -> Seq<u8>
    decreases m.len(),
{
    if m.len() == 0 {
        Seq::empty()
    } else if is_digit(m.last()) {
        mant_digits(m.drop_last()).push((m.last() - 48) as u8)
    } else {
        mant_digits(m.drop_last())
    }
}

/// Number of decimal points.
pub open spec fn dots(m: Seq<u8>) -> nat
    decreases m.len(),
{
    if m.len() == 0 {
        0
    } else if m.last() == 46 {
        dots(m.drop_last()) + 1
    } else {
        dots(m.drop_last())
    }
}

/// Number of digits before the decimal point.
pub open spec fn int_digits(m: Seq<u8>) -> nat
    decreases m.len(),
{
    if m.len() == 0 {
        0
    } else if dots(m.drop_last()) == 0 && is_digit(m.last()) {
        int_digits(m.drop_last()) + 1
    } else {
        int_digits(m.drop_last())
    }
}

/// A mantissa: digits and at most one point, with at least one digit.
pub open spec fn mant_ok(m: Seq<u8>) -> bool {
    &&& forall|k: int| 0 <= k < m.len() ==> is_digit(m[k]) || m[k] == 46
    &&& dots(m) <= 1
    &&& mant_digits(m).len() > 0
}

/// The integer written by decimal digit values (most significant first).
pub open spec fn digits_value(d: Seq<u8>) -> int
    decreases d.len(),
{
    if d.len() == 0 {
        0
    } else {
        digits_value(d.drop_last()) * 10 + d.last()
    }
}

/// Digit values of ASCII digits.
pub open spec fn digit_values(s: Seq<u8>) -> Seq<u8> {
    Seq::new(s.len(), |i: int| (s[i] - 48) as u8)
}

/// The exponent part after the mark: optional sign, then one to six digits.
pub open spec fn exp_part(x: Seq<u8>) -> Option<int> {
    let ds = x.skip(sign_len(x));
    if 1 <= ds.len() <= 6 && (forall|k: int| 0 <= k < ds.len() ==> is_digit(ds[k])) {
        let v = digits_value(digit_values(ds));
        Some(if sign_len(x) == 1 && x[0] == 45 { -v } else { v })
    } else {
        None
    }
}

pub open spec fn leading_zeros(d: Seq<u8>) -> nat
    decreases d.len(),
{
    if d.len() > 0 && d[0] == 0 {
        leading_zeros(d.drop_first()) + 1
    } else {
        0
    }
}

pub open spec fn trailing_zeros(d: Seq<u8>) -> nat
    decreases d.len(),
{
    if d.len() > 0 && d.last() == 0 {
        trailing_zeros(d.drop_last()) + 1
    } else {
        0
    }
}

/// Strips the zeros around the digits and checks the limits:
/// value = 0.digits × 10^exp.
pub open spec fn normalize(neg: bool, digits: Seq<u8>, exp: int) -> Option<Dec> {
    let lead = leading_zeros(digits);
    let d1 = digits.skip(lead as int);
    let d2 = d1.take(d1.len() - trailing_zeros(d1));
    if d2.len() == 0 {
        Some(Dec { neg: false, digits: Seq::empty(), exp: 0 })
    } else if d2.len() > MAX_SIGNIFICANT_DIGITS {
        None
    } else if exp - lead < EXP_MIN || exp - lead > EXP_MAX {
        None
    } else {
        Some(Dec { neg: neg, digits: d2, exp: exp - lead })
    }
}

/// The decimal written by the bytes `b`, in plain or scientific notation.
pub open spec fn parse_spec(b: Seq<u8>) -> Option<Dec> {
    let s0 = sign_len(b);
    let e = exp_mark_pos(b, s0);
    let m = b.subrange(s0, e);
    let neg = s0 == 1 && b[0] == 45;
    if !mant_ok(m) {
        None
    } else if e == b.len() {
        normalize(neg, mant_digits(m), int_digits(m) as int)
    } else {
        match exp_part(b.subrange(e + 1, b.len() as int)) {
            Some(x) => normalize(neg, mant_digits(m), int_digits(m) + x),
            None => None,
        }
    }
}

/// The text of a number as bytes.
pub open spec fn number_bytes(n: Number) -> Seq<u8> {
    utf8(n.0@)
}

/// The decimal a number stands for.
pub open spec fn number_dec(n: Number) -> Option<Dec> {
    parse_spec(number_bytes(n))
}

/// An exec normalized decimal.
pub struct Decimal {
    pub neg: bool,
    pub digits: Vec<u8>,
    pub exp: i64,
}

impl Decimal {
    pub open spec fn dec(&self) -> Dec {
        Dec { neg: self.neg, digits: self.digits@, exp: self.exp as int }
    }
}

/// Digit-wise facts about normalized decimals.
pub open spec fn dec_ok(d: Dec) -> bool {
    &&& forall|k: int| 0 <= k < d.digits.len() ==> d.digits[k] <= 9
    &&& d.digits.len() <= MAX_SIGNIFICANT_DIGITS
    &&& (d.digits.len() == 0 ==> !d.neg && d.exp == 0)
    &&& (d.digits.len() > 0 ==> d.digits[0] != 0 && d.digits.last() != 0 && EXP_MIN <= d.exp
        <= EXP_MAX)
}

proof fn lemma_mant_digits_bound(m: Seq<u8>)
    ensures
        forall|k: int| 0 <= k < mant_digits(m).len() ==> mant_digits(m)[k] <= 9,
        mant_digits(m).len() <= m.len(),
        int_digits(m) <= mant_digits(m).len(),
    decreases m.len(),
{
    if m.len() > 0 {
        lemma_mant_digits_bound(m.drop_last());
    }
}

proof fn lemma_leading_zeros(d: Seq<u8>)
    ensures
        leading_zeros(d) <= d.len(),
        forall|k: int| 0 <= k < leading_zeros(d) ==> d[k] == 0,
        leading_zeros(d) < d.len() ==> d[leading_zeros(d) as int] != 0,
    decreases d.len(),
{
    if d.len() > 0 && d[0] == 0 {
        let d1 = d.drop_first();
        lemma_leading_zeros(d1);
        assert forall|k: int| 0 <= k < leading_zeros(d) implies d[k] == 0 by {
            if k > 0 {
                assert(d1[k - 1] == d[k]);
            }
        }
    }
}

proof fn lemma_trailing_zeros(d: Seq<u8>)
    ensures
        trailing_zeros(d) <= d.len(),
        forall|k: int| d.len() - trailing_zeros(d) <= k < d.len() ==> d[k] == 0,
        trailing_zeros(d) < d.len() ==> d[d.len() - trailing_zeros(d) - 1] != 0,
    decreases d.len(),
{
    if d.len() > 0 && d.last() == 0 {
        let d1 = d.drop_last();
        lemma_trailing_zeros(d1);
        assert forall|k: int| d.len() - trailing_zeros(d) <= k < d.len() implies d[k] == 0 by {
            if k < d.len() - 1 {
                assert(d1[k] == d[k]);
            }
        }
    }
}

pub proof fn lemma_exp_mark_pos(b: Seq<u8>, i: int)
    requires
        0 <= i <= b.len(),
    ensures
        i <= exp_mark_pos(b, i) <= b.len(),
        forall|k: int| i <= k < exp_mark_pos(b, i) ==> !is_exp_mark(b[k]),
        exp_mark_pos(b, i) < b.len() ==> is_exp_mark(b[exp_mark_pos(b, i)]),
    decreases b.len() - i,
{
    if i < b.len() && !is_exp_mark(b[i]) {
        lemma_exp_mark_pos(b, i + 1);
    }
}

/// Normalized results are well formed.
pub proof fn lemma_normalize_ok(neg: bool, digits: Seq<u8>, exp: int)
    requires
        forall|k: int| 0 <= k < digits.len() ==> digits[k] <= 9,
    ensures
        normalize(neg, digits, exp) matches Some(d) ==> dec_ok(d),
{
    lemma_leading_zeros(digits);
    let lead = leading_zeros(digits);
    let d1 = digits.skip(lead as int);
    lemma_trailing_zeros(d1);
}

/// Counts leading zeros.
fn count_leading_zeros(d: &Vec<u8>) -> (n: usize)
    ensures
        n == leading_zeros(d@),
        n <= d@.len(),
{
    let mut i: usize = 0;
    proof {
        lemma_leading_zeros(d@);
    }
    assert(d@.skip(0) =~= d@);
    while i < d.len() && d[i] == 0
        invariant
            i <= d@.len(),
            forall|k: int| 0 <= k < i ==> d@[k] == 0,
            leading_zeros(d@) == i + leading_zeros(d@.skip(i as int)),
        decreases d@.len() - i,
    {
        assert(d@.skip(i as int).drop_first() =~= d@.skip(i + 1));
        i = i + 1;
    }
    assert(d@.skip(i as int).len() == 0 || d@.skip(i as int)[0] != 0);
    i
}

/// Counts trailing zeros of `d[from..]`.
fn count_trailing_zeros(d: &Vec<u8>, from: usize) -> (n: usize)
    requires
        from <= d@.len(),
    ensures
        n == trailing_zeros(d@.skip(from as int)),
        n <= d@.len() - from,
{
    let mut j: usize = d.len();
    let ghost s = d@.skip(from as int);
    assert(s.take(s.len() as int) =~= s);
    while j > from && d[j - 1] == 0
        invariant
            from <= j <= d@.len(),
            s == d@.skip(from as int),
            trailing_zeros(s) == (d@.len() - j) + trailing_zeros(s.take(j - from)),
        decreases j,
    {
        assert(s.take(j - from).drop_last() =~= s.take(j - 1 - from));
        j = j - 1;
    }
    d.len() - j
}

/// Parses a decimal in plain or scientific notation and normalizes it;
/// rejects anything else, more than 38 significant digits, and magnitudes
/// outside 1E-130 .. 9.9E+125.
#[verifier::loop_isolation(false)]
pub fn parse_decimal(s: &str) -> (r: Result<Decimal, DbError>)
    ensures
        match r {
            Ok(d) => parse_spec(utf8(s@)) == Some(d.dec()),
            Err(e) => parse_spec(utf8(s@)) is None && e is Validation,
        },
{
    let b = s.as_bytes();
    let ghost bs = b@;
    let mut i: usize = 0;
    let mut neg = false;
    if b.len() > 0 && (b[0] == 43 || b[0] == 45) {
        neg = b[0] == 45;
        i = 1;
    }
    let s0 = i;
    let ghost e = exp_mark_pos(bs, s0 as int);
    proof {
        lemma_exp_mark_pos(bs, s0 as int);
    }
    let mut digits: Vec<u8> = Vec::new();
    let mut int_len: usize = 0;
    let mut seen_dot = false;
    assert(bs.subrange(s0 as int, s0 as int) =~= Seq::<u8>::empty());
    while i < b.len() && b[i] != 101 && b[i] != 69
        invariant
            s0 == sign_len(bs),
            s0 <= i <= bs.len(),
            b@ == bs,
            e == exp_mark_pos(bs, s0 as int),
            i <= e,
            e == exp_mark_pos(bs, i as int),
            int_len <= digits@.len() <= i - s0,
            digits@ == mant_digits(bs.subrange(s0 as int, i as int)),
            int_len == int_digits(bs.subrange(s0 as int, i as int)),
            seen_dot == (dots(bs.subrange(s0 as int, i as int)) > 0),
            dots(bs.subrange(s0 as int, i as int)) <= 1,
            forall|k: int| s0 <= k < i ==> is_digit(bs[k]) || bs[k] == 46,
        decreases bs.len() - i,
    {
        let c = b[i];
        proof {
            lemma_exp_mark_pos(bs, i as int);
            lemma_exp_mark_pos(bs, i + 1);
            lemma_mant_digits_bound(bs.subrange(s0 as int, i as int));
        }
        let ghost m1 = bs.subrange(s0 as int, i + 1);
        assert(m1.drop_last() =~= bs.subrange(s0 as int, i as int));
        if 48 <= c && c <= 57 {
            digits.push(c - 48);
            if !seen_dot {
                int_len = int_len + 1;
            }
            i = i + 1;
        } else if c == 46 && !seen_dot {
            seen_dot = true;
            i = i + 1;
        } else {
            proof {
                let m = bs.subrange(s0 as int, e);
                if c == 46 {
                    lemma_dots_mono(bs, s0 as int, i + 1, e);
                } else {
                    assert(m[i - s0] == c);
                }
            }
            return Err(validation("invalid number: unexpected character"));
        }
    }
    let ghost m = bs.subrange(s0 as int, e);
    assert(i == e);
    if digits.len() == 0 {
        return Err(validation("invalid number: no digits"));
    }
    proof {
        lemma_mant_digits_bound(m);
    }
    assert(neg == (s0 == 1 && bs[0] == 45));
    if i < b.len() {
        let x = parse_exponent(b, i + 1);
        match x {
            Ok(xv) => {
                let exp_raw: i128 = (int_len as i128) + (xv as i128);
                normalize_exec(neg, digits, exp_raw)
            },
            Err(err) => Err(err),
        }
    } else {
        normalize_exec(neg, digits, int_len as i128)
    }
}

/// Parses the exponent part `b[from..]`: optional sign, then one to six digits.
#[verifier::loop_isolation(false)]
fn parse_exponent(b: &[u8], from: usize) -> (r: Result<i64, DbError>)
    requires
        from <= b@.len(),
    ensures
        match r {
            Ok(v) => exp_part(b@.subrange(from as int, b@.len() as int)) == Some(v as int),
            Err(e) => exp_part(b@.subrange(from as int, b@.len() as int)) is None && e is Validation,
        },
        r matches Ok(v) ==> -1000000 < v < 1000000,
{
    let ghost bs = b@;
    let ghost x = bs.subrange(from as int, bs.len() as int);
    let mut i = from;
    let mut exp_neg = false;
    if i < b.len() && (b[i] == 43 || b[i] == 45) {
        exp_neg = b[i] == 45;
        i = i + 1;
    }
    let start = i;
    let ghost ds = x.skip(sign_len(x));
    assert(ds =~= bs.subrange(start as int, bs.len() as int));
    assert(bs.subrange(start as int, start as int) =~= Seq::<u8>::empty());
    assert(digit_values(Seq::<u8>::empty()) =~= Seq::<u8>::empty());
    let mut v: i64 = 0;
    while i < b.len() && 48 <= b[i] && b[i] <= 57
        invariant
            start <= i <= bs.len(),
            b@ == bs,
            i - start <= 6,
            forall|k: int| start <= k < i ==> is_digit(bs[k]),
            v == digits_value(digit_values(bs.subrange(start as int, i as int))),
            0 <= v < pow10((i - start) as nat),
        decreases bs.len() - i,
    {
        if i - start >= 6 {
            proof {
                assert(!(ds.len() <= 6));
            }
            return Err(validation("invalid number: exponent out of range"));
        }
        let ghost pre = bs.subrange(start as int, i as int);
        assert(digit_values(bs.subrange(start as int, i + 1)).drop_last() =~= digit_values(pre));
        proof {
            lemma_pow10_step((i - start) as nat);
        }
        v = v * 10 + ((b[i] - 48) as i64);
        i = i + 1;
    }
    if i == start || i != b.len() {
        proof {
            if i != bs.len() {
                assert(!is_digit(ds[i - start]));
            }
        }
        return Err(validation("invalid number: malformed exponent"));
    }
    assert(bs.subrange(start as int, i as int) =~= ds);
    proof {
        reveal_with_fuel(pow10, 7);
    }
    if exp_neg {
        Ok(-v)
    } else {
        Ok(v)
    }
}

/// Strips zeros around `digits` and checks the limits.
pub fn normalize_exec(neg: bool, digits: Vec<u8>, exp_raw: i128) -> (r: Result<Decimal, DbError>)
    requires
        forall|k: int| 0 <= k < digits@.len() ==> digits@[k] <= 9,
        -10000000 - digits@.len() < exp_raw < 10000000 + digits@.len(),
    ensures
        match r {
            Ok(d) => normalize(neg, digits@, exp_raw as int) == Some(d.dec()),
            Err(e) => normalize(neg, digits@, exp_raw as int) is None && e is Validation,
        },
{
    let lead = count_leading_zeros(&digits);
    if lead == digits.len() {
        proof {
            lemma_leading_zeros(digits@);
            assert(digits@.skip(lead as int).len() == 0);
        }
        let r = Decimal { neg: false, digits: Vec::new(), exp: 0 };
        assert(r.dec().digits =~= Seq::<u8>::empty());
        return Ok(r);
    }
    let trail = count_trailing_zeros(&digits, lead);
    let mut out: Vec<u8> = Vec::new();
    let end = digits.len() - trail;
    proof {
        let d1 = digits@.skip(lead as int);
        lemma_leading_zeros(digits@);
        lemma_trailing_zeros(d1);
        assert(d1[0] != 0);
        if trail == d1.len() {
            assert(d1[0] == 0);
        }
    }
    let mut k: usize = lead;
    while k < end
        invariant
            lead <= k <= end <= digits@.len(),
            out@ == digits@.subrange(lead as int, k as int),
        decreases end - k,
    {
        out.push(digits[k]);
        k = k + 1;
        assert(out@ =~= digits@.subrange(lead as int, k as int));
    }
    assert(out@ =~= digits@.skip(lead as int).take(digits@.skip(lead as int).len() - trail));
    if out.len() > MAX_SIGNIFICANT_DIGITS {
        return Err(validation("invalid number: exceeds 38 significant digits"));
    }
    let exp = exp_raw - (lead as i128);
    if exp < (EXP_MIN as i128) || exp > (EXP_MAX as i128) {
        return Err(validation("invalid number: magnitude out of range (1E-130..9.9E+125)"));
    }
    Ok(Decimal { neg, digits: out, exp: exp as i64 })
}

pub open spec fn pow10(k: nat) -> int
    decreases k,
{
    if k == 0 {
        1
    } else {
        10 * pow10((k - 1) as nat)
    }
}

proof fn lemma_pow10_step(k: nat)
    requires
        k < 6,
    ensures
        pow10(k) <= 100000,
        pow10(k + 1) == 10 * pow10(k),
{
    reveal_with_fuel(pow10, 7);
}

proof fn lemma_dots_mono(b: Seq<u8>, s0: int, i: int, e: int)
    requires
        0 <= s0 <= i <= e <= b.len(),
    ensures
        dots(b.subrange(s0, i)) <= dots(b.subrange(s0, e)),
    decreases e - i,
{
    if i < e {
        assert(b.subrange(s0, e).drop_last() =~= b.subrange(s0, e - 1));
        lemma_dots_mono(b, s0, i, e - 1);
    }
}

} // verus!

verus! {

/// -1, 0 or 1.
pub open spec fn dec_sign(d: Dec) -> int {
    if d.digits.len() == 0 {
        0
    } else if d.neg {
        -1
    } else {
        1
    }
}

/// Numeric three-way comparison of normalized decimals: by sign, then by
/// exponent, then by digits (the digits of the greater magnitude win).
pub open spec fn dec_order(x: Dec, y: Dec) -> int {
    let sx = dec_sign(x);
    let sy = dec_sign(y);
    if sx != sy {
        if sx < sy {
            -1
        } else {
            1
        }
    } else if sx == 0 {
        0
    } else {
        let mag = if x.exp != y.exp {
            if x.exp < y.exp {
                -1
            } else {
                1
            }
        } else {
            lex_order(x.digits, y.digits)
        };
        if sx < 0 {
            -mag
        } else {
            mag
        }
    }
}

pub open spec fn ordering_of(c: int) -> Ordering {
    if c < 0 {
        Ordering::Less
    } else if c == 0 {
        Ordering::Equal
    } else {
        Ordering::Greater
    }
}

fn sign(d: &Decimal) -> (r: i8)
    ensures
        r as int == dec_sign(d.dec()),
{
    if d.digits.len() == 0 {
        0
    } else if d.neg {
        -1
    } else {
        1
    }
}

/// Three-way numeric comparison of two parsed decimals.
pub fn decimal_order(x: &Decimal, y: &Decimal) -> (r: i8)
    ensures
        r as int == dec_order(x.dec(), y.dec()),
{
    let sx = sign(x);
    let sy = sign(y);
    if sx != sy {
        return if sx < sy { -1 } else { 1 };
    }
    if sx == 0 {
        return 0;
    }
    let mag: i8 = if x.exp != y.exp {
        if x.exp < y.exp { -1 } else { 1 }
    } else {
        compare_bytes(x.digits.as_slice(), y.digits.as_slice())
    };
    proof {
        lemma_lex_order_antisym(x.digits@, y.digits@);
    }
    if sx < 0 {
        -mag
    } else {
        mag
    }
}

/// Compares two N values numerically ("1200" > "999", "1.0" == "1").
pub fn compare(a: &Number, b: &Number) -> (r: Result<Ordering, DbError>)
    ensures
        match r {
            Ok(o) => number_dec(*a) is Some && number_dec(*b) is Some && o == ordering_of(
                dec_order(number_dec(*a)->0, number_dec(*b)->0),
            ),
            Err(e) => (number_dec(*a) is None || number_dec(*b) is None) && e is Validation,
        },
{
    let x = parse_decimal(a.0.as_str())?;
    let y = parse_decimal(b.0.as_str())?;
    let c = decimal_order(&x, &y);
    if c < 0 {
        Ok(Ordering::Less)
    } else if c == 0 {
        Ok(Ordering::Equal)
    } else {
        Ok(Ordering::Greater)
    }
}

/// Three-way numeric comparison of two N values: -1, 0 or 1.
pub fn number_order(a: &Number, b: &Number) -> (r: Result<i8, DbError>)
    ensures
        match r {
            Ok(c) => number_dec(*a) is Some && number_dec(*b) is Some && c == dec_order(
                number_dec(*a)->0,
                number_dec(*b)->0,
            ),
            Err(e) => (number_dec(*a) is None || number_dec(*b) is None) && e is Validation,
        },
{
    let x = parse_decimal(a.0.as_str())?;
    let y = parse_decimal(b.0.as_str())?;
    Ok(decimal_order(&x, &y))
}

/// Parses a number's text.
pub fn parse_number(n: &Number) -> (r: Result<Decimal, DbError>)
    ensures
        match r {
            Ok(d) => number_dec(*n) == Some(d.dec()),
            Err(e) => number_dec(*n) is None && e is Validation,
        },
{
    parse_decimal(n.0.as_str())
}

/// ASCII text of digit values.
pub open spec fn digit_text(d: Seq<u8>) -> Seq<u8> {
    Seq::new(d.len(), |i: int| (d[i] + 48) as u8)
}

/// `k` zeros as text.
pub open spec fn zero_text(k: nat) -> Seq<u8> {
    Seq::new(k, |i: int| 48u8)
}

/// The canonical plain text of a decimal: "0", "1.23", "-0.005", "12300".
pub open spec fn format_spec(neg: bool, digits: Seq<u8>, exp: int) -> Seq<u8> {
    if digits.len() == 0 {
        seq![48u8]
    } else {
        let n = digits.len() as int;
        let body = if exp >= n {
            digit_text(digits) + zero_text((exp - n) as nat)
        } else if exp >= 1 {
            digit_text(digits.take(exp)) + seq![46u8] + digit_text(digits.skip(exp))
        } else {
            seq![48u8, 46u8] + zero_text((-exp) as nat) + digit_text(digits)
        };
        if neg {
            seq![45u8] + body
        } else {
            body
        }
    }
}

fn push_digits(out: &mut Vec<u8>, d: &[u8], from: usize, to: usize)
    requires
        from <= to <= d@.len(),
        forall|k: int| 0 <= k < d@.len() ==> d@[k] <= 9,
    ensures
        final(out)@ == old(out)@ + digit_text(d@.subrange(from as int, to as int)),
{
    let mut i = from;
    let ghost o = out@;
    while i < to
        invariant
            from <= i <= to <= d@.len(),
            forall|k: int| 0 <= k < d@.len() ==> d@[k] <= 9,
            out@ == o + digit_text(d@.subrange(from as int, i as int)),
        decreases to - i,
    {
        out.push(d[i] + 48);
        i = i + 1;
        assert(out@ =~= o + digit_text(d@.subrange(from as int, i as int)));
    }
}

fn push_zeros(out: &mut Vec<u8>, k: usize)
    ensures
        final(out)@ == old(out)@ + zero_text(k as nat),
{
    let mut i: usize = 0;
    let ghost o = out@;
    while i < k
        invariant
            i <= k,
            out@ == o + zero_text(i as nat),
        decreases k - i,
    {
        out.push(48);
        i = i + 1;
        assert(out@ =~= o + zero_text(i as nat));
    }
}

/// Canonical plain text of a normalized decimal.
pub fn format_decimal(neg: bool, digits: &[u8], exp: i64) -> (s: String)
    requires
        forall|k: int| 0 <= k < digits@.len() ==> digits@[k] <= 9,
        EXP_MIN <= exp <= EXP_MAX,
    ensures
        utf8(s@) == format_spec(neg, digits@, exp as int),
{
    let mut out: Vec<u8> = Vec::new();
    if digits.len() == 0 {
        out.push(48);
        assert(out@ =~= seq![48u8]);
        return ascii_string(out);
    }
    if neg {
        out.push(45);
    }
    let ghost pre = out@;
    let n = digits.len() as i128;
    let e = exp as i128;
    if e >= n {
        push_digits(&mut out, digits, 0, digits.len());
        push_zeros(&mut out, (e - n) as usize);
        assert(digits@.subrange(0, digits@.len() as int) =~= digits@);
    } else if e >= 1 {
        push_digits(&mut out, digits, 0, exp as usize);
        out.push(46);
        push_digits(&mut out, digits, exp as usize, digits.len());
        assert(digits@.subrange(0, exp as int) =~= digits@.take(exp as int));
        assert(digits@.subrange(exp as int, digits@.len() as int) =~= digits@.skip(exp as int));
    } else {
        out.push(48);
        out.push(46);
        push_zeros(&mut out, (-exp) as usize);
        push_digits(&mut out, digits, 0, digits.len());
        assert(digits@.subrange(0, digits@.len() as int) =~= digits@);
    }
    assert(out@ =~= format_spec(neg, digits@, exp as int));
    assert(ascii_bytes(out@)) by {
        assert forall|k: int| 0 <= k < out@.len() implies out@[k] < 128 by {
            assert(out@ == format_spec(neg, digits@, exp as int));
        }
    }
    ascii_string(out)
}

/// The canonical text of an N value ("1.0" → "1", "1e3" → "1000").
pub fn canonicalize(n: &Number) -> (r: Result<Number, DbError>)
    ensures
        match r {
            Ok(c) => number_dec(*n) matches Some(d) && utf8(c.0@) == format_spec(
                d.neg,
                d.digits,
                d.exp,
            ) && number_dec(c) == Some(d),
            Err(e) => number_dec(*n) is None && e is Validation,
        },
{
    let d = parse_number(n)?;
    proof {
        lemma_parse_ok(number_bytes(*n));
        lemma_format_round_trip(d.dec());
    }
    Ok(Number(format_decimal(d.neg, d.digits.as_slice(), d.exp)))
}

/// Parsed decimals are well formed.
pub proof fn lemma_parse_ok(b: Seq<u8>)
    ensures
        parse_spec(b) matches Some(d) ==> dec_ok(d),
{
    let s0 = sign_len(b);
    let e = exp_mark_pos(b, s0);
    lemma_exp_mark_pos(b, s0);
    let m = b.subrange(s0, e);
    lemma_mant_digits_bound(m);
    let neg = s0 == 1 && b[0] == 45;
    if e == b.len() {
        lemma_normalize_ok(neg, mant_digits(m), int_digits(m) as int);
    } else if let Some(x) = exp_part(b.subrange(e + 1, b.len() as int)) {
        lemma_normalize_ok(neg, mant_digits(m), int_digits(m) + x);
    }
}

} // verus!

verus! {

/// `k` zero digit values.
pub open spec fn zeros(k: nat) -> Seq<u8> {
    Seq::new(k, |i: int| 0u8)
}

proof fn lemma_mant_concat(a: Seq<u8>, b: Seq<u8>)
    ensures
        mant_digits(a + b) == mant_digits(a) + mant_digits(b),
        dots(a + b) == dots(a) + dots(b),
        int_digits(a + b) == int_digits(a) + (if dots(a) == 0 {
            int_digits(b)
        } else {
            0
        }),
    decreases b.len(),
{
    if b.len() == 0 {
        assert(a + b =~= a);
        assert(mant_digits(a) + mant_digits(b) =~= mant_digits(a));
    } else {
        let b1 = b.drop_last();
        assert((a + b).drop_last() =~= a + b1);
        assert((a + b).last() == b.last());
        lemma_mant_concat(a, b1);
        if is_digit(b.last()) {
            assert(mant_digits(a) + mant_digits(b) =~= (mant_digits(a) + mant_digits(b1)).push(
                (b.last() - 48) as u8,
            ));
        } else {
            assert(mant_digits(a) + mant_digits(b) =~= mant_digits(a) + mant_digits(b1));
        }
    }
}

pub proof fn lemma_digit_text(d: Seq<u8>)
    requires
        forall|k: int| 0 <= k < d.len() ==> d[k] <= 9,
    ensures
        mant_digits(digit_text(d)) == d,
        dots(digit_text(d)) == 0,
        int_digits(digit_text(d)) == d.len(),
        forall|k: int| 0 <= k < d.len() ==> is_digit(#[trigger] digit_text(d)[k]),
    decreases d.len(),
{
    if d.len() > 0 {
        let d1 = d.drop_last();
        assert(digit_text(d).drop_last() =~= digit_text(d1));
        lemma_digit_text(d1);
        assert(mant_digits(digit_text(d)) =~= d1.push(d.last()));
        assert(d1.push(d.last()) =~= d);
    } else {
        assert(digit_text(d) =~= Seq::<u8>::empty());
    }
}

proof fn lemma_dot_text()
    ensures
        mant_digits(seq![46u8]) == Seq::<u8>::empty(),
        dots(seq![46u8]) == 1,
        int_digits(seq![46u8]) == 0,
{
    let t = seq![46u8];
    assert(t.drop_last() =~= Seq::<u8>::empty());
    assert(t.last() == 46u8);
    assert(!is_digit(t.last()));
    assert(mant_digits(Seq::<u8>::empty()) == Seq::<u8>::empty());
    assert(dots(Seq::<u8>::empty()) == 0);
    assert(int_digits(Seq::<u8>::empty()) == 0);
}

pub proof fn lemma_leading_zeros_prefix(k: nat, d: Seq<u8>)
    requires
        d.len() > 0,
        d[0] != 0,
    ensures
        leading_zeros(zeros(k) + d) == k,
        (zeros(k) + d).skip(k as int) == d,
    decreases k,
{
    assert((zeros(k) + d).skip(k as int) =~= d);
    if k > 0 {
        assert((zeros(k) + d).drop_first() =~= zeros((k - 1) as nat) + d);
        lemma_leading_zeros_prefix((k - 1) as nat, d);
    }
}

proof fn lemma_trailing_zeros_suffix(d: Seq<u8>, k: nat)
    requires
        d.len() > 0,
        d.last() != 0,
    ensures
        trailing_zeros(d + zeros(k)) == k,
        (d + zeros(k)).take(d.len() as int) == d,
    decreases k,
{
    assert((d + zeros(k)).take(d.len() as int) =~= d);
    if k > 0 {
        assert((d + zeros(k)).drop_last() =~= d + zeros((k - 1) as nat));
        lemma_trailing_zeros_suffix(d, (k - 1) as nat);
    } else {
        assert(d + zeros(k) =~= d);
    }
}

/// The text of a non-zero decimal without its sign.
pub open spec fn format_body(digits: Seq<u8>, exp: int) -> Seq<u8> {
    let n = digits.len() as int;
    if exp >= n {
        digit_text(digits) + zero_text((exp - n) as nat)
    } else if exp >= 1 {
        digit_text(digits.take(exp)) + seq![46u8] + digit_text(digits.skip(exp))
    } else {
        seq![48u8, 46u8] + zero_text((-exp) as nat) + digit_text(digits)
    }
}

/// What the body of the text reads back as.
pub open spec fn body_reads_back(d: Dec) -> bool {
    let body = format_body(d.digits, d.exp);
    &&& forall|j: int| 0 <= j < body.len() ==> is_digit(#[trigger] body[j]) || body[j] == 46
    &&& mant_ok(body)
    &&& normalize(d.neg, mant_digits(body), int_digits(body) as int) == Some(d)
}

proof fn lemma_body_large(d: Dec)
    requires
        dec_ok(d),
        d.digits.len() > 0,
        d.exp >= d.digits.len(),
    ensures
        body_reads_back(d),
{
    let n = d.digits.len() as int;
    let k = (d.exp - n) as nat;
    let body = format_body(d.digits, d.exp);
    lemma_digit_text(d.digits);
    assert(zero_text(k) =~= digit_text(zeros(k)));
    lemma_digit_text(zeros(k));
    lemma_mant_concat(digit_text(d.digits), zero_text(k));
    lemma_trailing_zeros_suffix(d.digits, k);
    let md = d.digits + zeros(k);
    assert(mant_digits(body) == md);
    assert(md[0] != 0);
    assert(leading_zeros(md) == 0);
    assert(md.skip(0) =~= md);
    assert forall|j: int| 0 <= j < body.len() implies is_digit(#[trigger] body[j]) || body[j] == 46 by {
        if j < n {
            assert(body[j] == digit_text(d.digits)[j]);
        } else {
            assert(body[j] == zero_text(k)[j - n]);
            assert(is_digit(digit_text(zeros(k))[j - n]));
        }
    }
}

proof fn lemma_body_middle(d: Dec)
    requires
        dec_ok(d),
        d.digits.len() > 0,
        1 <= d.exp < d.digits.len(),
    ensures
        body_reads_back(d),
{
    let n = d.digits.len() as int;
    let body = format_body(d.digits, d.exp);
    let hi = d.digits.take(d.exp);
    let lo = d.digits.skip(d.exp);
    lemma_digit_text(hi);
    lemma_digit_text(lo);
    lemma_dot_text();
    lemma_mant_concat(digit_text(hi), seq![46u8]);
    lemma_mant_concat(digit_text(hi) + seq![46u8], digit_text(lo));
    assert(hi + lo =~= d.digits);
    assert(mant_digits(body) =~= d.digits);
    assert(leading_zeros(d.digits) == 0);
    assert(d.digits.skip(0) =~= d.digits);
    assert(trailing_zeros(d.digits) == 0);
    assert(d.digits.take(n) =~= d.digits);
    assert forall|j: int| 0 <= j < body.len() implies is_digit(#[trigger] body[j]) || body[j] == 46 by {
        if j < d.exp {
            assert(body[j] == digit_text(hi)[j]);
        } else if j > d.exp {
            assert(body[j] == digit_text(lo)[j - d.exp - 1]);
        }
    }
}

proof fn lemma_body_small(d: Dec)
    requires
        dec_ok(d),
        d.digits.len() > 0,
        d.exp < 1,
    ensures
        body_reads_back(d),
{
    let n = d.digits.len() as int;
    let k = (-d.exp) as nat;
    let body = format_body(d.digits, d.exp);
    lemma_digit_text(d.digits);
    assert(zero_text(k) =~= digit_text(zeros(k)));
    lemma_digit_text(zeros(k));
    lemma_digit_text(seq![0u8]);
    assert(digit_text(seq![0u8]) =~= seq![48u8]);
    lemma_dot_text();
    assert(seq![48u8, 46u8] =~= seq![48u8] + seq![46u8]);
    lemma_mant_concat(seq![48u8], seq![46u8]);
    lemma_mant_concat(seq![48u8, 46u8], zero_text(k));
    lemma_mant_concat(seq![48u8, 46u8] + zero_text(k), digit_text(d.digits));
    lemma_leading_zeros_prefix(k + 1, d.digits);
    assert(zeros(k + 1) =~= seq![0u8] + zeros(k));
    assert(mant_digits(body) =~= zeros(k + 1) + d.digits);
    assert(trailing_zeros(d.digits) == 0);
    assert(d.digits.take(n) =~= d.digits);
    assert forall|j: int| 0 <= j < body.len() implies is_digit(#[trigger] body[j]) || body[j] == 46 by {
        if 2 <= j < 2 + k {
            assert(body[j] == zero_text(k)[j - 2]);
            assert(is_digit(digit_text(zeros(k))[j - 2]));
        } else if j >= 2 + k {
            assert(body[j] == digit_text(d.digits)[j - 2 - k]);
        }
    }
}

/// The canonical text of a normalized decimal reads back as that decimal.
pub proof fn lemma_format_round_trip(d: Dec)
    requires
        dec_ok(d),
    ensures
        parse_spec(format_spec(d.neg, d.digits, d.exp)) == Some(d),
{
    let b = format_spec(d.neg, d.digits, d.exp);
    let n = d.digits.len() as int;
    if n == 0 {
        assert(b == seq![48u8]);
        lemma_exp_mark_pos(b, 0);
        assert(b.subrange(0, 1) =~= b);
        lemma_digit_text(seq![0u8]);
        assert(digit_text(seq![0u8]) =~= seq![48u8]);
        assert(mant_digits(b) =~= seq![0u8]);
        assert(leading_zeros(seq![0u8].drop_first()) == 0);
        assert(seq![0u8].skip(1) =~= Seq::<u8>::empty());
        assert(d.digits =~= Seq::<u8>::empty());
        return;
    }
    if d.exp >= n {
        lemma_body_large(d);
    } else if d.exp >= 1 {
        lemma_body_middle(d);
    } else {
        lemma_body_small(d);
    }
    let body = format_body(d.digits, d.exp);
    let s0: int = if d.neg { 1 } else { 0 };
    assert(b == if d.neg { seq![45u8] + body } else { body });
    assert(b.subrange(s0, b.len() as int) =~= body);
    assert(body.len() > 0);
    assert(is_digit(body[0]) || body[0] == 46);
    assert(sign_len(b) == s0);
    lemma_exp_mark_pos(b, s0);
    let e = exp_mark_pos(b, s0);
    if e < b.len() {
        assert(is_exp_mark(b[e]));
        assert(b[e] == body[e - s0]);
    }
    assert(e == b.len());
}

} // verus!

verus! {

/// The numeric order is antisymmetric.
pub proof fn lemma_dec_order_antisym(x: Dec, y: Dec)
    ensures
        dec_order(x, y) == -dec_order(y, x),
        -1 <= dec_order(x, y) <= 1,
{
    lemma_lex_order_antisym(x.digits, y.digits);
}

/// The numeric order is transitive.
pub proof fn lemma_dec_order_trans(x: Dec, y: Dec, z: Dec)
    requires
        dec_order(x, y) < 0,
        dec_order(y, z) < 0,
    ensures
        dec_order(x, z) < 0,
{
    let (sx, sy, sz) = (dec_sign(x), dec_sign(y), dec_sign(z));
    if sx == sy && sy == sz && sx != 0 && x.exp == y.exp && y.exp == z.exp {
        if sx > 0 {
            lemma_lex_order_trans(x.digits, y.digits, z.digits);
        } else {
            lemma_lex_order_antisym(x.digits, y.digits);
            lemma_lex_order_antisym(y.digits, z.digits);
            lemma_lex_order_antisym(x.digits, z.digits);
            lemma_lex_order_trans(z.digits, y.digits, x.digits);
        }
    }
}

/// Normalized decimals of equal value are the same decimal.
pub proof fn lemma_dec_order_eq(x: Dec, y: Dec)
    requires
        dec_ok(x),
        dec_ok(y),
    ensures
        (dec_order(x, y) == 0) <==> (x == y),
{
    lemma_lex_order_eq(x.digits, y.digits);
    lemma_lex_order_antisym(x.digits, y.digits);
    if dec_order(x, y) == 0 && dec_sign(x) == 0 {
        assert(x.digits =~= y.digits);
    }
}

/// Where the leading zeros of a digit string end.
pub proof fn lemma_leading_zeros_facts(d: Seq<u8>)
    ensures
        leading_zeros(d) <= d.len(),
        forall|k: int| 0 <= k < leading_zeros(d) ==> d[k] == 0,
        leading_zeros(d) < d.len() ==> d[leading_zeros(d) as int] != 0,
{
    lemma_leading_zeros(d);
}

/// Where the trailing zeros of a digit string begin.
pub proof fn lemma_trailing_zeros_facts(d: Seq<u8>)
    ensures
        trailing_zeros(d) <= d.len(),
        forall|k: int| d.len() - trailing_zeros(d) <= k < d.len() ==> d[k] == 0,
        trailing_zeros(d) < d.len() ==> d[d.len() - trailing_zeros(d) - 1] != 0,
{
    lemma_trailing_zeros(d);
}

} // verus!
