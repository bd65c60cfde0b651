//! Order-preserving key encoding.
//!
//! Each value is self-delimiting: type tag, body, terminator. Concatenating the
//! encodings of (pk, sk) keeps the tuple order as the lexicographic byte order.
//!
//! - S / B: tag, payload with 0x00 escaped as 0x00 0xFF, terminator 0x00.
//! - N: tag, sign class (negative < zero < positive), biased exponent, digits
//!   shifted by one, terminator; for negatives every byte after the class is
//!   inverted so that the order reverses.
use vstd::prelude::*;
use crate::domain::attribute::{AttributeValue, Model, Number};
use crate::domain::byte_order::{lex_order, lemma_lex_order_common_prefix};
use crate::domain::error::{DbError, validation};
use crate::domain::number::{
    Dec, dec_ok, dec_order, dec_sign, format_decimal, format_spec, parse_spec, parse_number,
    number_dec, EXP_MIN, EXP_MAX, lemma_parse_ok,
};
use crate::domain::text::{utf8, string_from_utf8};
use vstd::utf8::{valid_utf8, decode_utf8};

verus! {

pub const TAG_N: u8 = 0x08;
pub const TAG_S: u8 = 0x10;
pub const TAG_B: u8 = 0x18;
pub const TERM: u8 = 0x00;
pub const NEG_TERM: u8 = 0xFF;
pub const CLASS_NEG: u8 = 0x01;
pub const CLASS_ZERO: u8 = 0x02;
pub const CLASS_POS: u8 = 0x03;
pub const EXP_BIAS: i64 = 129;

/// The escaping of a payload: 0x00 becomes 0x00 0xFF.
pub open spec fn escape(p: Seq<u8>) -> Seq<u8>
    decreases p.len(),
{
    if p.len() == 0 {
        Seq::empty()
    } else {
        escape_byte(p[0]) + escape(p.drop_first())
    }
}

pub open spec fn escape_byte(b: u8) -> Seq<u8> {
    if b == 0 {
        seq![0u8, 0xFFu8]
    } else {
        seq![b]
    }
}

/// An S or B value's encoding.
pub open spec fn enc_bytes(tag: u8, p: Seq<u8>) -> Seq<u8> {
    seq![tag] + escape(p) + seq![TERM]
}

/// An N value's encoding.
pub open spec fn enc_number(d: Dec) -> Seq<u8> {
    if d.digits.len() == 0 {
        seq![TAG_N, CLASS_ZERO, TERM]
    } else if !d.neg {
        seq![TAG_N, CLASS_POS, (d.exp + EXP_BIAS) as u8] + Seq::new(
            d.digits.len(),
            |i: int| (d.digits[i] + 1) as u8,
        ) + seq![TERM]
    } else {
        seq![TAG_N, CLASS_NEG, (0xFF - (d.exp + EXP_BIAS)) as u8] + Seq::new(
            d.digits.len(),
            |i: int| (0xFF - (d.digits[i] + 1)) as u8,
        ) + seq![NEG_TERM]
    }
}

/// The encoding of a value; `None` for types that cannot be keys or for
/// malformed numbers.
pub open spec fn enc_value(m: Model) -> Option<Seq<u8>> {
    match m {
        Model::S(s) => Some(enc_bytes(TAG_S, utf8(s))),
        Model::B(b) => Some(enc_bytes(TAG_B, b)),
        Model::N(t) => match parse_spec(utf8(t)) {
            Some(d) => Some(enc_number(d)),
            None => None,
        },
        _ => None,
    }
}

/// The encoding of a (pk, sk?) key.
pub open spec fn enc_key(pk: Model, sk: Option<Model>) -> Option<Seq<u8>> {
    match enc_value(pk) {
        None => None,
        Some(a) => match sk {
            None => Some(a),
            Some(s) => match enc_value(s) {
                None => None,
                Some(b) => Some(a + b),
            },
        },
    }
}

proof fn lemma_escape_append(a: Seq<u8>, b: Seq<u8>)
    ensures
        escape(a + b) == escape(a) + escape(b),
    decreases a.len(),
{
    if a.len() == 0 {
        assert(a + b =~= b);
        assert(escape(a) + escape(b) =~= escape(b));
    } else {
        assert((a + b).drop_first() =~= a.drop_first() + b);
        lemma_escape_append(a.drop_first(), b);
        assert(escape(a) + escape(b) =~= escape_byte(a[0]) + (escape(a.drop_first()) + escape(b)));
    }
}

/// Encodes an S or B payload.
fn encode_bytes(tag: u8, payload: &[u8]) -> (r: Vec<u8>)
    ensures
        r@ == enc_bytes(tag, payload@),
{
    let mut out: Vec<u8> = Vec::new();
    out.push(tag);
    let mut i: usize = 0;
    assert(payload@.take(0) =~= Seq::<u8>::empty());
    while i < payload.len()
        invariant
            i <= payload@.len(),
            out@ == seq![tag] + escape(payload@.take(i as int)),
        decreases payload@.len() - i,
    {
        let b = payload[i];
        out.push(b);
        if b == 0 {
            out.push(0xFF);
        }
        proof {
            assert(payload@.take(i + 1) =~= payload@.take(i as int) + seq![b]);
            lemma_escape_append(payload@.take(i as int), seq![b]);
            assert(escape(seq![b]) =~= escape_byte(b)) by {
                assert(seq![b].drop_first() =~= Seq::<u8>::empty());
                assert(escape(Seq::<u8>::empty()) =~= Seq::<u8>::empty());
                assert(seq![b][0] == b);
                assert(escape(seq![b]) == escape_byte(b) + escape(Seq::<u8>::empty()));
            }
        }
        i = i + 1;
        assert(out@ =~= seq![tag] + escape(payload@.take(i as int)));
    }
    out.push(TERM);
    assert(payload@.take(i as int) =~= payload@);
    assert(out@ =~= enc_bytes(tag, payload@));
    out
}

/// Encodes a parsed decimal.
fn encode_decimal(neg: bool, digits: &Vec<u8>, exp: i64) -> (r: Vec<u8>)
    requires
        dec_ok(Dec { neg, digits: digits@, exp: exp as int }),
    ensures
        r@ == enc_number(Dec { neg, digits: digits@, exp: exp as int }),
{
    let mut out: Vec<u8> = Vec::new();
    out.push(TAG_N);
    if digits.len() == 0 {
        out.push(CLASS_ZERO);
        out.push(TERM);
        assert(out@ =~= seq![TAG_N, CLASS_ZERO, TERM]);
        return out;
    }
    let exp_byte = (exp + EXP_BIAS) as u8;
    if !neg {
        out.push(CLASS_POS);
        out.push(exp_byte);
        let mut i: usize = 0;
        while i < digits.len()
            invariant
                i <= digits@.len(),
                forall|k: int| 0 <= k < digits@.len() ==> digits@[k] <= 9,
                out@ == seq![TAG_N, CLASS_POS, exp_byte] + Seq::new(
                    i as nat,
                    |j: int| (digits@[j] + 1) as u8,
                ),
            decreases digits@.len() - i,
        {
            out.push(digits[i] + 1);
            i = i + 1;
            assert(out@ =~= seq![TAG_N, CLASS_POS, exp_byte] + Seq::new(
                i as nat,
                |j: int| (digits@[j] + 1) as u8,
            ));
        }
        out.push(TERM);
    } else {
        out.push(CLASS_NEG);
        out.push(0xFF - exp_byte);
        let mut i: usize = 0;
        while i < digits.len()
            invariant
                i <= digits@.len(),
                forall|k: int| 0 <= k < digits@.len() ==> digits@[k] <= 9,
                out@ == seq![TAG_N, CLASS_NEG, (0xFF - exp_byte) as u8] + Seq::new(
                    i as nat,
                    |j: int| (0xFF - (digits@[j] + 1)) as u8,
                ),
            decreases digits@.len() - i,
        {
            out.push(0xFF - (digits[i] + 1));
            i = i + 1;
            assert(out@ =~= seq![TAG_N, CLASS_NEG, (0xFF - exp_byte) as u8] + Seq::new(
                i as nat,
                |j: int| (0xFF - (digits@[j] + 1)) as u8,
            ));
        }
        out.push(NEG_TERM);
    }
    assert(out@ =~= enc_number(Dec { neg, digits: digits@, exp: exp as int }));
    out
}

/// Encodes an N value; a malformed number is a validation error.
fn encode_number(n: &Number) -> (r: Result<Vec<u8>, DbError>)
    ensures
        match r {
            Ok(b) => number_dec(*n) matches Some(d) && b@ == enc_number(d),
            Err(e) => number_dec(*n) is None && e is Validation,
        },
{
    let d = parse_number(n)?;
    proof {
        lemma_parse_ok(crate::domain::number::number_bytes(*n));
    }
    Ok(encode_decimal(d.neg, &d.digits, d.exp))
}

/// Encodes one key value. Only S, N and B can be keys.
pub fn encode_value(v: &AttributeValue) -> (r: Result<Vec<u8>, DbError>)
    ensures
        match r {
            Ok(b) => enc_value(v@) == Some(b@),
            Err(e) => enc_value(v@) is None && e is Validation,
        },
{
    match v {
        AttributeValue::S(s) => Ok(encode_bytes(TAG_S, s.as_str().as_bytes())),
        AttributeValue::B(b) => Ok(encode_bytes(TAG_B, b.as_slice())),
        AttributeValue::N(n) => encode_number(n),
        _ => Err(validation("key attribute must be S/N/B")),
    }
}

/// Encodes pk (+ sk) as one order-preserving key.
pub fn encode_key(pk: &AttributeValue, sk: Option<&AttributeValue>) -> (r: Result<Vec<u8>, DbError>)
    ensures
        match r {
            Ok(b) => enc_key(pk@, match sk { Some(s) => Some(s@), None => None }) == Some(b@),
            Err(e) => enc_key(pk@, match sk { Some(s) => Some(s@), None => None }) is None
                && e is Validation,
        },
{
    let mut out = encode_value(pk)?;
    if let Some(sk) = sk {
        let mut tail = encode_value(sk)?;
        out.append(&mut tail);
    }
    Ok(out)
}

} // verus!

verus! {

/// Reads an escaped payload up to its terminator: the payload and the number of
/// bytes used (terminator included); `None` when no terminator comes.
pub open spec fn unescape(b: Seq<u8>) -> Option<(Seq<u8>, int)>
    decreases b.len(),
{
    if b.len() == 0 {
        None
    } else if b[0] == 0 {
        if b.len() > 1 && b[1] == 0xFF {
            match unescape(b.skip(2)) {
                Some((p, n)) => Some((seq![0u8] + p, n + 2)),
                None => None,
            }
        } else {
            Some((Seq::empty(), 1))
        }
    } else {
        match unescape(b.drop_first()) {
            Some((p, n)) => Some((seq![b[0]] + p, n + 1)),
            None => None,
        }
    }
}

/// Reads N digits up to the terminator: each stored byte must stand for a
/// digit; the digits and the bytes used (terminator included).
pub open spec fn read_digits(b: Seq<u8>, neg: bool) -> Option<(Seq<u8>, int)>
    decreases b.len(),
{
    if b.len() == 0 {
        None
    } else if b[0] == (if neg { NEG_TERM } else { TERM }) {
        Some((Seq::empty(), 1))
    } else {
        let dg: int = if neg { 0xFF - b[0] } else { b[0] as int };
        if 1 <= dg <= 10 {
            match read_digits(b.drop_first(), neg) {
                Some((d, n)) => Some((seq![(dg - 1) as u8] + d, n + 1)),
                None => None,
            }
        } else {
            None
        }
    }
}

/// A decoded key value, and the bytes it used.
pub enum KeyAtom {
    S(Seq<u8>),
    B(Seq<u8>),
    N(bool, Seq<u8>, int),
}

/// The N body after the tag: (neg, digits, exp) and the bytes used.
pub open spec fn read_number(b: Seq<u8>) -> Option<(bool, Seq<u8>, int, int)> {
    if b.len() == 0 {
        None
    } else if b[0] == CLASS_ZERO {
        if b.len() > 1 && b[1] == TERM {
            Some((false, Seq::empty(), 0, 2))
        } else {
            None
        }
    } else if b[0] == CLASS_POS || b[0] == CLASS_NEG {
        let neg = b[0] == CLASS_NEG;
        if b.len() < 2 {
            None
        } else {
            let exp = (if neg { 0xFF - b[1] } else { b[1] as int }) - EXP_BIAS;
            match read_digits(b.skip(2), neg) {
                Some((d, n)) => if d.len() == 0 {
                    None
                } else {
                    Some((neg, d, exp, n + 2))
                },
                None => None,
            }
        }
    } else {
        None
    }
}

/// The first value of an encoded key and the bytes it used.
pub open spec fn read_first(b: Seq<u8>) -> Option<(KeyAtom, int)> {
    if b.len() == 0 {
        None
    } else if b[0] == TAG_S {
        match unescape(b.drop_first()) {
            Some((p, n)) => if valid_utf8(p) {
                Some((KeyAtom::S(p), n + 1))
            } else {
                None
            },
            None => None,
        }
    } else if b[0] == TAG_B {
        match unescape(b.drop_first()) {
            Some((p, n)) => Some((KeyAtom::B(p), n + 1)),
            None => None,
        }
    } else if b[0] == TAG_N {
        match read_number(b.drop_first()) {
            Some((neg, d, e, n)) => Some((KeyAtom::N(neg, d, e), n + 1)),
            None => None,
        }
    } else {
        None
    }
}

/// Whether a decoded value is the given atom (an N is given back in
/// canonical text).
pub open spec fn is_atom(v: AttributeValue, a: KeyAtom) -> bool {
    match (v, a) {
        (AttributeValue::S(s), KeyAtom::S(p)) => utf8(s@) == p,
        (AttributeValue::B(x), KeyAtom::B(p)) => x@ == p,
        (AttributeValue::N(n), KeyAtom::N(neg, d, e)) => utf8(n.0@) == format_spec(neg, d, e),
        _ => false,
    }
}

proof fn lemma_unescape_len(b: Seq<u8>)
    ensures
        unescape(b) matches Some((p, n)) ==> 1 <= n <= b.len(),
    decreases b.len(),
{
    if b.len() > 0 {
        if b[0] == 0 {
            if b.len() > 1 && b[1] == 0xFF {
                lemma_unescape_len(b.skip(2));
            }
        } else {
            lemma_unescape_len(b.drop_first());
        }
    }
}

/// Reads an escaped payload.
fn decode_bytes(bytes: &[u8], from: usize) -> (r: Result<(Vec<u8>, usize), DbError>)
    requires
        from <= bytes@.len(),
    ensures
        match r {
            Ok((p, n)) => unescape(bytes@.skip(from as int)) == Some((p@, n as int)),
            Err(e) => unescape(bytes@.skip(from as int)) is None && e is Validation,
        },
        r matches Ok((p, n)) ==> n <= bytes@.len() - from,
{
    proof {
        lemma_unescape_len(bytes@.skip(from as int));
    }
    let mut out: Vec<u8> = Vec::new();
    let mut i = from;
    let ghost b = bytes@.skip(from as int);
    assert(bytes@.skip(i as int) =~= b);
    while i < bytes.len()
        invariant
            from <= i <= bytes@.len(),
            b == bytes@.skip(from as int),
            unescape(b) == match unescape(bytes@.skip(i as int)) {
                Some((p, n)) => Some((out@ + p, n + (i - from))),
                None => None,
            },
        decreases bytes@.len() - i,
    {
        let ghost rest = bytes@.skip(i as int);
        if bytes[i] == 0 {
            if i + 1 < bytes.len() && bytes[i + 1] == 0xFF {
                assert(rest.skip(2) =~= bytes@.skip(i + 2));
                let ghost o = out@;
                out.push(0);
                proof {
                    if let Some((p, n)) = unescape(bytes@.skip(i + 2)) {
                        assert(o + (seq![0u8] + p) =~= out@ + p);
                    }
                }
                i = i + 2;
            } else {
                proof {
                    assert(out@ + Seq::<u8>::empty() =~= out@);
                }
                return Ok((out, i + 1 - from));
            }
        } else {
            assert(rest.drop_first() =~= bytes@.skip(i + 1));
            let ghost o = out@;
            out.push(bytes[i]);
            proof {
                if let Some((p, n)) = unescape(bytes@.skip(i + 1)) {
                    assert(o + (seq![bytes@[i as int]] + p) =~= out@ + p);
                }
            }
            i = i + 1;
        }
    }
    Err(validation("unterminated S/B key payload"))
}

/// Reads N digits.
fn decode_digits(bytes: &[u8], from: usize, neg: bool) -> (r: Result<(Vec<u8>, usize), DbError>)
    requires
        from <= bytes@.len(),
    ensures
        match r {
            Ok((d, n)) => read_digits(bytes@.skip(from as int), neg) == Some((d@, n as int)),
            Err(e) => read_digits(bytes@.skip(from as int), neg) is None && e is Validation,
        },
        r matches Ok((d, n)) ==> n <= bytes@.len() - from,
{
    proof {
        lemma_read_digits_ok(bytes@.skip(from as int), neg);
    }
    let mut out: Vec<u8> = Vec::new();
    let mut i = from;
    let ghost b = bytes@.skip(from as int);
    assert(bytes@.skip(i as int) =~= b);
    let term = if neg { NEG_TERM } else { TERM };
    while i < bytes.len()
        invariant
            from <= i <= bytes@.len(),
            b == bytes@.skip(from as int),
            term == (if neg { NEG_TERM } else { TERM }),
            read_digits(b, neg) == match read_digits(bytes@.skip(i as int), neg) {
                Some((p, n)) => Some((out@ + p, n + (i - from))),
                None => None,
            },
        decreases bytes@.len() - i,
    {
        let ghost rest = bytes@.skip(i as int);
        let c = bytes[i];
        if c == term {
            proof {
                assert(out@ + Seq::<u8>::empty() =~= out@);
            }
            return Ok((out, i + 1 - from));
        }
        let dg = if neg { 0xFF - c } else { c };
        if dg < 1 || dg > 10 {
            return Err(validation("malformed N key encoding"));
        }
        assert(rest.drop_first() =~= bytes@.skip(i + 1));
        let ghost o = out@;
        out.push(dg - 1);
        proof {
            if let Some((p, n)) = read_digits(bytes@.skip(i + 1), neg) {
                assert(o + (seq![(dg - 1) as u8] + p) =~= out@ + p);
            }
        }
        i = i + 1;
    }
    Err(validation("malformed N key encoding"))
}

proof fn lemma_read_digits_ok(b: Seq<u8>, neg: bool)
    ensures
        read_digits(b, neg) matches Some((d, n)) ==> 1 <= n <= b.len() && forall|k: int|
            0 <= k < d.len() ==> d[k] <= 9,
    decreases b.len(),
{
    if b.len() > 0 {
        lemma_read_digits_ok(b.drop_first(), neg);
    }
}

/// Decodes an N body (after the tag) to its canonical text.
fn decode_number(bytes: &[u8], from: usize) -> (r: Result<(AttributeValue, usize), DbError>)
    requires
        from <= bytes@.len(),
    ensures
        match r {
            Ok((v, n)) => read_number(bytes@.skip(from as int)) matches Some((neg, d, e, m))
                && n == m && is_atom(v, KeyAtom::N(neg, d, e)),
            Err(e) => read_number(bytes@.skip(from as int)) is None && e is Validation,
        },
        r matches Ok((v, n)) ==> n <= bytes@.len() - from,
{
    let ghost b = bytes@.skip(from as int);
    if from >= bytes.len() {
        return Err(validation("malformed N key encoding"));
    }
    let class = bytes[from];
    if class == CLASS_ZERO {
        if from + 1 < bytes.len() && bytes[from + 1] == TERM {
            let empty: Vec<u8> = Vec::new();
            let s = format_decimal(false, empty.as_slice(), 0);
            return Ok((AttributeValue::N(Number(s)), 2));
        }
        return Err(validation("malformed N key encoding"));
    }
    if class != CLASS_POS && class != CLASS_NEG {
        return Err(validation("malformed N key encoding"));
    }
    let neg = class == CLASS_NEG;
    if from + 1 >= bytes.len() {
        return Err(validation("malformed N key encoding"));
    }
    let raw = bytes[from + 1];
    let exp: i64 = (if neg { (0xFF - raw) as i64 } else { raw as i64 }) - EXP_BIAS;
    assert(b.skip(2) =~= bytes@.skip(from + 2));
    let (digits, used) = decode_digits(bytes, from + 2, neg)?;
    if digits.len() == 0 {
        return Err(validation("malformed N key encoding"));
    }
    proof {
        lemma_read_digits_ok(bytes@.skip(from + 2), neg);
    }
    let s = format_decimal(neg, digits.as_slice(), exp);
    Ok((AttributeValue::N(Number(s)), used + 2))
}

/// Decodes the first value of an encoded key: the value and the bytes used.
pub fn decode_first(bytes: &[u8]) -> (r: Result<(AttributeValue, usize), DbError>)
    ensures
        match r {
            Ok((v, n)) => read_first(bytes@) matches Some((a, m)) && n == m && is_atom(v, a),
            Err(e) => read_first(bytes@) is None && e is Validation,
        },
{
    assert(bytes@.skip(0) =~= bytes@);
    decode_first_at(bytes, 0)
}

fn decode_first_at(bytes: &[u8], from: usize) -> (r: Result<(AttributeValue, usize), DbError>)
    requires
        from <= bytes@.len(),
    ensures
        match r {
            Ok((v, n)) => read_first(bytes@.skip(from as int)) matches Some((a, m)) && n == m
                && is_atom(v, a),
            Err(e) => read_first(bytes@.skip(from as int)) is None && e is Validation,
        },
{
    let ghost b = bytes@.skip(from as int);
    if from >= bytes.len() {
        return Err(validation("unknown or missing key type tag"));
    }
    assert(b.drop_first() =~= bytes@.skip(from + 1));
    let tag = bytes[from];
    if tag == TAG_S {
        let (payload, used) = decode_bytes(bytes, from + 1)?;
        let ghost p = payload@;
        match string_from_utf8(payload) {
            Some(s) => Ok((AttributeValue::S(s), 1 + used)),
            None => Err(validation("invalid UTF-8 in S key")),
        }
    } else if tag == TAG_B {
        let (payload, used) = decode_bytes(bytes, from + 1)?;
        Ok((AttributeValue::B(payload), 1 + used))
    } else if tag == TAG_N {
        let (v, used) = decode_number(bytes, from + 1)?;
        Ok((v, 1 + used))
    } else {
        Err(validation("unknown or missing key type tag"))
    }
}

proof fn lemma_read_first_len(b: Seq<u8>)
    ensures
        read_first(b) matches Some((a, n)) ==> 1 <= n <= b.len(),
{
    if b.len() > 0 {
        lemma_unescape_len(b.drop_first());
        let r = b.drop_first();
        if r.len() > 1 {
            lemma_read_digits_ok(r.skip(2), r[0] == CLASS_NEG);
        }
    }
}

/// The (pk, sk?) atoms of a whole encoded key.
pub open spec fn read_key(b: Seq<u8>) -> Option<(KeyAtom, Option<KeyAtom>)> {
    match read_first(b) {
        None => None,
        Some((a, n)) => if n == b.len() {
            Some((a, None))
        } else {
            match read_first(b.skip(n)) {
                Some((c, m)) => if n + m == b.len() {
                    Some((a, Some(c)))
                } else {
                    None
                },
                None => None,
            }
        },
    }
}

/// Inverse of `encode_key`: the (pk, sk?) of an encoded key.
pub fn decode_key(bytes: &[u8]) -> (r: Result<(AttributeValue, Option<AttributeValue>), DbError>)
    ensures
        match r {
            Ok((pk, sk)) => read_key(bytes@) matches Some((a, c)) && is_atom(pk, a) && match (
                sk,
                c,
            ) {
                (None, None) => true,
                (Some(s), Some(x)) => is_atom(s, x),
                _ => false,
            },
            Err(e) => read_key(bytes@) is None && e is Validation,
        },
{
    let (pk, used) = decode_first(bytes)?;
    proof {
        lemma_read_first_len(bytes@);
    }
    if used == bytes.len() {
        return Ok((pk, None));
    }
    let (sk, used2) = decode_first_at(bytes, used)?;
    proof {
        lemma_read_first_len(bytes@.skip(used as int));
    }
    if used2 != bytes.len() - used {
        return Err(validation("trailing bytes after sk"));
    }
    Ok((pk, Some(sk)))
}

} // verus!

verus! {

/// The atom a key value decodes to.
pub open spec fn atom_of(m: Model) -> KeyAtom {
    match m {
        Model::S(s) => KeyAtom::S(utf8(s)),
        Model::B(b) => KeyAtom::B(b),
        Model::N(t) => match parse_spec(utf8(t)) {
            Some(d) => KeyAtom::N(d.neg, d.digits, d.exp),
            None => KeyAtom::B(Seq::empty()),
        },
        _ => KeyAtom::B(Seq::empty()),
    }
}

proof fn lemma_unescape_escape(p: Seq<u8>, rest: Seq<u8>)
    requires
        rest.len() == 0 || rest[0] < 0xFF,
    ensures
        unescape(escape(p) + seq![TERM] + rest) == Some((p, (escape(p).len() + 1) as int)),
    decreases p.len(),
{
    let b = escape(p) + seq![TERM] + rest;
    if p.len() == 0 {
        assert(b[0] == 0);
        if b.len() > 1 {
            assert(b =~= seq![TERM] + rest);
        }
        assert(p =~= Seq::<u8>::empty());
    } else {
        let q = p.drop_first();
        lemma_unescape_escape(q, rest);
        let tail = escape(q) + seq![TERM] + rest;
        assert(b =~= escape_byte(p[0]) + tail);
        assert(p =~= seq![p[0]] + q);
        if p[0] == 0 {
            assert(b.skip(2) =~= tail);
        } else {
            assert(b.drop_first() =~= tail);
        }
    }
}

pub open spec fn digit_bytes(d: Seq<u8>, neg: bool) -> Seq<u8> {
    Seq::new(
        d.len(),
        |i: int|
            if neg {
                (0xFF - (d[i] + 1)) as u8
            } else {
                (d[i] + 1) as u8
            },
    )
}

proof fn lemma_read_digits_bytes(d: Seq<u8>, neg: bool, rest: Seq<u8>)
    requires
        forall|k: int| 0 <= k < d.len() ==> d[k] <= 9,
    ensures
        read_digits(
            digit_bytes(d, neg) + seq![if neg { NEG_TERM } else { TERM }] + rest,
            neg,
        ) == Some((d, (d.len() + 1) as int)),
    decreases d.len(),
{
    let t = if neg { NEG_TERM } else { TERM };
    let b = digit_bytes(d, neg) + seq![t] + rest;
    if d.len() == 0 {
        assert(b[0] == t);
        assert(d =~= Seq::<u8>::empty());
    } else {
        let q = d.drop_first();
        lemma_read_digits_bytes(q, neg, rest);
        assert(b.drop_first() =~= digit_bytes(q, neg) + seq![t] + rest);
        assert(d =~= seq![d[0]] + q);
    }
}

/// Decoding the encoding of a key value gives its atom and uses all of it.
pub proof fn lemma_value_round_trip(m: Model, rest: Seq<u8>)
    requires
        enc_value(m) is Some,
        rest.len() == 0 || rest[0] < 0xFF,
    ensures
        read_first(enc_value(m)->0 + rest) == Some((atom_of(m), enc_value(m)->0.len() as int)),
{
    let e = enc_value(m)->0;
    let b = e + rest;
    match m {
        Model::S(s) => {
            lemma_unescape_escape(utf8(s), rest);
            assert(b.drop_first() =~= escape(utf8(s)) + seq![TERM] + rest);
            vstd::utf8::encode_utf8_valid_utf8(s);
        },
        Model::B(x) => {
            lemma_unescape_escape(x, rest);
            assert(b.drop_first() =~= escape(x) + seq![TERM] + rest);
        },
        Model::N(t) => {
            let d = parse_spec(utf8(t))->0;
            lemma_parse_ok(utf8(t));
            let r = b.drop_first();
            if d.digits.len() == 0 {
                assert(r[0] == CLASS_ZERO && r[1] == TERM);
            } else {
                lemma_read_digits_bytes(d.digits, d.neg, rest);
                if d.neg {
                    assert(r.skip(2) =~= digit_bytes(d.digits, true) + seq![NEG_TERM] + rest);
                } else {
                    assert(r.skip(2) =~= digit_bytes(d.digits, false) + seq![TERM] + rest);
                }
            }
        },
        _ => {},
    }
}

/// Decoding an encoded key gives back the atoms of its parts: S and B
/// exactly, N as its normalized decimal.
pub proof fn lemma_key_round_trip(pk: Model, sk: Option<Model>)
    requires
        enc_key(pk, sk) is Some,
    ensures
        read_key(enc_key(pk, sk)->0) == Some(
            (
                atom_of(pk),
                match sk {
                    Some(s) => Some(atom_of(s)),
                    None => None,
                },
            ),
        ),
{
    let a = enc_value(pk)->0;
    match sk {
        None => {
            lemma_value_round_trip(pk, Seq::empty());
            assert(a + Seq::<u8>::empty() =~= a);
        },
        Some(s) => {
            let c = enc_value(s)->0;
            lemma_value_round_trip(pk, c);
            lemma_value_round_trip(s, Seq::empty());
            assert((a + c).skip(a.len() as int) =~= c + Seq::<u8>::empty());
        },
    }
}

} // verus!

verus! {

proof fn lemma_lex_order_first(a: Seq<u8>, b: Seq<u8>)
    requires
        a.len() > 0,
        b.len() > 0,
        a[0] != b[0],
    ensures
        lex_order(a, b) == if a[0] < b[0] { -1int } else { 1int },
{
}

/// Escaped payloads, each followed by its terminator and a tail that does not
/// start with 0xFF, compare as the payloads do; equal payloads leave the tails
/// to decide.
proof fn lemma_escape_order(p: Seq<u8>, q: Seq<u8>, x: Seq<u8>, y: Seq<u8>)
    requires
        x.len() == 0 || x[0] < 0xFF,
        y.len() == 0 || y[0] < 0xFF,
    ensures
        lex_order(escape(p) + seq![TERM] + x, escape(q) + seq![TERM] + y) == if p == q {
            lex_order(x, y)
        } else {
            lex_order(p, q)
        },
    decreases p.len() + q.len(),
{
    let a = escape(p) + seq![TERM] + x;
    let b = escape(q) + seq![TERM] + y;
    if p.len() == 0 && q.len() == 0 {
        assert(p =~= q);
        assert(a =~= seq![TERM] + x);
        assert(b =~= seq![TERM] + y);
        lemma_lex_order_common_prefix(seq![TERM], x, y);
    } else if p.len() == 0 {
        assert(a =~= seq![TERM] + x);
        assert(b =~= escape_byte(q[0]) + (escape(q.drop_first()) + seq![TERM] + y));
        assert(a[0] == 0);
        assert(b[0] == q[0]);
        if q[0] != 0 {
            lemma_lex_order_first(a, b);
        } else {
            assert(a.drop_first() =~= x);
            assert(b.drop_first()[0] == 0xFF);
            assert(lex_order(a, b) == lex_order(a.drop_first(), b.drop_first()));
            if x.len() > 0 {
                lemma_lex_order_first(a.drop_first(), b.drop_first());
            }
        }
        assert(p != q);
    } else if q.len() == 0 {
        assert(b =~= seq![TERM] + y);
        assert(a =~= escape_byte(p[0]) + (escape(p.drop_first()) + seq![TERM] + x));
        assert(b[0] == 0);
        assert(a[0] == p[0]);
        if p[0] != 0 {
            lemma_lex_order_first(a, b);
        } else {
            assert(b.drop_first() =~= y);
            assert(a.drop_first()[0] == 0xFF);
            assert(lex_order(a, b) == lex_order(a.drop_first(), b.drop_first()));
            if y.len() > 0 {
                lemma_lex_order_first(a.drop_first(), b.drop_first());
            }
        }
        assert(p != q);
    } else {
        let pa = escape(p.drop_first()) + seq![TERM] + x;
        let qb = escape(q.drop_first()) + seq![TERM] + y;
        assert(a =~= escape_byte(p[0]) + pa);
        assert(b =~= escape_byte(q[0]) + qb);
        assert(a[0] == p[0]);
        assert(b[0] == q[0]);
        if p[0] == q[0] {
            lemma_lex_order_common_prefix(escape_byte(p[0]), pa, qb);
            lemma_escape_order(p.drop_first(), q.drop_first(), x, y);
            if p == q {
                assert(p.drop_first() == q.drop_first());
            } else {
                assert(p.drop_first() != q.drop_first()) by {
                    if p.drop_first() == q.drop_first() {
                        assert(p =~= seq![p[0]] + p.drop_first());
                        assert(q =~= seq![q[0]] + q.drop_first());
                    }
                }
            }
        } else {
            assert(p != q);
            if p[0] != 0 && q[0] != 0 {
                lemma_lex_order_first(a, b);
            } else if p[0] == 0 {
                lemma_lex_order_first(a, b);
            } else {
                lemma_lex_order_first(a, b);
            }
        }
    }
}

/// Tuple order of byte-string keys: the encoding of (p1, s1) sorts before that
/// of (p2, s2) exactly when (p1, s1) sorts before (p2, s2), payloads compared
/// as byte strings (for S, their UTF-8 bytes).
pub proof fn lemma_bytes_key_order(t: u8, u: u8, p1: Seq<u8>, s1: Seq<u8>, p2: Seq<u8>, s2: Seq<u8>)
    requires
        t < 0xFF,
        u < 0xFF,
    ensures
        lex_order(enc_bytes(t, p1) + enc_bytes(u, s1), enc_bytes(t, p2) + enc_bytes(u, s2))
            == if p1 != p2 {
            lex_order(p1, p2)
        } else {
            lex_order(s1, s2)
        },
{
    let x = enc_bytes(u, s1);
    let y = enc_bytes(u, s2);
    assert(enc_bytes(t, p1) + x =~= seq![t] + (escape(p1) + seq![TERM] + x));
    assert(enc_bytes(t, p2) + y =~= seq![t] + (escape(p2) + seq![TERM] + y));
    lemma_lex_order_common_prefix(seq![t], escape(p1) + seq![TERM] + x, escape(p2) + seq![TERM] + y);
    lemma_escape_order(p1, p2, x, y);
    assert(x =~= seq![u] + (escape(s1) + seq![TERM] + Seq::<u8>::empty()));
    assert(y =~= seq![u] + (escape(s2) + seq![TERM] + Seq::<u8>::empty()));
    lemma_lex_order_common_prefix(seq![u], escape(s1) + seq![TERM] + Seq::<u8>::empty(), escape(s2) + seq![TERM] + Seq::<u8>::empty());
    lemma_escape_order(s1, s2, Seq::<u8>::empty(), Seq::<u8>::empty());
    crate::domain::byte_order::lemma_lex_order_eq(s1, s2);
}

/// Single byte-string keys order as their payloads.
pub proof fn lemma_bytes_value_order(t: u8, p: Seq<u8>, q: Seq<u8>)
    requires
        t < 0xFF,
    ensures
        lex_order(enc_bytes(t, p), enc_bytes(t, q)) == lex_order(p, q),
{
    assert(enc_bytes(t, p) =~= seq![t] + (escape(p) + seq![TERM] + Seq::<u8>::empty()));
    assert(enc_bytes(t, q) =~= seq![t] + (escape(q) + seq![TERM] + Seq::<u8>::empty()));
    lemma_lex_order_common_prefix(seq![t], escape(p) + seq![TERM] + Seq::<u8>::empty(), escape(q) + seq![TERM] + Seq::<u8>::empty());
    lemma_escape_order(p, q, Seq::<u8>::empty(), Seq::<u8>::empty());
    crate::domain::byte_order::lemma_lex_order_eq(p, q);
}

} // verus!

verus! {

proof fn lemma_digit_bytes_order(d1: Seq<u8>, d2: Seq<u8>, neg: bool)
    requires
        forall|k: int| 0 <= k < d1.len() ==> d1[k] <= 9,
        forall|k: int| 0 <= k < d2.len() ==> d2[k] <= 9,
    ensures
        lex_order(
            digit_bytes(d1, neg) + seq![if neg { NEG_TERM } else { TERM }],
            digit_bytes(d2, neg) + seq![if neg { NEG_TERM } else { TERM }],
        ) == if neg {
            -lex_order(d1, d2)
        } else {
            lex_order(d1, d2)
        },
    decreases d1.len() + d2.len(),
{
    let t = if neg { NEG_TERM } else { TERM };
    let a = digit_bytes(d1, neg) + seq![t];
    let b = digit_bytes(d2, neg) + seq![t];
    if d1.len() == 0 && d2.len() == 0 {
        assert(a =~= b);
        crate::domain::byte_order::lemma_lex_order_eq(a, b);
        crate::domain::byte_order::lemma_lex_order_eq(d1, d2);
        assert(d1 =~= d2);
    } else if d1.len() == 0 {
        assert(a[0] == t);
        lemma_lex_order_first(a, b);
    } else if d2.len() == 0 {
        assert(b[0] == t);
        lemma_lex_order_first(a, b);
    } else {
        assert(a[0] == digit_bytes(d1, neg)[0]);
        assert(b[0] == digit_bytes(d2, neg)[0]);
        if d1[0] == d2[0] {
            assert(a.drop_first() =~= digit_bytes(d1.drop_first(), neg) + seq![t]);
            assert(b.drop_first() =~= digit_bytes(d2.drop_first(), neg) + seq![t]);
            lemma_digit_bytes_order(d1.drop_first(), d2.drop_first(), neg);
        } else {
            lemma_lex_order_first(a, b);
        }
    }
}

/// N keys sort as their numbers: the encodings of two normalized decimals
/// compare as `dec_order` (the order of `compare`).
pub proof fn lemma_number_order(x: Dec, y: Dec)
    requires
        dec_ok(x),
        dec_ok(y),
    ensures
        lex_order(enc_number(x), enc_number(y)) == dec_order(x, y),
{
    let a = enc_number(x);
    let b = enc_number(y);
    let ra = a.drop_first();
    let rb = b.drop_first();
    assert(a =~= seq![TAG_N] + ra);
    assert(b =~= seq![TAG_N] + rb);
    lemma_lex_order_common_prefix(seq![TAG_N], ra, rb);
    if dec_sign(x) != dec_sign(y) {
        lemma_lex_order_first(ra, rb);
    } else if dec_sign(x) == 0 {
        assert(a =~= b);
        crate::domain::byte_order::lemma_lex_order_eq(a, b);
    } else {
        let neg = x.neg;
        let ta = ra.drop_first();
        let tb = rb.drop_first();
        assert(ra =~= seq![ra[0]] + ta);
        assert(rb =~= seq![rb[0]] + tb);
        lemma_lex_order_common_prefix(seq![ra[0]], ta, tb);
        let t = if neg { NEG_TERM } else { TERM };
        if x.exp != y.exp {
            assert(ta[0] != tb[0]);
            lemma_lex_order_first(ta, tb);
        } else {
            let da = digit_bytes(x.digits, neg) + seq![t];
            let db = digit_bytes(y.digits, neg) + seq![t];
            assert(ta =~= seq![ta[0]] + da);
            assert(tb =~= seq![tb[0]] + db);
            lemma_lex_order_common_prefix(seq![ta[0]], da, db);
            lemma_digit_bytes_order(x.digits, y.digits, neg);
        }
    }
}

/// `a` is a proper prefix of `b`.
pub open spec fn proper_prefix(a: Seq<u8>, b: Seq<u8>) -> bool {
    a.len() < b.len() && b.subrange(0, a.len() as int) == a
}

/// Concatenations of two parts, the first of which neither is a proper
/// prefix of the other, order by the first parts, then by the second ones.
proof fn lemma_concat_order(x1: Seq<u8>, x2: Seq<u8>, y1: Seq<u8>, y2: Seq<u8>)
    requires
        !proper_prefix(x1, x2),
        !proper_prefix(x2, x1),
    ensures
        lex_order(x1 + y1, x2 + y2) == if x1 == x2 {
            lex_order(y1, y2)
        } else {
            lex_order(x1, x2)
        },
    decreases x1.len(),
{
    if x1.len() == 0 || x2.len() == 0 {
        if x1.len() == 0 && x2.len() != 0 {
            assert(x2.subrange(0, 0) =~= x1);
        }
        if x2.len() == 0 && x1.len() != 0 {
            assert(x1.subrange(0, 0) =~= x2);
        }
        assert(x1 =~= x2);
        assert(x1 + y1 =~= y1);
        assert(x2 + y2 =~= y2);
    } else if x1[0] != x2[0] {
        lemma_lex_order_first(x1 + y1, x2 + y2);
        lemma_lex_order_first(x1, x2);
    } else {
        let t1 = x1.drop_first();
        let t2 = x2.drop_first();
        if proper_prefix(t1, t2) {
            assert(x2.subrange(0, x1.len() as int) =~= x1) by {
                assert(x1 =~= seq![x1[0]] + t1);
                assert(x2.subrange(0, x1.len() as int) =~= seq![x2[0]] + t2.subrange(0, t1.len() as int));
            }
        }
        if proper_prefix(t2, t1) {
            assert(x1.subrange(0, x2.len() as int) =~= x2) by {
                assert(x2 =~= seq![x2[0]] + t2);
                assert(x1.subrange(0, x2.len() as int) =~= seq![x1[0]] + t1.subrange(0, t2.len() as int));
            }
        }
        lemma_concat_order(t1, t2, y1, y2);
        assert(x1 + y1 =~= seq![x1[0]] + (t1 + y1));
        assert(x2 + y2 =~= seq![x1[0]] + (t2 + y2));
        assert(x1 =~= seq![x1[0]] + t1);
        assert(x2 =~= seq![x1[0]] + t2);
        lemma_lex_order_common_prefix(seq![x1[0]], t1 + y1, t2 + y2);
        lemma_lex_order_common_prefix(seq![x1[0]], t1, t2);
        if x1 == x2 {
            assert(t1 =~= t2);
        } else {
            assert(t1 != t2);
        }
    }
}

/// No N encoding is a proper prefix of another: the terminator never
/// matches a digit byte.
proof fn lemma_number_prefix_free(x: Dec, y: Dec)
    requires
        dec_ok(x),
        dec_ok(y),
    ensures
        !proper_prefix(enc_number(x), enc_number(y)),
{
    let a = enc_number(x);
    let b = enc_number(y);
    if proper_prefix(a, b) {
        let k = a.len() - 1;
        assert(b[k] == a[k]);
        assert(a[1] == b[1]);
        if x.digits.len() == 0 {
            assert(b[1] == CLASS_ZERO);
            assert(y.digits.len() == 0);
        } else if !x.neg {
            assert(b[1] == CLASS_POS);
            assert(a[k] == TERM);
            assert(3 <= k < b.len() - 1);
            let i = k - 3;
            assert(b[k] == (y.digits[i] + 1) as u8);
        } else {
            assert(b[1] == CLASS_NEG);
            assert(a[k] == NEG_TERM);
            assert(3 <= k < b.len() - 1);
            let i = k - 3;
            assert(b[k] == (0xFF - (y.digits[i] + 1)) as u8);
        }
    }
}

/// A value's encoding starts with its type tag, below 0xFF.
proof fn lemma_enc_tag(m: Model)
    requires
        enc_value(m) is Some,
    ensures
        enc_value(m)->0.len() > 0,
        enc_value(m)->0[0] < 0xFF,
{
}

/// A byte-string partition key followed by any encoded sort key.
proof fn lemma_bytes_pk_order(tag: u8, p: Seq<u8>, q: Seq<u8>, y1: Seq<u8>, y2: Seq<u8>)
    requires
        tag < 0xFF,
        y1.len() > 0 && y1[0] < 0xFF,
        y2.len() > 0 && y2[0] < 0xFF,
    ensures
        lex_order(enc_bytes(tag, p) + y1, enc_bytes(tag, q) + y2) == if enc_bytes(tag, p)
            == enc_bytes(tag, q) {
            lex_order(y1, y2)
        } else {
            lex_order(enc_bytes(tag, p), enc_bytes(tag, q))
        },
{
    let x1 = enc_bytes(tag, p);
    let x2 = enc_bytes(tag, q);
    assert(x1 + y1 =~= seq![tag] + (escape(p) + seq![TERM] + y1));
    assert(x2 + y2 =~= seq![tag] + (escape(q) + seq![TERM] + y2));
    lemma_lex_order_common_prefix(seq![tag], escape(p) + seq![TERM] + y1, escape(q) + seq![TERM] + y2);
    lemma_escape_order(p, q, y1, y2);
    lemma_bytes_value_order(tag, p, q);
    crate::domain::byte_order::lemma_lex_order_eq(p, q);
    crate::domain::byte_order::lemma_lex_order_eq(x1, x2);
}

/// A key value followed by a tail that starts below 0xFF (another encoded
/// value, an encoded key): the value decides the order, the tail only
/// between equal values.
pub proof fn lemma_value_then(a1: Model, a2: Model, y1: Seq<u8>, y2: Seq<u8>)
    requires
        enc_value(a1) is Some,
        enc_value(a2) is Some,
        y1.len() > 0 && y1[0] < 0xFF,
        y2.len() > 0 && y2[0] < 0xFF,
    ensures
        lex_order(enc_value(a1)->0 + y1, enc_value(a2)->0 + y2) == if enc_value(a1) == enc_value(
            a2,
        ) {
            lex_order(y1, y2)
        } else {
            lex_order(enc_value(a1)->0, enc_value(a2)->0)
        },
{
    let x1 = enc_value(a1)->0;
    let x2 = enc_value(a2)->0;
    lemma_enc_tag(a1);
    lemma_enc_tag(a2);
    if x1[0] != x2[0] {
        lemma_lex_order_first(x1 + y1, x2 + y2);
        lemma_lex_order_first(x1, x2);
    } else if let (Model::N(t1), Model::N(t2)) = (a1, a2) {
        lemma_parse_ok(utf8(t1));
        lemma_parse_ok(utf8(t2));
        lemma_number_prefix_free(parse_spec(utf8(t1))->0, parse_spec(utf8(t2))->0);
        lemma_number_prefix_free(parse_spec(utf8(t2))->0, parse_spec(utf8(t1))->0);
        lemma_concat_order(x1, x2, y1, y2);
    } else if let (Model::S(s1), Model::S(s2)) = (a1, a2) {
        lemma_bytes_pk_order(TAG_S, utf8(s1), utf8(s2), y1, y2);
    } else if let (Model::B(c1), Model::B(c2)) = (a1, a2) {
        lemma_bytes_pk_order(TAG_B, c1, c2, y1, y2);
    } else {
        assert(false);
    }
}

/// Composite keys keep the tuple order: the encoding of (a1, b1) sorts
/// against that of (a2, b2) as the partition key values do when they differ,
/// and as the sort key values do when the partition key values are equal
/// (each value in its own order: S and B by bytes, N numerically).
pub proof fn lemma_key_order(a1: Model, b1: Model, a2: Model, b2: Model)
    requires
        enc_value(a1) is Some,
        enc_value(b1) is Some,
        enc_value(a2) is Some,
        enc_value(b2) is Some,
    ensures
        lex_order(enc_key(a1, Some(b1))->0, enc_key(a2, Some(b2))->0) == if enc_value(a1)
            == enc_value(a2) {
            lex_order(enc_value(b1)->0, enc_value(b2)->0)
        } else {
            lex_order(enc_value(a1)->0, enc_value(a2)->0)
        },
{
    lemma_enc_tag(b1);
    lemma_enc_tag(b2);
    lemma_value_then(a1, a2, enc_value(b1)->0, enc_value(b2)->0);
}

} // verus!
