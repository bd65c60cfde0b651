//! Strings seen as their UTF-8 bytes, and a few exec helpers on them.
use vstd::prelude::*;
use vstd::utf8::*;
use vstd::string::StringExecFns;
use crate::domain::byte_order::bytes_eq;

verus! {

broadcast use vstd::utf8::encode_utf8_decode_utf8;

/// The UTF-8 bytes of a string's characters.
pub open spec fn utf8(chars: Seq<char>) -> Seq<u8> {
    encode_utf8(chars)
}

/// Equal bytes mean equal characters.
pub proof fn lemma_utf8_injective(a: Seq<char>, b: Seq<char>)
    ensures
        (utf8(a) == utf8(b)) <==> (a == b),
{
    if utf8(a) == utf8(b) {
        assert(decode_utf8(encode_utf8(a)) == a);
        assert(decode_utf8(encode_utf8(b)) == b);
    }
}

/// The bytes of a string slice.
pub fn str_bytes(s: &str) -> (r: &[u8])
    ensures
        r@ == utf8(s@),
{
    s.as_bytes()
}

/// Exec equality of two string slices by their characters.
pub fn str_eq(a: &str, b: &str) -> (r: bool)
    ensures
        r == (a@ == b@),
{
    let r = bytes_eq(a.as_bytes(), b.as_bytes());
    proof {
        lemma_utf8_injective(a@, b@);
    }
    r
}

/// Builds a string from bytes; `None` where they are not UTF-8.
/// Trusted: `String::from_utf8` returns the string whose bytes are exactly the
/// input, and fails exactly on input that is not valid UTF-8.
#[verifier::external_body]
pub fn string_from_utf8(bytes: Vec<u8>) -> (r: Option<String>)
    ensures
        r is Some <==> valid_utf8(bytes@),
        r matches Some(s) ==> utf8(s@) == bytes@,
{
    String::from_utf8(bytes).ok()
}

/// An owned copy of a string slice.
pub fn owned(s: &str) -> (r: String)
    ensures
        r@ == s@,
{
    s.to_owned()
}

/// ASCII bytes are valid UTF-8 and stand for the characters of the same codes.
pub open spec fn ascii_bytes(b: Seq<u8>) -> bool {
    forall|i: int| 0 <= i < b.len() ==> b[i] < 128
}

} // verus!

verus! {

/// ASCII bytes form valid UTF-8.
pub proof fn lemma_ascii_valid_utf8(b: Seq<u8>)
    requires
        ascii_bytes(b),
    ensures
        valid_utf8(b),
    decreases b.len(),
{
    if b.len() > 0 {
        let b0 = b[0];
        assert(leading_bits_width_1(b0) < 0x80) by (bit_vector)
            requires
                b0 < 128,
        ;
        assert(pop_first_scalar(b) =~= b.drop_first());
        lemma_ascii_valid_utf8(b.drop_first());
    }
}

/// A string made of ASCII bytes.
pub fn ascii_string(bytes: Vec<u8>) -> (r: String)
    requires
        ascii_bytes(bytes@),
    ensures
        utf8(r@) == bytes@,
{
    proof {
        lemma_ascii_valid_utf8(bytes@);
    }
    let ghost b = bytes@;
    match string_from_utf8(bytes) {
        Some(s) => s,
        None => {
            proof {
                assert(false);
            }
            String::new()
        },
    }
}

/// An ASCII character in front of a string adds its one byte in front of the
/// encoding.
pub proof fn lemma_utf8_ascii_prefix(tag: u8, s: Seq<char>)
    requires
        tag < 128,
    ensures
        utf8(seq![tag as char] + s) == seq![tag] + utf8(s),
{
    let cs = seq![tag as char] + s;
    assert(cs.len() > 0);
    assert(cs[0] == tag as char);
    assert(cs.drop_first() =~= s);
    let u = (tag as char) as u32;
    assert(u == tag as u32);
    assert(has_width_1_encoding(u));
    assert(leading_byte_width_1(u) == tag) by (bit_vector)
        requires
            u == tag as u32,
            tag < 128,
    ;
    assert(encode_scalar(u) =~= seq![tag]);
    assert(utf8(cs) == encode_scalar(u) + utf8(s));
}

/// The encoding of a concatenation is the concatenation of the encodings.
pub proof fn lemma_utf8_concat(a: Seq<char>, b: Seq<char>)
    ensures
        utf8(a + b) == utf8(a) + utf8(b),
    decreases a.len(),
{
    if a.len() > 0 {
        assert((a + b).drop_first() =~= a.drop_first() + b);
        assert((a + b)[0] == a[0]);
        lemma_utf8_concat(a.drop_first(), b);
        assert(utf8(a) + utf8(b) =~= encode_scalar(a[0] as u32) + (utf8(a.drop_first()) + utf8(b)));
    } else {
        assert(a + b =~= b);
        assert(utf8(a) + utf8(b) =~= utf8(b));
    }
}

/// The decimal digits of `n`, most significant first, without leading zeros.
pub open spec fn nat_chars(n: nat) -> Seq<char>
    decreases n,
{
    if n < 10 {
        seq![((n + 48) as u8) as char]
    } else {
        nat_chars(n / 10).push((((n % 10) + 48) as u8) as char)
    }
}

/// The same digits as bytes.
pub open spec fn nat_bytes(n: nat) -> Seq<u8>
    decreases n,
{
    if n < 10 {
        seq![(n + 48) as u8]
    } else {
        nat_bytes(n / 10).push(((n % 10) + 48) as u8)
    }
}

pub proof fn lemma_nat_bytes(n: nat)
    ensures
        utf8(nat_chars(n)) == nat_bytes(n),
        ascii_bytes(nat_bytes(n)),
    decreases n,
{
    if n < 10 {
        lemma_utf8_ascii_prefix((n + 48) as u8, Seq::empty());
        assert(seq![((n + 48) as u8) as char] + Seq::<char>::empty() =~= nat_chars(n));
        assert(seq![(n + 48) as u8] + utf8(Seq::<char>::empty()) =~= nat_bytes(n));
    } else {
        lemma_nat_bytes(n / 10);
        let d = ((n % 10) + 48) as u8;
        lemma_utf8_ascii_prefix(d, Seq::empty());
        assert(seq![d as char] + Seq::<char>::empty() =~= seq![d as char]);
        assert(seq![d] + utf8(Seq::<char>::empty()) =~= seq![d]);
        lemma_utf8_concat(nat_chars(n / 10), seq![d as char]);
        assert(nat_chars(n / 10) + seq![d as char] =~= nat_chars(n));
        assert(nat_bytes(n / 10) + seq![d] =~= nat_bytes(n));
    }
}

fn push_u64_digits(out: &mut Vec<u8>, n: u64)
    ensures
        final(out)@ == old(out)@ + nat_bytes(n as nat),
    decreases n,
{
    if n < 10 {
        out.push((n as u8) + 48);
        assert(seq![(n + 48) as u8] =~= nat_bytes(n as nat));
    } else {
        push_u64_digits(out, n / 10);
        out.push(((n % 10) as u8) + 48);
    }
}

/// The decimal text of `n` ("0", "42").
pub fn u64_text(n: u64) -> (r: String)
    ensures
        r@ == nat_chars(n as nat),
{
    let mut out: Vec<u8> = Vec::new();
    push_u64_digits(&mut out, n);
    proof {
        lemma_nat_bytes(n as nat);
        assert(out@ =~= nat_bytes(n as nat));
    }
    let r = ascii_string(out);
    proof {
        lemma_utf8_injective(r@, nat_chars(n as nat));
    }
    r
}

/// The decimal text of `n`.
pub fn usize_text(n: usize) -> (r: String)
    ensures
        r@ == nat_chars(n as nat),
{
    u64_text(n as u64)
}

/// The decimal text of an integer: a `-` before the digits of a negative one.
pub open spec fn int_chars(n: int) -> Seq<char> {
    if n < 0 {
        seq!['-'] + nat_chars((-n) as nat)
    } else {
        nat_chars(n as nat)
    }
}

/// The decimal text of `n` ("-5", "1700000000").
pub fn i64_text(n: i64) -> (r: String)
    ensures
        r@ == int_chars(n as int),
{
    if n >= 0 {
        u64_text(n as u64)
    } else {
        let m: u64 = ((-(n + 1)) as u64) + 1;
        let digits = u64_text(m);
        let mut r = String::new();
        r.append("-");
        r.append(digits.as_str());
        proof {
            reveal_strlit("-");
            assert(r@ =~= int_chars(n as int));
        }
        r
    }
}

} // verus!
