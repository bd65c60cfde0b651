//! Tokens of the expression language.
use vstd::prelude::*;
use crate::domain::expr::ast::CmpOp;
use crate::domain::error::{DbError, validation};
use crate::domain::number::{digits_value, digit_values, is_digit};
use crate::domain::text::{utf8, ascii_bytes, ascii_string};

verus! {

/// A token.
#[derive(Debug, PartialEq, Eq)]
pub enum Tok {
    Ident(String),
    /// `#foo`, kept without the '#'.
    NamePh(String),
    /// `:bar`, kept without the ':'.
    ValPh(String),
    /// A list index.
    Num(usize),
    LParen,
    RParen,
    Comma,
    Dot,
    LBrack,
    RBrack,
    Plus,
    Minus,
    Op(CmpOp),
}

/// A token with its text as bytes.
pub enum TokV {
    Ident(Seq<u8>),
    NamePh(Seq<u8>),
    ValPh(Seq<u8>),
    Num(nat),
    LParen,
    RParen,
    Comma,
    Dot,
    LBrack,
    RBrack,
    Plus,
    Minus,
    Op(CmpOp),
}

pub open spec fn tok_view(t: Tok) -> TokV {
    match t {
        Tok::Ident(s) => TokV::Ident(utf8(s@)),
        Tok::NamePh(s) => TokV::NamePh(utf8(s@)),
        Tok::ValPh(s) => TokV::ValPh(utf8(s@)),
        Tok::Num(n) => TokV::Num(n as nat),
        Tok::LParen => TokV::LParen,
        Tok::RParen => TokV::RParen,
        Tok::Comma => TokV::Comma,
        Tok::Dot => TokV::Dot,
        Tok::LBrack => TokV::LBrack,
        Tok::RBrack => TokV::RBrack,
        Tok::Plus => TokV::Plus,
        Tok::Minus => TokV::Minus,
        Tok::Op(o) => TokV::Op(o),
    }
}

pub open spec fn toks_view(s: Seq<Tok>) -> Seq<TokV> {
    Seq::new(s.len(), |k: int| tok_view(s[k]))
}

pub open spec fn is_alpha(c: u8) -> bool {
    (65 <= c <= 90) || (97 <= c <= 122)
}

pub open spec fn is_ident_char(c: u8) -> bool {
    is_alpha(c) || is_digit(c) || c == 95
}

pub open spec fn is_space(c: u8) -> bool {
    c == 32 || c == 9 || c == 13 || c == 10
}

/// The end of the run of identifier characters starting at `i`.
pub open spec fn ident_end_spec(b: Seq<u8>, i: int) -> int
    decreases b.len() - i,
{
    if i < b.len() && is_ident_char(b[i]) {
        ident_end_spec(b, i + 1)
    } else {
        i
    }
}

/// The end of the run of digits starting at `i`.
pub open spec fn digits_end(b: Seq<u8>, i: int) -> int
    decreases b.len() - i,
{
    if i < b.len() && is_digit(b[i]) {
        digits_end(b, i + 1)
    } else {
        i
    }
}

pub open spec fn cons(t: TokV, r: Option<Seq<TokV>>) -> Option<Seq<TokV>> {
    match r {
        Some(s) => Some(seq![t] + s),
        None => None,
    }
}

/// The tokens of `b[i..]`; `None` on a lexical error.
pub open spec fn lex_from(b: Seq<u8>, i: int) -> Option<Seq<TokV>>
    decreases b.len() - i, 1int,
{
    if i < 0 || i >= b.len() {
        Some(Seq::empty())
    } else {
        let c = b[i];
        if is_space(c) {
            lex_from(b, i + 1)
        } else if c == 40 {
            cons(TokV::LParen, lex_from(b, i + 1))
        } else if c == 41 {
            cons(TokV::RParen, lex_from(b, i + 1))
        } else if c == 44 {
            cons(TokV::Comma, lex_from(b, i + 1))
        } else if c == 46 {
            cons(TokV::Dot, lex_from(b, i + 1))
        } else if c == 91 {
            cons(TokV::LBrack, lex_from(b, i + 1))
        } else if c == 93 {
            cons(TokV::RBrack, lex_from(b, i + 1))
        } else if c == 43 {
            cons(TokV::Plus, lex_from(b, i + 1))
        } else if c == 45 {
            cons(TokV::Minus, lex_from(b, i + 1))
        } else if c == 61 {
            if i + 1 < b.len() && b[i + 1] == 61 {
                None
            } else {
                cons(TokV::Op(CmpOp::Eq), lex_from(b, i + 1))
            }
        } else if c == 60 {
            if i + 1 < b.len() && b[i + 1] == 62 {
                cons(TokV::Op(CmpOp::Ne), lex_from(b, i + 2))
            } else if i + 1 < b.len() && b[i + 1] == 61 {
                cons(TokV::Op(CmpOp::Le), lex_from(b, i + 2))
            } else {
                cons(TokV::Op(CmpOp::Lt), lex_from(b, i + 1))
            }
        } else if c == 62 {
            if i + 1 < b.len() && b[i + 1] == 61 {
                cons(TokV::Op(CmpOp::Ge), lex_from(b, i + 2))
            } else {
                cons(TokV::Op(CmpOp::Gt), lex_from(b, i + 1))
            }
        } else if c == 35 || c == 58 {
            lex_placeholder(b, i)
        } else if is_digit(c) {
            lex_number(b, i)
        } else if is_alpha(c) || c == 95 {
            lex_ident(b, i)
        } else {
            None
        }
    }
}

pub open spec fn lex_placeholder(b: Seq<u8>, i: int) -> Option<Seq<TokV>>
    recommends
        0 <= i < b.len(),
    decreases b.len() - i, 0int,
{
    let e = ident_end_spec(b, i + 1);
    if e == i + 1 || !(i < e <= b.len()) {
        None
    } else {
        let name = b.subrange(i + 1, e);
        cons(if b[i] == 35 { TokV::NamePh(name) } else { TokV::ValPh(name) }, lex_from(b, e))
    }
}

pub open spec fn lex_number(b: Seq<u8>, i: int) -> Option<Seq<TokV>>
    decreases b.len() - i, 0int,
{
    let e = digits_end(b, i);
    let v = digits_value(digit_values(b.subrange(i, e)));
    if v > usize::MAX || !(i < e <= b.len()) {
        None
    } else {
        cons(TokV::Num(v as nat), lex_from(b, e))
    }
}

pub open spec fn lex_ident(b: Seq<u8>, i: int) -> Option<Seq<TokV>>
    decreases b.len() - i, 0int,
{
    let e = ident_end_spec(b, i);
    if !(i < e <= b.len()) {
        None
    } else {
        cons(TokV::Ident(b.subrange(i, e)), lex_from(b, e))
    }
}

/// The tokens of the bytes `b`.
pub open spec fn lex_spec(b: Seq<u8>) -> Option<Seq<TokV>> {
    lex_from(b, 0)
}

proof fn lemma_ident_end(b: Seq<u8>, i: int)
    requires
        0 <= i <= b.len(),
    ensures
        i <= ident_end_spec(b, i) <= b.len(),
        forall|k: int| i <= k < ident_end_spec(b, i) ==> is_ident_char(b[k]),
    decreases b.len() - i,
{
    if i < b.len() && is_ident_char(b[i]) {
        lemma_ident_end(b, i + 1);
    }
}

proof fn lemma_digits_end(b: Seq<u8>, i: int)
    requires
        0 <= i <= b.len(),
    ensures
        i <= digits_end(b, i) <= b.len(),
        forall|k: int| i <= k < digits_end(b, i) ==> is_digit(b[k]),
    decreases b.len() - i,
{
    if i < b.len() && is_digit(b[i]) {
        lemma_digits_end(b, i + 1);
    }
}

fn ident_end(b: &[u8], i: usize) -> (e: usize)
    requires
        i <= b@.len(),
    ensures
        e == ident_end_spec(b@, i as int),
        i <= e <= b@.len(),
        forall|k: int| i <= k < e ==> is_ident_char(b@[k]),
{
    proof {
        lemma_ident_end(b@, i as int);
    }
    let mut j = i;
    while j < b.len() && (is_alpha_exec(b[j]) || (48 <= b[j] && b[j] <= 57) || b[j] == 95)
        invariant
            i <= j <= b@.len(),
            ident_end_spec(b@, i as int) == ident_end_spec(b@, j as int),
            forall|k: int| i <= k < j ==> is_ident_char(b@[k]),
        decreases b@.len() - j,
    {
        j = j + 1;
    }
    j
}

fn is_alpha_exec(c: u8) -> (r: bool)
    ensures
        r == is_alpha(c),
{
    (65 <= c && c <= 90) || (97 <= c && c <= 122)
}

/// A string of identifier characters.
fn ident_string(b: &[u8], from: usize, to: usize) -> (s: String)
    requires
        from <= to <= b@.len(),
        forall|k: int| from <= k < to ==> is_ident_char(b@[k]),
    ensures
        utf8(s@) == b@.subrange(from as int, to as int),
{
    let mut v: Vec<u8> = Vec::new();
    let mut k = from;
    while k < to
        invariant
            from <= k <= to <= b@.len(),
            v@ == b@.subrange(from as int, k as int),
        decreases to - k,
    {
        v.push(b[k]);
        k = k + 1;
        assert(v@ =~= b@.subrange(from as int, k as int));
    }
    ascii_string(v)
}

proof fn lemma_digits_value_step(d: Seq<u8>, c: u8)
    ensures
        digits_value(digit_values(d.push(c))) == digits_value(digit_values(d)) * 10 + (c - 48) as u8,
{
    assert(digit_values(d.push(c)).drop_last() =~= digit_values(d));
}

proof fn lemma_digits_value_mono(d: Seq<u8>)
    requires
        forall|k: int| 0 <= k < d.len() ==> is_digit(d[k]),
    ensures
        digits_value(digit_values(d)) >= 0,
    decreases d.len(),
{
    if d.len() > 0 {
        lemma_digits_value_mono(d.drop_last());
        lemma_digits_value_step(d.drop_last(), d.last());
        assert(d.drop_last().push(d.last()) =~= d);
    }
}

/// Splits an expression into tokens.
#[verifier::loop_isolation(false)]
pub fn lex(input: &str) -> (r: Result<Vec<Tok>, DbError>)
    ensures
        match r {
            Ok(t) => lex_spec(utf8(input@)) == Some(toks_view(t@)),
            Err(e) => lex_spec(utf8(input@)) is None && e is Validation,
        },
{
    let b = input.as_bytes();
    let ghost bs = b@;
    let mut toks: Vec<Tok> = Vec::new();
    let mut i: usize = 0;
    while i < b.len()
        invariant
            i <= bs.len(),
            b@ == bs,
            bs == utf8(input@),
            lex_spec(bs) == match lex_from(bs, i as int) {
                Some(s) => Some(toks_view(toks@) + s),
                None => None,
            },
        decreases bs.len() - i,
    {
        let c = b[i];
        let ghost before = toks_view(toks@);
        let mut next: usize = i + 1;
        let mut emitted = true;
        if c == 32 || c == 9 || c == 13 || c == 10 {
            emitted = false;
        } else if c == 40 {
            toks.push(Tok::LParen);
        } else if c == 41 {
            toks.push(Tok::RParen);
        } else if c == 44 {
            toks.push(Tok::Comma);
        } else if c == 46 {
            toks.push(Tok::Dot);
        } else if c == 91 {
            toks.push(Tok::LBrack);
        } else if c == 93 {
            toks.push(Tok::RBrack);
        } else if c == 43 {
            toks.push(Tok::Plus);
        } else if c == 45 {
            toks.push(Tok::Minus);
        } else if c == 61 {
            if i + 1 < b.len() && b[i + 1] == 61 {
                assert(lex_from(bs, i as int) is None);
                return Err(validation("expression syntax error: unexpected '=='"));
            }
            toks.push(Tok::Op(CmpOp::Eq));
        } else if c == 60 {
            if i + 1 < b.len() && b[i + 1] == 62 {
                toks.push(Tok::Op(CmpOp::Ne));
                next = i + 2;
            } else if i + 1 < b.len() && b[i + 1] == 61 {
                toks.push(Tok::Op(CmpOp::Le));
                next = i + 2;
            } else {
                toks.push(Tok::Op(CmpOp::Lt));
            }
        } else if c == 62 {
            if i + 1 < b.len() && b[i + 1] == 61 {
                toks.push(Tok::Op(CmpOp::Ge));
                next = i + 2;
            } else {
                toks.push(Tok::Op(CmpOp::Gt));
            }
        } else if c == 35 || c == 58 {
            let end = ident_end(b, i + 1);
            if end == i + 1 {
                assert(lex_placeholder(bs, i as int) is None);
                assert(lex_from(bs, i as int) is None);
                return Err(validation("expression syntax error: empty placeholder"));
            }
            let name = ident_string(b, i + 1, end);
            if c == 35 {
                toks.push(Tok::NamePh(name));
            } else {
                toks.push(Tok::ValPh(name));
            }
            next = end;
            assert(lex_placeholder(bs, i as int) == cons(tok_view(toks@.last()), lex_from(bs, end as int)));
        } else if 48 <= c && c <= 57 {
            let start = i;
            let mut j = i;
            let mut n: usize = 0;
            proof {
                lemma_digits_end(bs, i as int);
                assert(digit_values(bs.subrange(start as int, start as int)) =~= Seq::<u8>::empty());
            }
            while j < b.len() && 48 <= b[j] && b[j] <= 57
                invariant
                    start <= j <= bs.len(),
                    b@ == bs,
                    digits_end(bs, start as int) == digits_end(bs, j as int),
                    forall|k: int| start <= k < j ==> is_digit(bs[k]),
                    n == digits_value(digit_values(bs.subrange(start as int, j as int))),
                decreases bs.len() - j,
            {
                proof {
                    assert(bs.subrange(start as int, j + 1) =~= bs.subrange(start as int, j as int).push(bs[j as int]));
                    lemma_digits_value_step(bs.subrange(start as int, j as int), bs[j as int]);
                }
                proof {
                    lemma_digits_end(bs, j + 1);
                }
                let d = (b[j] - 48) as usize;
                match n.checked_mul(10) {
                    Some(m) => match m.checked_add(d) {
                        Some(s) => {
                            n = s;
                        },
                        None => {
                            proof {
                                lemma_digits_rest_grow(bs, start as int, j + 1);
                                assert(lex_number(bs, start as int) is None);
                            }
                            return Err(validation("expression syntax error: index too large"));
                        },
                    },
                    None => {
                        proof {
                            lemma_digits_rest_grow(bs, start as int, j + 1);
                            assert(lex_number(bs, start as int) is None);
                        }
                        return Err(validation("expression syntax error: index too large"));
                    },
                }
                j = j + 1;
            }
            assert(j > i);
            assert(j == digits_end(bs, start as int));
            toks.push(Tok::Num(n));
            next = j;
            assert(tok_view(toks@.last()) == TokV::Num(n as nat));
            assert(lex_number(bs, i as int) == cons(TokV::Num(n as nat), lex_from(bs, j as int)));
        } else if is_alpha_exec(c) || c == 95 {
            let end = ident_end(b, i);
            assert(end > i) by {
                lemma_ident_end(bs, i + 1);
            }
            let name = ident_string(b, i, end);
            toks.push(Tok::Ident(name));
            next = end;
            assert(tok_view(toks@.last()) == TokV::Ident(bs.subrange(i as int, end as int)));
            assert(lex_ident(bs, i as int) == cons(TokV::Ident(bs.subrange(i as int, end as int)), lex_from(bs, end as int)));
        } else {
            assert(!is_alpha(c) && !is_digit(c) && !is_space(c));
            assert(lex_from(bs, i as int) is None);
            return Err(validation("expression syntax error: unexpected character"));
        }
        proof {
            if emitted {
                assert(lex_from(bs, i as int) == cons(toks_view(toks@).last(), lex_from(bs, next as int)));
                assert(toks_view(toks@) =~= before + seq![toks_view(toks@).last()]);
                if let Some(s) = lex_from(bs, next as int) {
                    assert(toks_view(toks@) + s =~= before + (seq![toks_view(toks@).last()] + s));
                }
            } else {
                assert(lex_from(bs, i as int) == lex_from(bs, next as int));
                assert(toks_view(toks@) == before);
            }
        }
        i = next;
    }
    assert(toks_view(toks@) + Seq::<TokV>::empty() =~= toks_view(toks@));
    Ok(toks)
}

/// Digits beyond a run that already overflows keep it overflowing.
proof fn lemma_digits_rest_grow(b: Seq<u8>, start: int, j: int)
    requires
        0 <= start < j <= digits_end(b, start),
        digits_end(b, start) <= b.len(),
        forall|k: int| start <= k < digits_end(b, start) ==> is_digit(b[k]),
        digits_value(digit_values(b.subrange(start, j))) > usize::MAX,
    ensures
        digits_value(digit_values(b.subrange(start, digits_end(b, start)))) > usize::MAX,
    decreases digits_end(b, start) - j,
{
    let e = digits_end(b, start);
    if j < e {
        assert(b.subrange(start, j + 1) =~= b.subrange(start, j).push(b[j]));
        lemma_digits_value_step(b.subrange(start, j), b[j]);
        lemma_digits_rest_grow(b, start, j + 1);
    }
}

/// The value of a run of ASCII decimal digits, most significant first.
pub open spec fn decimal(s: Seq<u8>) -> nat
    decreases s.len(),
{
    if s.len() == 0 {
        0
    } else {
        decimal(s.drop_last()) * 10 + (s.last() - 48) as nat
    }
}

/// `b[i..e]` is a maximal run of ASCII digits: every byte in it is a digit
/// and the byte after it (if any) is not.
pub open spec fn digit_run(b: Seq<u8>, i: int, e: int) -> bool {
    &&& 0 <= i < e <= b.len()
    &&& forall|k: int| i <= k < e ==> 48 <= #[trigger] b[k] <= 57
    &&& (e == b.len() || !(48 <= b[e] <= 57))
}

proof fn lemma_decimal_digits_value(s: Seq<u8>)
    requires
        forall|k: int| 0 <= k < s.len() ==> 48 <= #[trigger] s[k] <= 57,
    ensures
        digits_value(digit_values(s)) == decimal(s),
    decreases s.len(),
{
    if s.len() > 0 {
        let t = s.drop_last();
        assert forall|k: int| 0 <= k < t.len() implies 48 <= #[trigger] t[k] <= 57 by {
            assert(t[k] == s[k]);
        }
        lemma_decimal_digits_value(t);
        assert(digit_values(s).drop_last() =~= digit_values(t));
        assert(s[s.len() - 1] == s.last());
    }
}

proof fn lemma_digits_end_run(b: Seq<u8>, i: int, e: int)
    requires
        0 <= i <= e <= b.len(),
        forall|k: int| i <= k < e ==> 48 <= #[trigger] b[k] <= 57,
        e == b.len() || !(48 <= b[e] <= 57),
    ensures
        digits_end(b, i) == e,
    decreases e - i,
{
    if i < e {
        lemma_digits_end_run(b, i + 1, e);
    }
}

/// A number token is the whole run of digits it starts at: where `b[i..e]`
/// is a maximal run of decimal digits whose value fits a `usize`, the tokens
/// from `i` are one index token of that value, then the tokens from `e`;
/// where the value does not fit, the text does not lex.
pub proof fn lemma_lex_digit_run(b: Seq<u8>, i: int, e: int)
    requires
        digit_run(b, i, e),
    ensures
        decimal(b.subrange(i, e)) <= usize::MAX ==> lex_from(b, i) == cons(
            TokV::Num(decimal(b.subrange(i, e))),
            lex_from(b, e),
        ),
        decimal(b.subrange(i, e)) > usize::MAX ==> lex_from(b, i) is None,
{
    lemma_digits_end_run(b, i, e);
    let d = b.subrange(i, e);
    assert forall|k: int| 0 <= k < d.len() implies 48 <= #[trigger] d[k] <= 57 by {
        assert(d[k] == b[i + k]);
    }
    lemma_decimal_digits_value(d);
    assert(48 <= b[i] <= 57);
    assert(lex_from(b, i) == lex_number(b, i));
}

proof fn lemma_ident_end_run(b: Seq<u8>, i: int, e: int)
    requires
        0 <= i <= e <= b.len(),
        forall|k: int| i <= k < e ==> is_ident_char(#[trigger] b[k]),
        e == b.len() || !is_ident_char(b[e]),
    ensures
        ident_end_spec(b, i) == e,
    decreases e - i,
{
    if i < e {
        lemma_ident_end_run(b, i + 1, e);
    }
}

/// A list index written after a name lexes as that name, `[`, one index
/// token holding the whole number, and `]`: `a[12]` is
/// `Ident(a) LBrack Num(12) RBrack`, for every name that starts with a
/// letter and every digit run whose value fits a `usize`.
pub proof fn lemma_lex_indexed_name(name: Seq<u8>, digits: Seq<u8>)
    requires
        name.len() > 0,
        is_alpha(name[0]),
        forall|k: int| 0 <= k < name.len() ==> is_ident_char(#[trigger] name[k]),
        digits.len() > 0,
        forall|k: int| 0 <= k < digits.len() ==> 48 <= #[trigger] digits[k] <= 57,
        decimal(digits) <= usize::MAX,
    ensures
        lex_spec(name + seq![91u8] + digits + seq![93u8]) == Some(
            seq![TokV::Ident(name), TokV::LBrack, TokV::Num(decimal(digits)), TokV::RBrack],
        ),
{
    let b = name + seq![91u8] + digits + seq![93u8];
    let n = name.len() as int;
    let m = digits.len() as int;
    assert(b.len() == n + 1 + m + 1);
    assert forall|k: int| 0 <= k < n implies is_ident_char(#[trigger] b[k]) by {
        assert(b[k] == name[k]);
    }
    assert(b[n] == 91u8);
    lemma_ident_end_run(b, 0, n);
    assert(b.subrange(0, n) =~= name);
    assert(b[0] == name[0]);
    assert(!is_digit(b[0]) && !is_space(b[0]));
    assert(lex_from(b, 0) == lex_ident(b, 0));
    assert(lex_ident(b, 0) == cons(TokV::Ident(b.subrange(0, n)), lex_from(b, n)));
    assert(lex_from(b, 0) == cons(TokV::Ident(name), lex_from(b, n)));
    assert(lex_from(b, n) == cons(TokV::LBrack, lex_from(b, n + 1)));
    assert forall|k: int| n + 1 <= k < n + 1 + m implies 48 <= #[trigger] b[k] <= 57 by {
        assert(b[k] == digits[k - n - 1]);
    }
    assert(b[n + 1 + m] == 93u8);
    assert(b.subrange(n + 1, n + 1 + m) =~= digits);
    lemma_lex_digit_run(b, n + 1, n + 1 + m);
    assert(lex_from(b, n + 1 + m) == cons(TokV::RBrack, lex_from(b, n + 2 + m)));
    assert(lex_from(b, n + 2 + m) == Some(Seq::<TokV>::empty()));
    assert(seq![TokV::Ident(name)] + (seq![TokV::LBrack] + (seq![TokV::Num(decimal(digits))] + (seq![
        TokV::RBrack,
    ] + Seq::<TokV>::empty()))) =~= seq![
        TokV::Ident(name),
        TokV::LBrack,
        TokV::Num(decimal(digits)),
        TokV::RBrack,
    ]);
}

/// A name is the whole run of identifier characters it starts at: where
/// `b[i..e]` starts with a letter or `_` and is a maximal run of letters,
/// digits and `_`, the tokens from `i` are that name, then the tokens from
/// `e`.
pub proof fn lemma_lex_name_run(b: Seq<u8>, i: int, e: int)
    requires
        0 <= i < e <= b.len(),
        is_alpha(b[i]) || b[i] == 95,
        forall|k: int| i <= k < e ==> is_ident_char(#[trigger] b[k]),
        e == b.len() || !is_ident_char(b[e]),
    ensures
        lex_from(b, i) == cons(TokV::Ident(b.subrange(i, e)), lex_from(b, e)),
{
    lemma_ident_end_run(b, i, e);
    assert(!is_digit(b[i]) && !is_space(b[i]));
    assert(lex_from(b, i) == lex_ident(b, i));
}

/// A placeholder is `#` or `:` followed by the whole run of identifier
/// characters after it: the tokens from `i` are a name placeholder (for
/// `#`) or a value placeholder (for `:`) holding that run, then the tokens
/// after it; with no identifier character after the mark, the text does
/// not lex.
pub proof fn lemma_lex_placeholder_run(b: Seq<u8>, i: int, e: int)
    requires
        0 <= i < b.len(),
        b[i] == 35 || b[i] == 58,
        i + 1 <= e <= b.len(),
        forall|k: int| i + 1 <= k < e ==> is_ident_char(#[trigger] b[k]),
        e == b.len() || !is_ident_char(b[e]),
    ensures
        e == i + 1 ==> lex_from(b, i) is None,
        e > i + 1 && b[i] == 35 ==> lex_from(b, i) == cons(
            TokV::NamePh(b.subrange(i + 1, e)),
            lex_from(b, e),
        ),
        e > i + 1 && b[i] == 58 ==> lex_from(b, i) == cons(
            TokV::ValPh(b.subrange(i + 1, e)),
            lex_from(b, e),
        ),
{
    lemma_ident_end_run(b, i + 1, e);
    assert(lex_from(b, i) == lex_placeholder(b, i));
}

/// Blanks (space, tab, CR, LF) separate tokens and are no tokens themselves.
pub proof fn lemma_lex_blank(b: Seq<u8>, i: int)
    requires
        0 <= i < b.len(),
        b[i] == 32 || b[i] == 9 || b[i] == 13 || b[i] == 10,
    ensures
        lex_from(b, i) == lex_from(b, i + 1),
{
}

/// The comparison operators: `<>`, `<=` and `>=` are one token of two
/// characters; `<` and `>` alone (not followed by what would make one of
/// those) are one token; `=` is one token, and `==` does not lex.
pub proof fn lemma_lex_comparison(b: Seq<u8>, i: int)
    requires
        0 <= i < b.len(),
    ensures
        b[i] == 60 && i + 1 < b.len() && b[i + 1] == 62 ==> lex_from(b, i) == cons(
            TokV::Op(CmpOp::Ne),
            lex_from(b, i + 2),
        ),
        b[i] == 60 && i + 1 < b.len() && b[i + 1] == 61 ==> lex_from(b, i) == cons(
            TokV::Op(CmpOp::Le),
            lex_from(b, i + 2),
        ),
        b[i] == 60 && !(i + 1 < b.len() && (b[i + 1] == 62 || b[i + 1] == 61)) ==> lex_from(b, i)
            == cons(TokV::Op(CmpOp::Lt), lex_from(b, i + 1)),
        b[i] == 62 && i + 1 < b.len() && b[i + 1] == 61 ==> lex_from(b, i) == cons(
            TokV::Op(CmpOp::Ge),
            lex_from(b, i + 2),
        ),
        b[i] == 62 && !(i + 1 < b.len() && b[i + 1] == 61) ==> lex_from(b, i) == cons(
            TokV::Op(CmpOp::Gt),
            lex_from(b, i + 1),
        ),
        b[i] == 61 && i + 1 < b.len() && b[i + 1] == 61 ==> lex_from(b, i) is None,
        b[i] == 61 && !(i + 1 < b.len() && b[i + 1] == 61) ==> lex_from(b, i) == cons(
            TokV::Op(CmpOp::Eq),
            lex_from(b, i + 1),
        ),
{
}

/// Each punctuation character is one token of its own: `(`, `)`, `,`,
/// `.`, `[`, `]`, `+`, `-`.
pub proof fn lemma_lex_punctuation(b: Seq<u8>, i: int)
    requires
        0 <= i < b.len(),
    ensures
        b[i] == 40 ==> lex_from(b, i) == cons(TokV::LParen, lex_from(b, i + 1)),
        b[i] == 41 ==> lex_from(b, i) == cons(TokV::RParen, lex_from(b, i + 1)),
        b[i] == 44 ==> lex_from(b, i) == cons(TokV::Comma, lex_from(b, i + 1)),
        b[i] == 46 ==> lex_from(b, i) == cons(TokV::Dot, lex_from(b, i + 1)),
        b[i] == 91 ==> lex_from(b, i) == cons(TokV::LBrack, lex_from(b, i + 1)),
        b[i] == 93 ==> lex_from(b, i) == cons(TokV::RBrack, lex_from(b, i + 1)),
        b[i] == 43 ==> lex_from(b, i) == cons(TokV::Plus, lex_from(b, i + 1)),
        b[i] == 45 ==> lex_from(b, i) == cons(TokV::Minus, lex_from(b, i + 1)),
{
}

} // verus!
