//! The grammar of the expression language, as relations between token
//! sequences and syntax trees. The parsers are proved against it both ways:
//! what they return is written by the tokens, and they fail only where
//! nothing is.
use vstd::prelude::*;
use crate::domain::expr::ast::{CmpOp, Expr, KeyCondition, Operand, Path, PathSeg, SetOperand, SetValue, SkCond, UpdateExpr};
use crate::domain::expr::lexer::TokV;
use crate::domain::text::utf8;

verus! {

pub open spec fn upper(c: u8) -> u8 {
    if 97 <= c <= 122 {
        (c - 32) as u8
    } else {
        c
    }
}

/// ASCII case-insensitive equality of byte strings.
pub open spec fn ieq(a: Seq<u8>, w: Seq<u8>) -> bool {
    a.len() == w.len() && forall|k: int| 0 <= k < a.len() ==> upper(a[k]) == upper(w[k])
}

/// The token is the keyword `w`, in any case.
pub open spec fn is_kw(t: TokV, w: Seq<u8>) -> bool {
    t matches TokV::Ident(s) && ieq(s, w)
}

pub open spec fn kw_and() -> Seq<u8> {
    utf8("AND"@)
}

pub open spec fn kw_or() -> Seq<u8> {
    utf8("OR"@)
}

pub open spec fn kw_not() -> Seq<u8> {
    utf8("NOT"@)
}

pub open spec fn kw_between() -> Seq<u8> {
    utf8("BETWEEN"@)
}

pub open spec fn kw_in() -> Seq<u8> {
    utf8("IN"@)
}

pub open spec fn kw_set() -> Seq<u8> {
    utf8("SET"@)
}

pub open spec fn kw_remove() -> Seq<u8> {
    utf8("REMOVE"@)
}

pub open spec fn kw_add() -> Seq<u8> {
    utf8("ADD"@)
}

pub open spec fn kw_delete() -> Seq<u8> {
    utf8("DELETE"@)
}

/// Words that cannot be attribute names (use a #name placeholder).
pub open spec fn reserved(s: Seq<u8>) -> bool {
    ieq(s, kw_and()) || ieq(s, kw_or()) || ieq(s, kw_not()) || ieq(s, kw_between()) || ieq(
        s,
        kw_in(),
    ) || ieq(s, kw_set()) || ieq(s, kw_remove()) || ieq(s, kw_add()) || ieq(s, kw_delete())
}

/// A name segment written by one token.
pub open spec fn seg_matches(tv: TokV, seg: PathSeg) -> bool {
    match (tv, seg) {
        (TokV::Ident(n), PathSeg::Name(s)) => n == utf8(s@) && !reserved(n),
        (TokV::NamePh(n), PathSeg::Placeholder(s)) => n == utf8(s@),
        _ => false,
    }
}

/// The token at `i` is the head of a path: a name or a #name.
pub open spec fn head_at(t: Seq<TokV>, i: int, seg: PathSeg) -> bool {
    0 <= i < t.len() && seg_matches(t[i], seg)
}

/// One more segment after position `i`: `.name` / `.#name` / `[n]`.
pub open spec fn seg_step(t: Seq<TokV>, i: int, seg: PathSeg) -> Option<int> {
    match seg {
        PathSeg::Index(n) => if 0 <= i && i + 2 < t.len() && t[i] is LBrack && t[i + 1] == TokV::Num(
            n as nat,
        ) && t[i + 2] is RBrack {
            Some(i + 3)
        } else {
            None
        },
        _ => if 0 <= i && i + 1 < t.len() && t[i] is Dot && head_at(t, i + 1, seg) {
            Some(i + 2)
        } else {
            None
        },
    }
}

/// Where the segments after the head end, starting at `i`.
pub open spec fn tail_end(t: Seq<TokV>, i: int, segs: Seq<PathSeg>) -> Option<int>
    decreases segs.len(),
{
    if segs.len() == 0 {
        Some(i)
    } else {
        match tail_end(t, i, segs.drop_last()) {
            Some(k) => seg_step(t, k, segs.last()),
            None => None,
        }
    }
}

/// Where the path written from `i` ends.
pub open spec fn path_end(t: Seq<TokV>, i: int, p: Path) -> Option<int> {
    if p.0@.len() > 0 && head_at(t, i, p.0@[0]) {
        tail_end(t, i + 1, p.0@.drop_first())
    } else {
        None
    }
}

/// No further path segment can start at `k`: the token there is neither
/// `.` nor `[`.
pub open spec fn stops(t: Seq<TokV>, k: int) -> bool {
    !tok_is(t, k, TokV::Dot) && !tok_is(t, k, TokV::LBrack)
}

/// The path `p` is written from `i` and ends where no segment can follow.
#[verifier::opaque]
pub open spec fn path_stop(t: Seq<TokV>, i: int, p: Path) -> bool {
    &&& path_end(t, i, p) is Some
    &&& stops(t, path_end(t, i, p)->0)
}

/// A path's segments that end somewhere have every prefix end somewhere.
pub proof fn lemma_tail_prefix(t: Seq<TokV>, i: int, s: Seq<PathSeg>, m: int)
    requires
        tail_end(t, i, s) is Some,
        0 <= m <= s.len(),
    ensures
        tail_end(t, i, s.take(m)) is Some,
    decreases s.len(),
{
    if m < s.len() {
        lemma_tail_prefix(t, i, s.drop_last(), m);
        assert(s.drop_last().take(m) =~= s.take(m));
    } else {
        assert(s.take(m) =~= s);
    }
}

/// Every path written from `i` that stops ends at `end`.
#[verifier::opaque]
pub open spec fn path_complete(t: Seq<TokV>, i: int, end: Option<int>) -> bool {
    forall|q: Path| #[trigger] path_stop(t, i, q) ==> end == Some(path_end(t, i, q)->0)
}

/// A path that stops starts with a head at `i`.
pub proof fn lemma_path_start(t: Seq<TokV>, i: int, q: Path)
    requires
        path_stop(t, i, q),
    ensures
        q.0@.len() >= 1,
        head_at(t, i, q.0@[0]),
        tail_end(t, i + 1, q.0@.subrange(1, 1)) == Some(i + 1),
{
    reveal(path_stop);
    assert(q.0@.subrange(1, 1) =~= Seq::<PathSeg>::empty());
}

/// Where the first `n` segments of a path that stops end at `cur`: either
/// they are all of it and nothing can follow, or the next one starts there.
pub proof fn lemma_path_step(t: Seq<TokV>, i: int, q: Path, n: int, cur: int)
    requires
        path_stop(t, i, q),
        1 <= n <= q.0@.len(),
        tail_end(t, i + 1, q.0@.subrange(1, n)) == Some(cur),
    ensures
        n == q.0@.len() ==> stops(t, cur) && path_end(t, i, q)->0 == cur,
        n < q.0@.len() ==> seg_step(t, cur, q.0@[n]) is Some && tail_end(
            t,
            i + 1,
            q.0@.subrange(1, n + 1),
        ) == seg_step(t, cur, q.0@[n]),
{
    reveal(path_stop);
    assert(q.0@.subrange(1, q.0@.len() as int) =~= q.0@.drop_first());
    if n < q.0@.len() {
        lemma_tail_prefix(t, i + 1, q.0@.drop_first(), n);
        assert(q.0@.drop_first().take(n) =~= q.0@.subrange(1, n + 1));
        assert(q.0@.subrange(1, n + 1).drop_last() =~= q.0@.subrange(1, n));
    }
}

pub open spec fn tok_is(t: Seq<TokV>, i: int, v: TokV) -> bool {
    0 <= i < t.len() && t[i] == v
}

pub open spec fn tok_kw(t: Seq<TokV>, i: int, w: Seq<u8>) -> bool {
    0 <= i < t.len() && is_kw(t[i], w)
}

/// Where the operand written from `i` ends. A bare `size` always starts the
/// size function, so a path operand cannot begin with it.
pub open spec fn operand_end(t: Seq<TokV>, i: int, o: Operand) -> Option<int> {
    match o {
        Operand::Value(v) => if tok_is(t, i, TokV::ValPh(utf8(v@))) {
            Some(i + 1)
        } else {
            None
        },
        Operand::Size(p) => if tok_is(t, i, TokV::Ident(utf8("size"@))) && tok_is(
            t,
            i + 1,
            TokV::LParen,
        ) {
            match path_end(t, i + 2, p) {
                Some(k) => if tok_is(t, k, TokV::RParen) {
                    Some(k + 1)
                } else {
                    None
                },
                None => None,
            }
        } else {
            None
        },
        Operand::Path(p) => if tok_is(t, i, TokV::Ident(utf8("size"@))) {
            None
        } else {
            path_end(t, i, p)
        },
    }
}

/// Where a non-empty comma-separated list of operands ends.
pub open spec fn operands_end(t: Seq<TokV>, i: int, list: Seq<Operand>) -> Option<int>
    decreases list.len(),
{
    if list.len() == 0 {
        None
    } else if list.len() == 1 {
        operand_end(t, i, list[0])
    } else {
        match operands_end(t, i, list.drop_last()) {
            Some(k) => if tok_is(t, k, TokV::Comma) {
                operand_end(t, k + 1, list.last())
            } else {
                None
            },
            None => None,
        }
    }
}

/// A boolean function call spans `t[i..j]`.
pub open spec fn func_at(t: Seq<TokV>, i: int, j: int, e: Expr) -> bool {
    &&& tok_is(t, i + 1, TokV::LParen)
    &&& tok_is(t, j - 1, TokV::RParen)
    &&& match e {
        Expr::AttributeExists(p) => tok_is(t, i, TokV::Ident(utf8("attribute_exists"@)))
            && path_end(t, i + 2, p) == Some(j - 1),
        Expr::AttributeNotExists(p) => tok_is(t, i, TokV::Ident(utf8("attribute_not_exists"@)))
            && path_end(t, i + 2, p) == Some(j - 1),
        Expr::AttributeType(p, v) => tok_is(t, i, TokV::Ident(utf8("attribute_type"@)))
            && path_end(t, i + 2, p) == Some(j - 3) && tok_is(t, j - 3, TokV::Comma) && tok_is(
            t,
            j - 2,
            TokV::ValPh(utf8(v@)),
        ),
        Expr::BeginsWith(p, o) => tok_is(t, i, TokV::Ident(utf8("begins_with"@))) && match path_end(
            t,
            i + 2,
            p,
        ) {
            Some(k) => tok_is(t, k, TokV::Comma) && operand_end(t, k + 1, o) == Some(j - 1),
            None => false,
        },
        Expr::Contains(p, o) => tok_is(t, i, TokV::Ident(utf8("contains"@))) && match path_end(
            t,
            i + 2,
            p,
        ) {
            Some(k) => tok_is(t, k, TokV::Comma) && operand_end(t, k + 1, o) == Some(j - 1),
            None => false,
        },
        _ => false,
    }
}

/// A comparison, BETWEEN or IN spans `t[i..j]`.
pub open spec fn compare_at(t: Seq<TokV>, i: int, j: int, e: Expr) -> bool {
    match e {
        Expr::Cmp { op, left, right } => match operand_end(t, i, left) {
            Some(k) => tok_is(t, k, TokV::Op(op)) && operand_end(t, k + 1, right) == Some(j),
            None => false,
        },
        Expr::Between { target, lo, hi } => match operand_end(t, i, target) {
            Some(k1) => tok_kw(t, k1, kw_between()) && match operand_end(t, k1 + 1, lo) {
                Some(k2) => tok_kw(t, k2, kw_and()) && operand_end(t, k2 + 1, hi) == Some(j),
                None => false,
            },
            None => false,
        },
        Expr::In { target, list } => match operand_end(t, i, target) {
            Some(k) => tok_kw(t, k, kw_in()) && tok_is(t, k + 1, TokV::LParen) && operands_end(
                t,
                k + 2,
                list@,
            ) == Some(j - 1) && tok_is(t, j - 1, TokV::RParen),
            None => false,
        },
        _ => false,
    }
}

/// A primary condition spans `t[i..j]`: a parenthesized condition, a
/// function call or a comparison.
pub open spec fn primary_at(t: Seq<TokV>, i: int, j: int, e: Expr) -> bool
    decreases j - i, 0int,
{
    if 0 <= i && i + 2 <= j && j <= t.len() {
        (t[i] is LParen && t[j - 1] is RParen && or_at(t, i + 1, j - 1, e)) || func_at(t, i, j, e)
            || compare_at(t, i, j, e)
    } else {
        func_at(t, i, j, e) || compare_at(t, i, j, e)
    }
}

/// NOT* primary spans `t[i..j]`.
pub open spec fn not_at(t: Seq<TokV>, i: int, j: int, e: Expr) -> bool
    decreases j - i, 1int,
{
    ||| (0 <= i < j && tok_kw(t, i, kw_not()) && match e {
        Expr::Not(x) => not_at(t, i + 1, j, *x),
        _ => false,
    })
    ||| primary_at(t, i, j, e)
}

/// A left-associated AND chain spans `t[i..j]`.
pub open spec fn and_at(t: Seq<TokV>, i: int, j: int, e: Expr) -> bool
    decreases j - i, 2int,
{
    ||| not_at(t, i, j, e)
    ||| match e {
        Expr::And(l, r) => exists|k: int|
            i < k < j && #[trigger] tok_kw(t, k, kw_and()) && and_at(t, i, k, *l) && not_at(
                t,
                k + 1,
                j,
                *r,
            ),
        _ => false,
    }
}

/// A left-associated OR chain spans `t[i..j]`: a whole condition.
pub open spec fn or_at(t: Seq<TokV>, i: int, j: int, e: Expr) -> bool
    decreases j - i, 3int,
{
    ||| and_at(t, i, j, e)
    ||| match e {
        Expr::Or(l, r) => exists|k: int|
            i < k < j && #[trigger] tok_kw(t, k, kw_or()) && or_at(t, i, k, *l) && and_at(
                t,
                k + 1,
                j,
                *r,
            ),
        _ => false,
    }
}


/// What may follow a whole condition: the end, or `)`.
pub open spec fn or_follow(t: Seq<TokV>, j: int) -> bool {
    j == t.len() || tok_is(t, j, TokV::RParen)
}

/// What may follow an AND chain: what may follow a condition, or OR.
pub open spec fn and_follow(t: Seq<TokV>, j: int) -> bool {
    or_follow(t, j) || tok_kw(t, j, kw_or())
}

/// What may follow a NOT chain or a primary: what may follow an AND chain,
/// or AND.
pub open spec fn not_follow(t: Seq<TokV>, j: int) -> bool {
    and_follow(t, j) || tok_kw(t, j, kw_and())
}

/// An ASCII text is as long as its encoding.
pub proof fn lemma_ascii_len(s: Seq<char>)
    requires
        vstd::utf8::is_ascii_chars(s),
    ensures
        utf8(s).len() == s.len(),
{
    vstd::utf8::is_ascii_chars_encode_utf8(s);
}

/// The lengths of the words of the condition language.
pub proof fn lemma_word_lens()
    ensures
        kw_and().len() == 3,
        kw_or().len() == 2,
        kw_not().len() == 3,
        kw_between().len() == 7,
        kw_in().len() == 2,
        utf8("size"@).len() == 4,
        utf8("attribute_exists"@).len() == 16,
        utf8("attribute_not_exists"@).len() == 20,
        utf8("attribute_type"@).len() == 14,
        utf8("begins_with"@).len() == 11,
        utf8("contains"@).len() == 8,
{
    reveal_strlit("AND");
    reveal_strlit("OR");
    reveal_strlit("NOT");
    reveal_strlit("BETWEEN");
    reveal_strlit("IN");
    reveal_strlit("size");
    reveal_strlit("attribute_exists");
    reveal_strlit("attribute_not_exists");
    reveal_strlit("attribute_type");
    reveal_strlit("begins_with");
    reveal_strlit("contains");
    lemma_ascii_len("AND"@);
    lemma_ascii_len("OR"@);
    lemma_ascii_len("NOT"@);
    lemma_ascii_len("BETWEEN"@);
    lemma_ascii_len("IN"@);
    lemma_ascii_len("size"@);
    lemma_ascii_len("attribute_exists"@);
    lemma_ascii_len("attribute_not_exists"@);
    lemma_ascii_len("attribute_type"@);
    lemma_ascii_len("begins_with"@);
    lemma_ascii_len("contains"@);
}

/// An operand starts with a placeholder or a word.
pub proof fn lemma_operand_head(t: Seq<TokV>, i: int, o: Operand)
    requires
        operand_end(t, i, o) is Some,
    ensures
        0 <= i < t.len(),
        t[i] is ValPh || t[i] is Ident || t[i] is NamePh,
{
    match o {
        Operand::Path(p) => {
            assert(head_at(t, i, p.0@[0]));
        },
        _ => {},
    }
}

/// Every operand written from `i`, followed by what may follow a term, ends
/// at `end`.
#[verifier::opaque]
pub open spec fn opnd_complete(t: Seq<TokV>, i: int, end: Option<int>) -> bool {
    forall|o: Operand| #[trigger]
        operand_end(t, i, o) is Some && op_follow(t, operand_end(t, i, o)->0) ==> end
            == operand_end(t, i, o)
}

/// A placeholder is a whole operand.
pub proof fn lemma_opnd_value(t: Seq<TokV>, i: int)
    requires
        0 <= i < t.len(),
        t[i] is ValPh,
    ensures
        opnd_complete(t, i, Some(i + 1)),
{
    assert forall|o: Operand| #[trigger]
        operand_end(t, i, o) is Some && op_follow(t, operand_end(t, i, o)->0) implies Some(i + 1)
        == operand_end(t, i, o) by {
        match o {
            Operand::Path(p) => {
                assert(head_at(t, i, p.0@[0]));
            },
            _ => {},
        }
    }
    assert(opnd_complete(t, i, Some(i + 1))) by {
        reveal(opnd_complete);
    }
}

/// After the word `size` come `(`, a path and `)`.
pub proof fn lemma_opnd_size(t: Seq<TokV>, i: int, pe: Option<int>)
    requires
        tok_is(t, i, TokV::Ident(utf8("size"@))),
        tok_is(t, i + 1, TokV::LParen) ==> path_complete(t, i + 2, pe),
    ensures
        opnd_complete(
            t,
            i,
            if tok_is(t, i + 1, TokV::LParen) && pe is Some && tok_is(t, pe->0, TokV::RParen) {
                Some(pe->0 + 1)
            } else {
                None
            },
        ),
{
    let end = if tok_is(t, i + 1, TokV::LParen) && pe is Some && tok_is(t, pe->0, TokV::RParen) {
        Some(pe->0 + 1)
    } else {
        None
    };
    assert forall|o: Operand| #[trigger]
        operand_end(t, i, o) is Some && op_follow(t, operand_end(t, i, o)->0) implies end
        == operand_end(t, i, o) by {
        match o {
            Operand::Size(p) => {
                assert(path_stop(t, i + 2, p)) by {
                    reveal(path_stop);
                }
                reveal(path_complete);
            },
            _ => {},
        }
    }
    assert(opnd_complete(t, i, end)) by {
        reveal(opnd_complete);
    }
}

/// Anywhere else an operand is a path.
pub proof fn lemma_opnd_path(t: Seq<TokV>, i: int, pe: Option<int>)
    requires
        !(0 <= i < t.len() && t[i] is ValPh),
        !tok_is(t, i, TokV::Ident(utf8("size"@))),
        path_complete(t, i, pe),
    ensures
        opnd_complete(t, i, pe),
{
    assert forall|o: Operand| #[trigger]
        operand_end(t, i, o) is Some && op_follow(t, operand_end(t, i, o)->0) implies pe
        == operand_end(t, i, o) by {
        match o {
            Operand::Path(p) => {
                assert(path_stop(t, i, p)) by {
                    reveal(path_stop);
                }
                reveal(path_complete);
            },
            _ => {},
        }
    }
    assert(opnd_complete(t, i, pe)) by {
        reveal(opnd_complete);
    }
}

/// The list of operands `l` is written from `i` and closed by `)`.
#[verifier::opaque]
pub open spec fn opnds_stop(t: Seq<TokV>, i: int, l: Seq<Operand>) -> bool {
    &&& operands_end(t, i, l) is Some
    &&& tok_is(t, operands_end(t, i, l)->0, TokV::RParen)
}

/// Every list of operands written from `i` and closed by `)` ends at `end`.
#[verifier::opaque]
pub open spec fn opnds_complete(t: Seq<TokV>, i: int, end: Option<int>) -> bool {
    forall|l: Seq<Operand>| #[trigger] opnds_stop(t, i, l) ==> end == Some(operands_end(t, i, l)->0)
}

pub proof fn lemma_opnds_prefix(t: Seq<TokV>, i: int, s: Seq<Operand>, n: int)
    requires
        operands_end(t, i, s) is Some,
        1 <= n < s.len(),
    ensures
        operands_end(t, i, s.take(n)) is Some,
        tok_is(t, operands_end(t, i, s.take(n))->0, TokV::Comma),
        operands_end(t, i, s.take(n + 1)) == operand_end(t, operands_end(t, i, s.take(n))->0 + 1, s[n]),
    decreases s.len(),
{
    if n == s.len() - 1 {
        assert(s.take(n) =~= s.drop_last());
        assert(s.take(n + 1) =~= s);
    } else {
        lemma_opnds_prefix(t, i, s.drop_last(), n);
        assert(s.drop_last().take(n) =~= s.take(n));
        assert(s.drop_last().take(n + 1) =~= s.take(n + 1));
    }
}

pub proof fn lemma_opnds_first(t: Seq<TokV>, i: int, s: Seq<Operand>)
    requires
        opnds_stop(t, i, s),
    ensures
        s.len() >= 1,
        operand_end(t, i, s[0]) is Some,
        op_follow(t, operand_end(t, i, s[0])->0),
        operands_end(t, i, s.take(1)) == operand_end(t, i, s[0]),
{
    reveal(opnds_stop);
    assert(s.take(1).len() == 1);
    if s.len() > 1 {
        lemma_opnds_prefix(t, i, s, 1);
    } else {
        assert(s.take(1) =~= s);
    }
}

pub proof fn lemma_opnds_next(t: Seq<TokV>, i: int, s: Seq<Operand>, n: int, cur: int)
    requires
        opnds_stop(t, i, s),
        1 <= n <= s.len(),
        operands_end(t, i, s.take(n)) == Some(cur),
    ensures
        n == s.len() ==> operands_end(t, i, s)->0 == cur && tok_is(t, cur, TokV::RParen),
        n < s.len() ==> tok_is(t, cur, TokV::Comma) && operand_end(t, cur + 1, s[n]) is Some
            && op_follow(t, operand_end(t, cur + 1, s[n])->0) && operands_end(t, i, s.take(n + 1))
            == operand_end(t, cur + 1, s[n]),
{
    reveal(opnds_stop);
    if n < s.len() {
        lemma_opnds_prefix(t, i, s, n);
        if n + 1 < s.len() {
            lemma_opnds_prefix(t, i, s, n + 1);
        } else {
            assert(s.take(n + 1) =~= s);
        }
    } else {
        assert(s.take(n) =~= s);
    }
}

/// Every comparison, BETWEEN or IN written from `i`, followed by what may
/// follow a primary, ends at `end`.
#[verifier::opaque]
pub open spec fn compare_complete(t: Seq<TokV>, i: int, end: Option<int>) -> bool {
    forall|e: Expr, j: int| #[trigger] compare_at(t, i, j, e) && not_follow(t, j) ==> end == Some(j)
}

/// What may follow a primary may follow a term.
pub proof fn lemma_not_follow_op(t: Seq<TokV>, j: int)
    requires
        not_follow(t, j),
    ensures
        op_follow(t, j),
{
}

/// An operand then a comparator and an operand.
pub proof fn lemma_compare_op(t: Seq<TokV>, i: int, ae: Option<int>, re: Option<int>)
    requires
        opnd_complete(t, i, ae),
        ae is Some && 0 <= ae->0 < t.len() && t[ae->0] is Op ==> opnd_complete(t, ae->0 + 1, re),
        ae is Some,
        0 <= ae->0 < t.len() && t[ae->0] is Op,
    ensures
        compare_complete(t, i, re),
{
    lemma_word_lens();
    assert forall|e: Expr, j: int| #[trigger] compare_at(t, i, j, e) && not_follow(t, j) implies re
        == Some(j) by {
        lemma_not_follow_op(t, j);
        match e {
            Expr::Cmp { op, left, right } => {
                let k = operand_end(t, i, left)->0;
                assert(op_follow(t, k));
                assert(ae == Some(k)) by {
                    reveal(opnd_complete);
                }
                assert(re == operand_end(t, k + 1, right)) by {
                    reveal(opnd_complete);
                }
            },
            Expr::Between { target, lo, hi } => {
                let k = operand_end(t, i, target)->0;
                assert(op_follow(t, k));
                assert(ae == Some(k)) by {
                    reveal(opnd_complete);
                }
            },
            Expr::In { target, list } => {
                let k = operand_end(t, i, target)->0;
                assert(op_follow(t, k));
                assert(ae == Some(k)) by {
                    reveal(opnd_complete);
                }
            },
            _ => {},
        }
    }
    assert(compare_complete(t, i, re)) by {
        reveal(compare_complete);
    }
}

/// An operand then BETWEEN, an operand, AND and an operand.
pub proof fn lemma_compare_between(t: Seq<TokV>, i: int, ae: Option<int>, loe: Option<int>, hie: Option<int>)
    requires
        opnd_complete(t, i, ae),
        ae is Some,
        tok_kw(t, ae->0, kw_between()),
        opnd_complete(t, ae->0 + 1, loe),
        loe is Some && tok_kw(t, loe->0, kw_and()) ==> opnd_complete(t, loe->0 + 1, hie),
    ensures
        compare_complete(t, i, if loe is Some && tok_kw(t, loe->0, kw_and()) { hie } else { None }),
{
    lemma_word_lens();
    let end = if loe is Some && tok_kw(t, loe->0, kw_and()) {
        hie
    } else {
        None
    };
    assert forall|e: Expr, j: int| #[trigger] compare_at(t, i, j, e) && not_follow(t, j) implies end
        == Some(j) by {
        lemma_not_follow_op(t, j);
        match e {
            Expr::Cmp { op, left, right } => {
                let k = operand_end(t, i, left)->0;
                assert(op_follow(t, k));
                assert(ae == Some(k)) by {
                    reveal(opnd_complete);
                }
            },
            Expr::Between { target, lo, hi } => {
                let k = operand_end(t, i, target)->0;
                assert(op_follow(t, k));
                assert(ae == Some(k)) by {
                    reveal(opnd_complete);
                }
                let k2 = operand_end(t, k + 1, lo)->0;
                assert(op_follow(t, k2));
                assert(loe == Some(k2)) by {
                    reveal(opnd_complete);
                }
                assert(hie == operand_end(t, k2 + 1, hi)) by {
                    reveal(opnd_complete);
                }
            },
            Expr::In { target, list } => {
                let k = operand_end(t, i, target)->0;
                assert(op_follow(t, k));
                assert(ae == Some(k)) by {
                    reveal(opnd_complete);
                }
            },
            _ => {},
        }
    }
    assert(compare_complete(t, i, end)) by {
        reveal(compare_complete);
    }
}

/// An operand then IN, `(`, operands and `)`.
pub proof fn lemma_compare_in(t: Seq<TokV>, i: int, ae: Option<int>, le: Option<int>)
    requires
        opnd_complete(t, i, ae),
        ae is Some,
        tok_kw(t, ae->0, kw_in()),
        tok_is(t, ae->0 + 1, TokV::LParen) ==> opnds_complete(t, ae->0 + 2, le),
    ensures
        compare_complete(
            t,
            i,
            if tok_is(t, ae->0 + 1, TokV::LParen) && le is Some && tok_is(t, le->0, TokV::RParen) {
                Some(le->0 + 1)
            } else {
                None
            },
        ),
{
    lemma_word_lens();
    let end = if tok_is(t, ae->0 + 1, TokV::LParen) && le is Some && tok_is(t, le->0, TokV::RParen) {
        Some(le->0 + 1)
    } else {
        None
    };
    assert forall|e: Expr, j: int| #[trigger] compare_at(t, i, j, e) && not_follow(t, j) implies end
        == Some(j) by {
        lemma_not_follow_op(t, j);
        match e {
            Expr::Cmp { op, left, right } => {
                let k = operand_end(t, i, left)->0;
                assert(op_follow(t, k));
                assert(ae == Some(k)) by {
                    reveal(opnd_complete);
                }
            },
            Expr::Between { target, lo, hi } => {
                let k = operand_end(t, i, target)->0;
                assert(op_follow(t, k));
                assert(ae == Some(k)) by {
                    reveal(opnd_complete);
                }
            },
            Expr::In { target, list } => {
                let k = operand_end(t, i, target)->0;
                assert(op_follow(t, k));
                assert(ae == Some(k)) by {
                    reveal(opnd_complete);
                }
                assert(opnds_stop(t, k + 2, list@)) by {
                    reveal(opnds_stop);
                }
                assert(le == Some(j - 1)) by {
                    reveal(opnds_complete);
                }
            },
            _ => {},
        }
    }
    assert(compare_complete(t, i, end)) by {
        reveal(compare_complete);
    }
}

/// After an operand with no comparator, BETWEEN or IN, nothing is a
/// comparison.
pub proof fn lemma_compare_none(t: Seq<TokV>, i: int, ae: Option<int>)
    requires
        opnd_complete(t, i, ae),
        ae is Some ==> !(0 <= ae->0 < t.len() && t[ae->0] is Op) && !tok_kw(t, ae->0, kw_between())
            && !tok_kw(t, ae->0, kw_in()),
    ensures
        compare_complete(t, i, None),
{
    assert forall|e: Expr, j: int| #[trigger] compare_at(t, i, j, e) && not_follow(t, j) implies false
        by {
        lemma_not_follow_op(t, j);
        match e {
            Expr::Cmp { op, left, right } => {
                let k = operand_end(t, i, left)->0;
                assert(op_follow(t, k));
                assert(ae == Some(k)) by {
                    reveal(opnd_complete);
                }
            },
            Expr::Between { target, lo, hi } => {
                let k = operand_end(t, i, target)->0;
                assert(op_follow(t, k));
                assert(ae == Some(k)) by {
                    reveal(opnd_complete);
                }
            },
            Expr::In { target, list } => {
                let k = operand_end(t, i, target)->0;
                assert(op_follow(t, k));
                assert(ae == Some(k)) by {
                    reveal(opnd_complete);
                }
            },
            _ => {},
        }
    }
    assert(compare_complete(t, i, None)) by {
        reveal(compare_complete);
    }
}

/// Every boolean function call written from `i` ends at `end`.
#[verifier::opaque]
pub open spec fn func_complete(t: Seq<TokV>, i: int, end: Option<int>) -> bool {
    forall|e: Expr, j: int| #[trigger] func_at(t, i, j, e) ==> end == Some(j)
}

/// The one-path functions: `attribute_exists(path)` and
/// `attribute_not_exists(path)`.
pub proof fn lemma_func_path(t: Seq<TokV>, i: int, pe: Option<int>, present: bool)
    requires
        tok_is(
            t,
            i,
            TokV::Ident(
                if present {
                    utf8("attribute_exists"@)
                } else {
                    utf8("attribute_not_exists"@)
                },
            ),
        ),
        path_complete(t, i + 2, pe),
    ensures
        func_complete(
            t,
            i,
            if pe is Some && tok_is(t, pe->0, TokV::RParen) {
                Some(pe->0 + 1)
            } else {
                None
            },
        ),
{
    lemma_word_lens();
    let end = if pe is Some && tok_is(t, pe->0, TokV::RParen) {
        Some(pe->0 + 1)
    } else {
        None
    };
    assert forall|e: Expr, j: int| #[trigger] func_at(t, i, j, e) implies end == Some(j) by {
        match e {
            Expr::AttributeExists(p) => {
                assert(path_stop(t, i + 2, p)) by {
                    reveal(path_stop);
                }
                reveal(path_complete);
            },
            Expr::AttributeNotExists(p) => {
                assert(path_stop(t, i + 2, p)) by {
                    reveal(path_stop);
                }
                reveal(path_complete);
            },
            _ => {},
        }
    }
    assert(func_complete(t, i, end)) by {
        reveal(func_complete);
    }
}

/// `attribute_type(path, :v)`.
pub proof fn lemma_func_type(t: Seq<TokV>, i: int, pe: Option<int>)
    requires
        tok_is(t, i, TokV::Ident(utf8("attribute_type"@))),
        path_complete(t, i + 2, pe),
    ensures
        func_complete(
            t,
            i,
            if pe is Some && tok_is(t, pe->0, TokV::Comma) && 0 <= pe->0 + 1 < t.len() && t[pe->0
                + 1] is ValPh && tok_is(t, pe->0 + 2, TokV::RParen) {
                Some(pe->0 + 3)
            } else {
                None
            },
        ),
{
    lemma_word_lens();
    let end = if pe is Some && tok_is(t, pe->0, TokV::Comma) && 0 <= pe->0 + 1 < t.len() && t[pe->0
        + 1] is ValPh && tok_is(t, pe->0 + 2, TokV::RParen) {
        Some(pe->0 + 3)
    } else {
        None
    };
    assert forall|e: Expr, j: int| #[trigger] func_at(t, i, j, e) implies end == Some(j) by {
        match e {
            Expr::AttributeType(p, v) => {
                assert(path_stop(t, i + 2, p)) by {
                    reveal(path_stop);
                }
                reveal(path_complete);
            },
            _ => {},
        }
    }
    assert(func_complete(t, i, end)) by {
        reveal(func_complete);
    }
}

/// The path-and-operand functions: `begins_with(path, operand)` and
/// `contains(path, operand)`.
pub proof fn lemma_func_path_operand(t: Seq<TokV>, i: int, pe: Option<int>, oe: Option<int>, begins: bool)
    requires
        tok_is(
            t,
            i,
            TokV::Ident(
                if begins {
                    utf8("begins_with"@)
                } else {
                    utf8("contains"@)
                },
            ),
        ),
        path_complete(t, i + 2, pe),
        pe is Some && tok_is(t, pe->0, TokV::Comma) ==> opnd_complete(t, pe->0 + 1, oe),
    ensures
        func_complete(
            t,
            i,
            if pe is Some && tok_is(t, pe->0, TokV::Comma) && oe is Some && tok_is(
                t,
                oe->0,
                TokV::RParen,
            ) {
                Some(oe->0 + 1)
            } else {
                None
            },
        ),
{
    lemma_word_lens();
    let end = if pe is Some && tok_is(t, pe->0, TokV::Comma) && oe is Some && tok_is(
        t,
        oe->0,
        TokV::RParen,
    ) {
        Some(oe->0 + 1)
    } else {
        None
    };
    assert forall|e: Expr, j: int| #[trigger] func_at(t, i, j, e) implies end == Some(j) by {
        match e {
            Expr::BeginsWith(p, o) => {
                assert(path_stop(t, i + 2, p)) by {
                    reveal(path_stop);
                }
                let k = path_end(t, i + 2, p)->0;
                assert(pe == Some(k)) by {
                    reveal(path_complete);
                }
                assert(op_follow(t, j - 1));
                assert(oe == operand_end(t, k + 1, o)) by {
                    reveal(opnd_complete);
                }
            },
            Expr::Contains(p, o) => {
                assert(path_stop(t, i + 2, p)) by {
                    reveal(path_stop);
                }
                let k = path_end(t, i + 2, p)->0;
                assert(pe == Some(k)) by {
                    reveal(path_complete);
                }
                assert(op_follow(t, j - 1));
                assert(oe == operand_end(t, k + 1, o)) by {
                    reveal(opnd_complete);
                }
            },
            _ => {},
        }
    }
    assert(func_complete(t, i, end)) by {
        reveal(func_complete);
    }
}

/// No boolean function has another name.
pub proof fn lemma_func_unknown(t: Seq<TokV>, i: int)
    requires
        !tok_is(t, i, TokV::Ident(utf8("attribute_exists"@))),
        !tok_is(t, i, TokV::Ident(utf8("attribute_not_exists"@))),
        !tok_is(t, i, TokV::Ident(utf8("attribute_type"@))),
        !tok_is(t, i, TokV::Ident(utf8("begins_with"@))),
        !tok_is(t, i, TokV::Ident(utf8("contains"@))),
    ensures
        func_complete(t, i, None),
{
    assert(func_complete(t, i, None)) by {
        reveal(func_complete);
    }
}

/// Every primary written from `i`, followed by what may follow one, ends at
/// `end`.
#[verifier::opaque]
pub open spec fn prim_complete(t: Seq<TokV>, i: int, end: Option<int>) -> bool {
    forall|e: Expr, j: int| #[trigger] primary_at(t, i, j, e) && not_follow(t, j) ==> end == Some(j)
}

/// Every condition written from `i`, followed by what may follow one, ends at
/// `end`.
#[verifier::opaque]
pub open spec fn or_complete(t: Seq<TokV>, i: int, end: Option<int>) -> bool {
    forall|e: Expr, j: int| #[trigger] or_at(t, i, j, e) && or_follow(t, j) ==> end == Some(j)
}

/// `(` starts only a parenthesized condition.
pub proof fn lemma_prim_paren(t: Seq<TokV>, i: int, oe: Option<int>)
    requires
        tok_is(t, i, TokV::LParen),
        or_complete(t, i + 1, oe),
    ensures
        prim_complete(
            t,
            i,
            if oe is Some && tok_is(t, oe->0, TokV::RParen) {
                Some(oe->0 + 1)
            } else {
                None
            },
        ),
{
    let end = if oe is Some && tok_is(t, oe->0, TokV::RParen) {
        Some(oe->0 + 1)
    } else {
        None
    };
    assert forall|e: Expr, j: int| #[trigger] primary_at(t, i, j, e) && not_follow(t, j) implies end
        == Some(j) by {
        if compare_at(t, i, j, e) {
            match e {
                Expr::Cmp { op, left, right } => {
                    lemma_operand_head(t, i, left);
                },
                Expr::Between { target, lo, hi } => {
                    lemma_operand_head(t, i, target);
                },
                Expr::In { target, list } => {
                    lemma_operand_head(t, i, target);
                },
                _ => {},
            }
        }
        assert(or_at(t, i + 1, j - 1, e));
        assert(or_follow(t, j - 1));
        reveal(or_complete);
    }
    assert(prim_complete(t, i, end)) by {
        reveal(prim_complete);
    }
}

/// A word other than `size` before `(` starts only a function call.
pub proof fn lemma_prim_func(t: Seq<TokV>, i: int, fe: Option<int>)
    requires
        0 <= i < t.len(),
        t[i] is Ident,
        t[i] != TokV::Ident(utf8("size"@)),
        tok_is(t, i + 1, TokV::LParen),
        func_complete(t, i, fe),
    ensures
        prim_complete(t, i, fe),
{
    assert forall|e: Expr, j: int| #[trigger] primary_at(t, i, j, e) && not_follow(t, j) implies fe
        == Some(j) by {
        if compare_at(t, i, j, e) {
            match e {
                Expr::Cmp { op, left, right } => {
                    if left is Path {
                        lemma_path_before_lparen(t, i, left->Path_0);
                    }
                },
                Expr::Between { target, lo, hi } => {
                    if target is Path {
                        lemma_path_before_lparen(t, i, target->Path_0);
                    }
                },
                Expr::In { target, list } => {
                    if target is Path {
                        lemma_path_before_lparen(t, i, target->Path_0);
                    }
                },
                _ => {},
            }
        }
        reveal(func_complete);
    }
    assert(prim_complete(t, i, fe)) by {
        reveal(prim_complete);
    }
}

/// Anywhere else a primary is a comparison, BETWEEN or IN.
pub proof fn lemma_prim_compare(t: Seq<TokV>, i: int, ce: Option<int>)
    requires
        !tok_is(t, i, TokV::LParen),
        !(0 <= i < t.len() && t[i] is Ident && t[i] != TokV::Ident(utf8("size"@)) && tok_is(
            t,
            i + 1,
            TokV::LParen,
        )),
        compare_complete(t, i, ce),
    ensures
        prim_complete(t, i, ce),
{
    lemma_word_lens();
    assert forall|e: Expr, j: int| #[trigger] primary_at(t, i, j, e) && not_follow(t, j) implies ce
        == Some(j) by {
        reveal(compare_complete);
    }
    assert(prim_complete(t, i, ce)) by {
        reveal(prim_complete);
    }
}

/// Every NOT chain written from `i`, followed by what may follow one, ends at
/// `end`.
#[verifier::opaque]
pub open spec fn not_complete(t: Seq<TokV>, i: int, end: Option<int>) -> bool {
    forall|e: Expr, j: int| #[trigger] not_at(t, i, j, e) && not_follow(t, j) ==> end == Some(j)
}

/// NOT starts only a negation.
pub proof fn lemma_not_not(t: Seq<TokV>, i: int, ne: Option<int>)
    requires
        tok_kw(t, i, kw_not()),
        not_complete(t, i + 1, ne),
    ensures
        not_complete(t, i, ne),
{
    lemma_word_lens();
    assert forall|e: Expr, j: int| #[trigger] not_at(t, i, j, e) && not_follow(t, j) implies ne
        == Some(j) by {
        if primary_at(t, i, j, e) {
            if compare_at(t, i, j, e) {
                match e {
                    Expr::Cmp { op, left, right } => {
                        if left is Path {
                            assert(head_at(t, i, left->Path_0.0@[0]));
                        }
                    },
                    Expr::Between { target, lo, hi } => {
                        if target is Path {
                            assert(head_at(t, i, target->Path_0.0@[0]));
                        }
                    },
                    Expr::In { target, list } => {
                        if target is Path {
                            assert(head_at(t, i, target->Path_0.0@[0]));
                        }
                    },
                    _ => {},
                }
            }
        } else {
            reveal(not_complete);
            assert(not_at(t, i + 1, j, *e->Not_0));
        }
    }
    assert(not_complete(t, i, ne)) by {
        reveal(not_complete);
    }
}

/// Without NOT, a NOT chain is a primary.
pub proof fn lemma_not_prim(t: Seq<TokV>, i: int, pe: Option<int>)
    requires
        !tok_kw(t, i, kw_not()),
        prim_complete(t, i, pe),
    ensures
        not_complete(t, i, pe),
{
    assert forall|e: Expr, j: int| #[trigger] not_at(t, i, j, e) && not_follow(t, j) implies pe
        == Some(j) by {
        assert(primary_at(t, i, j, e));
        reveal(prim_complete);
    }
    assert(not_complete(t, i, pe)) by {
        reveal(not_complete);
    }
}

/// `c` is where one of the NOT chains of the AND chain `e` over `t[i..j]`
/// ends.
pub open spec fn and_cut(t: Seq<TokV>, i: int, j: int, e: Expr, c: int) -> bool
    decreases e,
{
    ||| c == j && and_at(t, i, j, e)
    ||| match e {
        Expr::And(l, r) => exists|k: int|
            #![trigger tok_kw(t, k, kw_and())]
            i < k < j && tok_kw(t, k, kw_and()) && and_at(t, i, k, *l) && not_at(t, k + 1, j, *r)
                && and_cut(t, i, k, *l, c),
        _ => false,
    }
}

pub proof fn lemma_and_cut_le(t: Seq<TokV>, i: int, j: int, e: Expr, c: int)
    requires
        and_cut(t, i, j, e, c),
    ensures
        c <= j,
    decreases e,
{
    if c != j {
        match e {
            Expr::And(l, r) => {
                let k = choose|k: int|
                    #![trigger tok_kw(t, k, kw_and())]
                    i < k < j && tok_kw(t, k, kw_and()) && and_at(t, i, k, *l) && not_at(
                        t,
                        k + 1,
                        j,
                        *r,
                    ) && and_cut(t, i, k, *l, c);
                lemma_and_cut_le(t, i, k, *l, c);
            },
            _ => {},
        }
    }
}

/// The first NOT chain of an AND chain.
pub proof fn lemma_and_first(t: Seq<TokV>, i: int, j: int, e: Expr) -> (r: (int, Expr))
    requires
        and_at(t, i, j, e),
    ensures
        not_at(t, i, r.0, r.1),
        and_cut(t, i, j, e, r.0),
        r.0 == j || tok_kw(t, r.0, kw_and()),
    decreases j - i,
{
    if not_at(t, i, j, e) {
        (j, e)
    } else {
        let l = *e->And_0;
        let rr = *e->And_1;
        let k = choose|k: int|
            i < k < j && #[trigger] tok_kw(t, k, kw_and()) && and_at(t, i, k, l) && not_at(
                t,
                k + 1,
                j,
                rr,
            );
        let (c, x) = lemma_and_first(t, i, k, l);
        assert(and_cut(t, i, k, l, c));
        (c, x)
    }
}

/// After a cut short of the end come AND and the next NOT chain.
pub proof fn lemma_and_next(t: Seq<TokV>, i: int, j: int, e: Expr, c: int) -> (r: (int, Expr))
    requires
        and_cut(t, i, j, e, c),
        c < j,
    ensures
        tok_kw(t, c, kw_and()),
        not_at(t, c + 1, r.0, r.1),
        and_cut(t, i, j, e, r.0),
        r.0 == j || tok_kw(t, r.0, kw_and()),
    decreases e,
{
    let l = *e->And_0;
    let rr = *e->And_1;
    let k = choose|k: int|
        #![trigger tok_kw(t, k, kw_and())]
        i < k < j && tok_kw(t, k, kw_and()) && and_at(t, i, k, l) && not_at(t, k + 1, j, rr)
            && and_cut(t, i, k, l, c);
    lemma_and_cut_le(t, i, k, l, c);
    if c == k {
        assert(and_at(t, i, j, e));
        (j, rr)
    } else {
        let (c2, x) = lemma_and_next(t, i, k, l, c);
        assert(and_cut(t, i, k, l, c2));
        (c2, x)
    }
}

/// For every AND chain written from `i` that ends where an AND chain may,
/// `end` is one of its cuts.
#[verifier::opaque]
pub open spec fn and_cuts(t: Seq<TokV>, i: int, end: Option<int>) -> bool {
    forall|e: Expr, j: int| #[trigger]
        and_at(t, i, j, e) && and_follow(t, j) ==> end is Some && and_cut(t, i, j, e, end->0)
}

/// Every AND chain written from `i`, followed by what may follow one, ends at
/// `end`.
#[verifier::opaque]
pub open spec fn and_complete(t: Seq<TokV>, i: int, end: Option<int>) -> bool {
    forall|e: Expr, j: int| #[trigger] and_at(t, i, j, e) && and_follow(t, j) ==> end == Some(j)
}

pub proof fn lemma_and_start(t: Seq<TokV>, i: int, ne: Option<int>)
    requires
        not_complete(t, i, ne),
    ensures
        and_cuts(t, i, ne),
{
    assert forall|e: Expr, j: int| #[trigger] and_at(t, i, j, e) && and_follow(t, j) implies ne is Some
        && and_cut(t, i, j, e, ne->0) by {
        let (c, x) = lemma_and_first(t, i, j, e);
        assert(not_follow(t, c));
        assert(ne == Some(c)) by {
            reveal(not_complete);
        }
    }
    assert(and_cuts(t, i, ne)) by {
        reveal(and_cuts);
    }
}

pub proof fn lemma_and_step(t: Seq<TokV>, i: int, c: int, ne: Option<int>)
    requires
        and_cuts(t, i, Some(c)),
        tok_kw(t, c, kw_and()),
        not_complete(t, c + 1, ne),
    ensures
        and_cuts(t, i, ne),
{
    lemma_word_lens();
    assert forall|e: Expr, j: int| #[trigger] and_at(t, i, j, e) && and_follow(t, j) implies ne is Some
        && and_cut(t, i, j, e, ne->0) by {
        assert(and_cut(t, i, j, e, c)) by {
            reveal(and_cuts);
        }
        lemma_and_cut_le(t, i, j, e, c);
        let (c2, x) = lemma_and_next(t, i, j, e, c);
        assert(not_follow(t, c2));
        assert(ne == Some(c2)) by {
            reveal(not_complete);
        }
    }
    assert(and_cuts(t, i, ne)) by {
        reveal(and_cuts);
    }
}

pub proof fn lemma_and_end(t: Seq<TokV>, i: int, c: Option<int>)
    requires
        and_cuts(t, i, c),
        c is Some ==> !tok_kw(t, c->0, kw_and()),
    ensures
        and_complete(t, i, c),
{
    assert forall|e: Expr, j: int| #[trigger] and_at(t, i, j, e) && and_follow(t, j) implies c == Some(
        j,
    ) by {
        reveal(and_cuts);
        lemma_and_cut_le(t, i, j, e, c->0);
        if c->0 < j {
            lemma_and_next(t, i, j, e, c->0);
        }
    }
    assert(and_complete(t, i, c)) by {
        reveal(and_complete);
    }
}

/// `c` is where one of the AND chains of the OR chain `e` over `t[i..j]`
/// ends.
pub open spec fn or_cut(t: Seq<TokV>, i: int, j: int, e: Expr, c: int) -> bool
    decreases e,
{
    ||| c == j && or_at(t, i, j, e)
    ||| match e {
        Expr::Or(l, r) => exists|k: int|
            #![trigger tok_kw(t, k, kw_or())]
            i < k < j && tok_kw(t, k, kw_or()) && or_at(t, i, k, *l) && and_at(t, k + 1, j, *r)
                && or_cut(t, i, k, *l, c),
        _ => false,
    }
}

pub proof fn lemma_or_cut_le(t: Seq<TokV>, i: int, j: int, e: Expr, c: int)
    requires
        or_cut(t, i, j, e, c),
    ensures
        c <= j,
    decreases e,
{
    if c != j {
        match e {
            Expr::Or(l, r) => {
                let k = choose|k: int|
                    #![trigger tok_kw(t, k, kw_or())]
                    i < k < j && tok_kw(t, k, kw_or()) && or_at(t, i, k, *l) && and_at(
                        t,
                        k + 1,
                        j,
                        *r,
                    ) && or_cut(t, i, k, *l, c);
                lemma_or_cut_le(t, i, k, *l, c);
            },
            _ => {},
        }
    }
}

/// The first AND chain of an OR chain.
pub proof fn lemma_or_first(t: Seq<TokV>, i: int, j: int, e: Expr) -> (r: (int, Expr))
    requires
        or_at(t, i, j, e),
    ensures
        and_at(t, i, r.0, r.1),
        or_cut(t, i, j, e, r.0),
        r.0 == j || tok_kw(t, r.0, kw_or()),
    decreases j - i,
{
    if and_at(t, i, j, e) {
        (j, e)
    } else {
        let l = *e->Or_0;
        let rr = *e->Or_1;
        let k = choose|k: int|
            i < k < j && #[trigger] tok_kw(t, k, kw_or()) && or_at(t, i, k, l) && and_at(
                t,
                k + 1,
                j,
                rr,
            );
        let (c, x) = lemma_or_first(t, i, k, l);
        assert(or_cut(t, i, k, l, c));
        (c, x)
    }
}

/// After a cut short of the end come OR and the next AND chain.
pub proof fn lemma_or_next(t: Seq<TokV>, i: int, j: int, e: Expr, c: int) -> (r: (int, Expr))
    requires
        or_cut(t, i, j, e, c),
        c < j,
    ensures
        tok_kw(t, c, kw_or()),
        and_at(t, c + 1, r.0, r.1),
        or_cut(t, i, j, e, r.0),
        r.0 == j || tok_kw(t, r.0, kw_or()),
    decreases e,
{
    let l = *e->Or_0;
    let rr = *e->Or_1;
    let k = choose|k: int|
        #![trigger tok_kw(t, k, kw_or())]
        i < k < j && tok_kw(t, k, kw_or()) && or_at(t, i, k, l) && and_at(t, k + 1, j, rr)
            && or_cut(t, i, k, l, c);
    lemma_or_cut_le(t, i, k, l, c);
    if c == k {
        assert(or_at(t, i, j, e));
        (j, rr)
    } else {
        let (c2, x) = lemma_or_next(t, i, k, l, c);
        assert(or_cut(t, i, k, l, c2));
        (c2, x)
    }
}

/// For every condition written from `i` that ends where one may, `end` is
/// one of its cuts.
#[verifier::opaque]
pub open spec fn or_cuts(t: Seq<TokV>, i: int, end: Option<int>) -> bool {
    forall|e: Expr, j: int| #[trigger]
        or_at(t, i, j, e) && or_follow(t, j) ==> end is Some && or_cut(t, i, j, e, end->0)
}

pub proof fn lemma_or_start(t: Seq<TokV>, i: int, ae: Option<int>)
    requires
        and_complete(t, i, ae),
    ensures
        or_cuts(t, i, ae),
{
    assert forall|e: Expr, j: int| #[trigger] or_at(t, i, j, e) && or_follow(t, j) implies ae is Some
        && or_cut(t, i, j, e, ae->0) by {
        let (c, x) = lemma_or_first(t, i, j, e);
        assert(and_follow(t, c));
        assert(ae == Some(c)) by {
            reveal(and_complete);
        }
    }
    assert(or_cuts(t, i, ae)) by {
        reveal(or_cuts);
    }
}

pub proof fn lemma_or_step(t: Seq<TokV>, i: int, c: int, ae: Option<int>)
    requires
        or_cuts(t, i, Some(c)),
        tok_kw(t, c, kw_or()),
        and_complete(t, c + 1, ae),
    ensures
        or_cuts(t, i, ae),
{
    assert forall|e: Expr, j: int| #[trigger] or_at(t, i, j, e) && or_follow(t, j) implies ae is Some
        && or_cut(t, i, j, e, ae->0) by {
        assert(or_cut(t, i, j, e, c)) by {
            reveal(or_cuts);
        }
        lemma_or_cut_le(t, i, j, e, c);
        let (c2, x) = lemma_or_next(t, i, j, e, c);
        assert(and_follow(t, c2));
        assert(ae == Some(c2)) by {
            reveal(and_complete);
        }
    }
    assert(or_cuts(t, i, ae)) by {
        reveal(or_cuts);
    }
}

pub proof fn lemma_or_end(t: Seq<TokV>, i: int, c: Option<int>)
    requires
        or_cuts(t, i, c),
        c is Some ==> !tok_kw(t, c->0, kw_or()),
    ensures
        or_complete(t, i, c),
{
    assert forall|e: Expr, j: int| #[trigger] or_at(t, i, j, e) && or_follow(t, j) implies c == Some(
        j,
    ) by {
        reveal(or_cuts);
        lemma_or_cut_le(t, i, j, e, c->0);
        if c->0 < j {
            lemma_or_next(t, i, j, e, c->0);
        }
    }
    assert(or_complete(t, i, c)) by {
        reveal(or_complete);
    }
}

/// The tokens are some condition.
pub open spec fn condition_parses(t: Seq<TokV>) -> bool {
    exists|e: Expr| or_at(t, 0, t.len() as int, e)
}

/// Where a sort key condition naming `name` ends.
pub open spec fn sk_cond_end(t: Seq<TokV>, i: int, name: PathSeg, c: SkCond) -> Option<int> {
    match c {
        SkCond::BeginsWith(v) => if tok_is(t, i, TokV::Ident(utf8("begins_with"@))) && tok_is(
            t,
            i + 1,
            TokV::LParen,
        ) && head_at(t, i + 2, name) && tok_is(t, i + 3, TokV::Comma) && tok_is(
            t,
            i + 4,
            TokV::ValPh(utf8(v@)),
        ) && tok_is(t, i + 5, TokV::RParen) {
            Some(i + 6)
        } else {
            None
        },
        SkCond::Cmp(op, v) => if op != CmpOp::Ne && head_at(t, i, name) && tok_is(
            t,
            i + 1,
            TokV::Op(op),
        ) && tok_is(t, i + 2, TokV::ValPh(utf8(v@))) {
            Some(i + 3)
        } else {
            None
        },
        SkCond::Between(a, b) => if head_at(t, i, name) && tok_kw(t, i + 1, kw_between())
            && tok_is(t, i + 2, TokV::ValPh(utf8(a@))) && tok_kw(t, i + 3, kw_and()) && tok_is(
            t,
            i + 4,
            TokV::ValPh(utf8(b@)),
        ) {
            Some(i + 5)
        } else {
            None
        },
    }
}

/// The tokens are exactly the key condition `kc`:
/// `pk = :v [AND (sk cmp :v | sk BETWEEN :a AND :b | begins_with(sk, :p))]`.
/// Every sort key condition written from `i` ends at `end`.
#[verifier::opaque]
pub open spec fn sk_complete(t: Seq<TokV>, i: int, end: Option<int>) -> bool {
    forall|n: PathSeg, c: SkCond| #[trigger]
        sk_cond_end(t, i, n, c) is Some ==> end == sk_cond_end(t, i, n, c)
}

pub open spec fn key_condition_ok(t: Seq<TokV>, kc: KeyCondition) -> bool {
    &&& head_at(t, 0, kc.pk_name)
    &&& tok_is(t, 1, TokV::Op(CmpOp::Eq))
    &&& tok_is(t, 2, TokV::ValPh(utf8(kc.pk_value@)))
    &&& match kc.sk {
        None => t.len() == 3,
        Some((n, c)) => tok_kw(t, 3, kw_and()) && sk_cond_end(t, 4, n, c) == Some(t.len() as int),
    }
}

/// The tokens are some key condition.
pub open spec fn key_condition_parses(t: Seq<TokV>) -> bool {
    exists|kc: KeyCondition| key_condition_ok(t, kc)
}

/// Where a SET operand ends.
pub open spec fn set_operand_end(t: Seq<TokV>, i: int, o: SetOperand) -> Option<int>
    decreases o,
{
    match o {
        SetOperand::Value(v) => if tok_is(t, i, TokV::ValPh(utf8(v@))) {
            Some(i + 1)
        } else {
            None
        },
        SetOperand::IfNotExists(p, d) => if tok_is(t, i, TokV::Ident(utf8("if_not_exists"@)))
            && tok_is(t, i + 1, TokV::LParen) {
            match path_end(t, i + 2, p) {
                Some(k) => if tok_is(t, k, TokV::Comma) {
                    match set_operand_end(t, k + 1, *d) {
                        Some(m) => if tok_is(t, m, TokV::RParen) {
                            Some(m + 1)
                        } else {
                            None
                        },
                        None => None,
                    }
                } else {
                    None
                },
                None => None,
            }
        } else {
            None
        },
        SetOperand::ListAppend(a, b) => if tok_is(t, i, TokV::Ident(utf8("list_append"@)))
            && tok_is(t, i + 1, TokV::LParen) {
            match set_operand_end(t, i + 2, *a) {
                Some(k) => if tok_is(t, k, TokV::Comma) {
                    match set_operand_end(t, k + 1, *b) {
                        Some(m) => if tok_is(t, m, TokV::RParen) {
                            Some(m + 1)
                        } else {
                            None
                        },
                        None => None,
                    }
                } else {
                    None
                },
                None => None,
            }
        } else {
            None
        },
        SetOperand::Path(p) => path_end(t, i, p),
    }
}

/// What may follow a SET term: no `(` and no further path segment.
pub open spec fn op_follow(t: Seq<TokV>, k: int) -> bool {
    stops(t, k) && !tok_is(t, k, TokV::LParen)
}

/// What may follow a SET right-hand side: what may follow a term, but no
/// `+` or `-`.
pub open spec fn val_follow(t: Seq<TokV>, k: int) -> bool {
    op_follow(t, k) && !tok_is(t, k, TokV::Plus) && !tok_is(t, k, TokV::Minus)
}

/// Every SET term written from `i`, followed by what may follow one, ends at
/// `end`.
#[verifier::opaque]
pub open spec fn setop_complete(t: Seq<TokV>, i: int, end: Option<int>) -> bool {
    forall|o: SetOperand| #[trigger]
        set_operand_end(t, i, o) is Some && op_follow(t, set_operand_end(t, i, o)->0) ==> end
            == set_operand_end(t, i, o)
}

/// The two function names of SET terms differ.
pub proof fn lemma_fn_names_differ()
    ensures
        utf8("if_not_exists"@) != utf8("list_append"@),
{
    reveal_strlit("if_not_exists");
    reveal_strlit("list_append");
    assert("if_not_exists"@.len() == 13);
    assert("list_append"@.len() == 11);
    crate::domain::text::lemma_utf8_injective("if_not_exists"@, "list_append"@);
}

/// A placeholder starts only a `:v` term.
pub proof fn lemma_setop_value(t: Seq<TokV>, i: int)
    requires
        0 <= i < t.len(),
        t[i] is ValPh,
    ensures
        setop_complete(t, i, Some(i + 1)),
{
    reveal(setop_complete);
}

/// A path whose head is followed by `(` is the head alone.
pub proof fn lemma_path_before_lparen(t: Seq<TokV>, i: int, p: Path)
    requires
        tok_is(t, i + 1, TokV::LParen),
        path_end(t, i, p) is Some,
    ensures
        path_end(t, i, p) == Some(i + 1),
{
    if p.0@.len() > 1 {
        lemma_tail_prefix(t, i + 1, p.0@.drop_first(), 1);
        assert(p.0@.drop_first().take(1).drop_last() =~= Seq::<PathSeg>::empty());
        assert(tail_end(t, i + 1, p.0@.drop_first().take(1).drop_last()) == Some(i + 1));
    } else {
        assert(p.0@.drop_first() =~= Seq::<PathSeg>::empty());
    }
}

/// The parts of an `if_not_exists(path, term)` that may be followed by what
/// may follow a term.
pub proof fn lemma_if_not_exists_parts(t: Seq<TokV>, i: int, p: Path, d: SetOperand, pe: Option<int>, de: Option<int>)
    requires
        path_complete(t, i + 2, pe),
        pe is Some && tok_is(t, pe->0, TokV::Comma) ==> setop_complete(t, pe->0 + 1, de),
        set_operand_end(t, i, SetOperand::IfNotExists(p, Box::new(d))) is Some,
    ensures
        pe is Some && tok_is(t, pe->0, TokV::Comma) && de is Some && tok_is(t, de->0, TokV::RParen)
            && set_operand_end(t, i, SetOperand::IfNotExists(p, Box::new(d))) == Some(de->0 + 1),
{
    let k = path_end(t, i + 2, p)->0;
    assert(path_stop(t, i + 2, p)) by {
        reveal(path_stop);
    }
    assert(pe == Some(k)) by {
        reveal(path_complete);
    }
    let m = set_operand_end(t, k + 1, d)->0;
    assert(op_follow(t, m));
    assert(de == Some(m)) by {
        reveal(setop_complete);
    }
}

/// After `if_not_exists(`, a term is the path, a comma, a term and `)`.
pub proof fn lemma_setop_if_not_exists(t: Seq<TokV>, i: int, pe: Option<int>, de: Option<int>)
    requires
        tok_is(t, i, TokV::Ident(utf8("if_not_exists"@))),
        tok_is(t, i + 1, TokV::LParen),
        path_complete(t, i + 2, pe),
        pe is Some && tok_is(t, pe->0, TokV::Comma) ==> setop_complete(t, pe->0 + 1, de),
    ensures
        setop_complete(
            t,
            i,
            if pe is Some && tok_is(t, pe->0, TokV::Comma) && de is Some && tok_is(
                t,
                de->0,
                TokV::RParen,
            ) {
                Some(de->0 + 1)
            } else {
                None
            },
        ),
{
    lemma_fn_names_differ();
    let end = if pe is Some && tok_is(t, pe->0, TokV::Comma) && de is Some && tok_is(
        t,
        de->0,
        TokV::RParen,
    ) {
        Some(de->0 + 1)
    } else {
        None
    };
    assert forall|o: SetOperand| #[trigger]
        set_operand_end(t, i, o) is Some && op_follow(t, set_operand_end(t, i, o)->0) implies end
        == set_operand_end(t, i, o) by {
        match o {
            SetOperand::IfNotExists(p, d) => {
                lemma_if_not_exists_parts(t, i, p, *d, pe, de);
            },
            SetOperand::Path(p) => {
                lemma_path_before_lparen(t, i, p);
            },
            _ => {},
        }
    }
    assert(setop_complete(t, i, end)) by {
        reveal(setop_complete);
    }
}

/// The parts of a `list_append(term, term)`.
pub proof fn lemma_list_append_parts(t: Seq<TokV>, i: int, a: SetOperand, b: SetOperand, ae: Option<int>, be: Option<int>)
    requires
        setop_complete(t, i + 2, ae),
        ae is Some && tok_is(t, ae->0, TokV::Comma) ==> setop_complete(t, ae->0 + 1, be),
        set_operand_end(t, i, SetOperand::ListAppend(Box::new(a), Box::new(b))) is Some,
    ensures
        ae is Some && tok_is(t, ae->0, TokV::Comma) && be is Some && tok_is(t, be->0, TokV::RParen)
            && set_operand_end(t, i, SetOperand::ListAppend(Box::new(a), Box::new(b))) == Some(
            be->0 + 1,
        ),
{
    let k = set_operand_end(t, i + 2, a)->0;
    assert(op_follow(t, k));
    assert(ae == Some(k)) by {
        reveal(setop_complete);
    }
    let m = set_operand_end(t, k + 1, b)->0;
    assert(op_follow(t, m));
    assert(be == Some(m)) by {
        reveal(setop_complete);
    }
}

/// After `list_append(`, a term is a term, a comma, a term and `)`.
pub proof fn lemma_setop_list_append(t: Seq<TokV>, i: int, ae: Option<int>, be: Option<int>)
    requires
        tok_is(t, i, TokV::Ident(utf8("list_append"@))),
        tok_is(t, i + 1, TokV::LParen),
        setop_complete(t, i + 2, ae),
        ae is Some && tok_is(t, ae->0, TokV::Comma) ==> setop_complete(t, ae->0 + 1, be),
    ensures
        setop_complete(
            t,
            i,
            if ae is Some && tok_is(t, ae->0, TokV::Comma) && be is Some && tok_is(
                t,
                be->0,
                TokV::RParen,
            ) {
                Some(be->0 + 1)
            } else {
                None
            },
        ),
{
    lemma_fn_names_differ();
    let end = if ae is Some && tok_is(t, ae->0, TokV::Comma) && be is Some && tok_is(
        t,
        be->0,
        TokV::RParen,
    ) {
        Some(be->0 + 1)
    } else {
        None
    };
    assert forall|o: SetOperand| #[trigger]
        set_operand_end(t, i, o) is Some && op_follow(t, set_operand_end(t, i, o)->0) implies end
        == set_operand_end(t, i, o) by {
        match o {
            SetOperand::ListAppend(a, b) => {
                lemma_list_append_parts(t, i, *a, *b, ae, be);
            },
            SetOperand::Path(p) => {
                lemma_path_before_lparen(t, i, p);
            },
            _ => {},
        }
    }
    assert(setop_complete(t, i, end)) by {
        reveal(setop_complete);
    }
}

/// Anywhere else a term is a path.
pub proof fn lemma_setop_path(t: Seq<TokV>, i: int, pe: Option<int>)
    requires
        !(0 <= i < t.len() && t[i] is ValPh),
        !(tok_is(t, i, TokV::Ident(utf8("if_not_exists"@))) && tok_is(t, i + 1, TokV::LParen)),
        !(tok_is(t, i, TokV::Ident(utf8("list_append"@))) && tok_is(t, i + 1, TokV::LParen)),
        path_complete(t, i, pe),
    ensures
        setop_complete(t, i, pe),
{
    reveal(setop_complete);
    assert forall|o: SetOperand| #[trigger]
        set_operand_end(t, i, o) is Some && op_follow(t, set_operand_end(t, i, o)->0) implies pe
        == set_operand_end(t, i, o) by {
        match o {
            SetOperand::Path(p) => {
                assert(path_stop(t, i, p)) by {
                    reveal(path_stop);
                }
                reveal(path_complete);
            },
            _ => {},
        }
    }
}

/// Where a SET right-hand side ends.
pub open spec fn set_value_end(t: Seq<TokV>, i: int, v: SetValue) -> Option<int> {
    match v {
        SetValue::Single(o) => set_operand_end(t, i, o),
        SetValue::Plus(a, b) => match set_operand_end(t, i, a) {
            Some(k) => if tok_is(t, k, TokV::Plus) {
                set_operand_end(t, k + 1, b)
            } else {
                None
            },
            None => None,
        },
        SetValue::Minus(a, b) => match set_operand_end(t, i, a) {
            Some(k) => if tok_is(t, k, TokV::Minus) {
                set_operand_end(t, k + 1, b)
            } else {
                None
            },
            None => None,
        },
    }
}

/// Where one SET action `path = value` ends.
pub open spec fn set_action_end(t: Seq<TokV>, i: int, a: (Path, SetValue)) -> Option<int> {
    match path_end(t, i, a.0) {
        Some(k) => if tok_is(t, k, TokV::Op(CmpOp::Eq)) {
            set_value_end(t, k + 1, a.1)
        } else {
            None
        },
        None => None,
    }
}

/// Where one ADD / DELETE action `path :v` ends.
pub open spec fn value_action_end(t: Seq<TokV>, i: int, a: (Path, String)) -> Option<int> {
    match path_end(t, i, a.0) {
        Some(k) => if tok_is(t, k, TokV::ValPh(utf8(a.1@))) {
            Some(k + 1)
        } else {
            None
        },
        None => None,
    }
}

pub open spec fn sets_end(t: Seq<TokV>, i: int, s: Seq<(Path, SetValue)>) -> Option<int>
    decreases s.len(),
{
    if s.len() == 0 {
        None
    } else if s.len() == 1 {
        set_action_end(t, i, s[0])
    } else {
        match sets_end(t, i, s.drop_last()) {
            Some(k) => if tok_is(t, k, TokV::Comma) {
                set_action_end(t, k + 1, s.last())
            } else {
                None
            },
            None => None,
        }
    }
}

/// Every SET right-hand side written from `i`, followed by what may follow
/// one, ends at `end`.
#[verifier::opaque]
pub open spec fn setval_complete(t: Seq<TokV>, i: int, end: Option<int>) -> bool {
    forall|v: SetValue| #[trigger]
        set_value_end(t, i, v) is Some && val_follow(t, set_value_end(t, i, v)->0) ==> end
            == set_value_end(t, i, v)
}

/// A right-hand side is a term, then `+` or `-` and a term where one follows.
pub proof fn lemma_setval(t: Seq<TokV>, i: int, ae: Option<int>, be: Option<int>)
    requires
        setop_complete(t, i, ae),
        ae is Some && (tok_is(t, ae->0, TokV::Plus) || tok_is(t, ae->0, TokV::Minus))
            ==> setop_complete(t, ae->0 + 1, be),
    ensures
        setval_complete(
            t,
            i,
            if ae is None {
                None
            } else if tok_is(t, ae->0, TokV::Plus) || tok_is(t, ae->0, TokV::Minus) {
                be
            } else {
                ae
            },
        ),
{
    let end = if ae is None {
        None
    } else if tok_is(t, ae->0, TokV::Plus) || tok_is(t, ae->0, TokV::Minus) {
        be
    } else {
        ae
    };
    assert forall|v: SetValue| #[trigger]
        set_value_end(t, i, v) is Some && val_follow(t, set_value_end(t, i, v)->0) implies end
        == set_value_end(t, i, v) by {
        match v {
            SetValue::Single(o) => {
                assert(op_follow(t, set_operand_end(t, i, o)->0));
                assert(ae == set_operand_end(t, i, o)) by {
                    reveal(setop_complete);
                }
            },
            SetValue::Plus(a, b) => {
                let k = set_operand_end(t, i, a)->0;
                assert(op_follow(t, k));
                assert(ae == Some(k)) by {
                    reveal(setop_complete);
                }
                assert(op_follow(t, set_operand_end(t, k + 1, b)->0));
                assert(be == set_operand_end(t, k + 1, b)) by {
                    reveal(setop_complete);
                }
            },
            SetValue::Minus(a, b) => {
                let k = set_operand_end(t, i, a)->0;
                assert(op_follow(t, k));
                assert(ae == Some(k)) by {
                    reveal(setop_complete);
                }
                assert(op_follow(t, set_operand_end(t, k + 1, b)->0));
                assert(be == set_operand_end(t, k + 1, b)) by {
                    reveal(setop_complete);
                }
            },
        }
    }
    assert(setval_complete(t, i, end)) by {
        reveal(setval_complete);
    }
}

/// Every SET action written from `i`, followed by what may follow one, ends
/// at `end`.
#[verifier::opaque]
pub open spec fn setact_complete(t: Seq<TokV>, i: int, end: Option<int>) -> bool {
    forall|a: (Path, SetValue)| #[trigger]
        set_action_end(t, i, a) is Some && val_follow(t, set_action_end(t, i, a)->0) ==> end
            == set_action_end(t, i, a)
}

/// A SET action is a path, `=` and a right-hand side.
pub proof fn lemma_setact(t: Seq<TokV>, i: int, pe: Option<int>, ve: Option<int>)
    requires
        path_complete(t, i, pe),
        pe is Some && tok_is(t, pe->0, TokV::Op(CmpOp::Eq)) ==> setval_complete(t, pe->0 + 1, ve),
    ensures
        setact_complete(
            t,
            i,
            if pe is Some && tok_is(t, pe->0, TokV::Op(CmpOp::Eq)) {
                ve
            } else {
                None
            },
        ),
{
    let end = if pe is Some && tok_is(t, pe->0, TokV::Op(CmpOp::Eq)) {
        ve
    } else {
        None
    };
    assert forall|a: (Path, SetValue)| #[trigger]
        set_action_end(t, i, a) is Some && val_follow(t, set_action_end(t, i, a)->0) implies end
        == set_action_end(t, i, a) by {
        let k = path_end(t, i, a.0)->0;
        assert(path_stop(t, i, a.0)) by {
            reveal(path_stop);
        }
        assert(pe == Some(k)) by {
            reveal(path_complete);
        }
        assert(ve == set_value_end(t, k + 1, a.1)) by {
            reveal(setval_complete);
        }
    }
    assert(setact_complete(t, i, end)) by {
        reveal(setact_complete);
    }
}

/// The list of SET actions `s` is written from `i`, followed by what may
/// follow one and no comma.
#[verifier::opaque]
pub open spec fn sets_stop(t: Seq<TokV>, i: int, s: Seq<(Path, SetValue)>) -> bool {
    &&& sets_end(t, i, s) is Some
    &&& val_follow(t, sets_end(t, i, s)->0)
    &&& !tok_is(t, sets_end(t, i, s)->0, TokV::Comma)
}

/// Every list of SET actions written from `i` that stops ends at `end`.
#[verifier::opaque]
pub open spec fn sets_complete(t: Seq<TokV>, i: int, end: Option<int>) -> bool {
    forall|s: Seq<(Path, SetValue)>| #[trigger] sets_stop(t, i, s) ==> end == Some(sets_end(t, i, s)->0)
}

pub proof fn lemma_sets_prefix(t: Seq<TokV>, i: int, s: Seq<(Path, SetValue)>, n: int)
    requires
        sets_end(t, i, s) is Some,
        1 <= n < s.len(),
    ensures
        sets_end(t, i, s.take(n)) is Some,
        tok_is(t, sets_end(t, i, s.take(n))->0, TokV::Comma),
        sets_end(t, i, s.take(n + 1)) == set_action_end(t, sets_end(t, i, s.take(n))->0 + 1, s[n]),
    decreases s.len(),
{
    if n == s.len() - 1 {
        assert(s.take(n) =~= s.drop_last());
        assert(s.take(n + 1) =~= s);
    } else {
        lemma_sets_prefix(t, i, s.drop_last(), n);
        assert(s.drop_last().take(n) =~= s.take(n));
        assert(s.drop_last().take(n + 1) =~= s.take(n + 1));
    }
}

pub proof fn lemma_sets_first(t: Seq<TokV>, i: int, s: Seq<(Path, SetValue)>)
    requires
        sets_stop(t, i, s),
    ensures
        s.len() >= 1,
        set_action_end(t, i, s[0]) is Some,
        val_follow(t, set_action_end(t, i, s[0])->0),
        sets_end(t, i, s.take(1)) == set_action_end(t, i, s[0]),
{
    reveal(sets_stop);
    assert(s.take(1).len() == 1);
    if s.len() > 1 {
        lemma_sets_prefix(t, i, s, 1);
    } else {
        assert(s.take(1) =~= s);
    }
}

pub proof fn lemma_sets_next(t: Seq<TokV>, i: int, s: Seq<(Path, SetValue)>, n: int, cur: int)
    requires
        sets_stop(t, i, s),
        1 <= n <= s.len(),
        sets_end(t, i, s.take(n)) == Some(cur),
    ensures
        n == s.len() ==> sets_end(t, i, s)->0 == cur && !tok_is(t, cur, TokV::Comma),
        n < s.len() ==> tok_is(t, cur, TokV::Comma) && set_action_end(t, cur + 1, s[n]) is Some
            && val_follow(t, set_action_end(t, cur + 1, s[n])->0) && sets_end(t, i, s.take(n + 1))
            == set_action_end(t, cur + 1, s[n]),
{
    reveal(sets_stop);
    if n < s.len() {
        lemma_sets_prefix(t, i, s, n);
        if n + 1 < s.len() {
            lemma_sets_prefix(t, i, s, n + 1);
        } else {
            assert(s.take(n + 1) =~= s);
        }
    } else {
        assert(s.take(n) =~= s);
    }
}

/// Every ADD / DELETE action written from `i` ends at `end`.
#[verifier::opaque]
pub open spec fn valact_complete(t: Seq<TokV>, i: int, end: Option<int>) -> bool {
    forall|a: (Path, String)| #[trigger]
        value_action_end(t, i, a) is Some ==> end == value_action_end(t, i, a)
}

/// An ADD / DELETE action is a path and a placeholder.
pub proof fn lemma_valact(t: Seq<TokV>, i: int, pe: Option<int>)
    requires
        path_complete(t, i, pe),
    ensures
        valact_complete(
            t,
            i,
            if pe is Some && 0 <= pe->0 < t.len() && t[pe->0] is ValPh {
                Some(pe->0 + 1)
            } else {
                None
            },
        ),
{
    let end = if pe is Some && 0 <= pe->0 < t.len() && t[pe->0] is ValPh {
        Some(pe->0 + 1)
    } else {
        None
    };
    assert forall|a: (Path, String)| #[trigger] value_action_end(t, i, a) is Some implies end
        == value_action_end(t, i, a) by {
        let k = path_end(t, i, a.0)->0;
        assert(path_stop(t, i, a.0)) by {
            reveal(path_stop);
        }
        assert(pe == Some(k)) by {
            reveal(path_complete);
        }
    }
    assert(valact_complete(t, i, end)) by {
        reveal(valact_complete);
    }
}

/// The list of ADD / DELETE actions `s` is written from `i`, with no comma
/// after it.
#[verifier::opaque]
pub open spec fn vacts_stop(t: Seq<TokV>, i: int, s: Seq<(Path, String)>) -> bool {
    &&& value_actions_end(t, i, s) is Some
    &&& !tok_is(t, value_actions_end(t, i, s)->0, TokV::Comma)
}

/// Every list of ADD / DELETE actions written from `i` that stops ends at
/// `end`.
#[verifier::opaque]
pub open spec fn vacts_complete(t: Seq<TokV>, i: int, end: Option<int>) -> bool {
    forall|s: Seq<(Path, String)>| #[trigger]
        vacts_stop(t, i, s) ==> end == Some(value_actions_end(t, i, s)->0)
}

pub proof fn lemma_vacts_prefix(t: Seq<TokV>, i: int, s: Seq<(Path, String)>, n: int)
    requires
        value_actions_end(t, i, s) is Some,
        1 <= n < s.len(),
    ensures
        value_actions_end(t, i, s.take(n)) is Some,
        tok_is(t, value_actions_end(t, i, s.take(n))->0, TokV::Comma),
        value_actions_end(t, i, s.take(n + 1)) == value_action_end(
            t,
            value_actions_end(t, i, s.take(n))->0 + 1,
            s[n],
        ),
    decreases s.len(),
{
    if n == s.len() - 1 {
        assert(s.take(n) =~= s.drop_last());
        assert(s.take(n + 1) =~= s);
    } else {
        lemma_vacts_prefix(t, i, s.drop_last(), n);
        assert(s.drop_last().take(n) =~= s.take(n));
        assert(s.drop_last().take(n + 1) =~= s.take(n + 1));
    }
}

pub proof fn lemma_vacts_first(t: Seq<TokV>, i: int, s: Seq<(Path, String)>)
    requires
        vacts_stop(t, i, s),
    ensures
        s.len() >= 1,
        value_action_end(t, i, s[0]) is Some,
        value_actions_end(t, i, s.take(1)) == value_action_end(t, i, s[0]),
{
    reveal(vacts_stop);
    assert(s.take(1).len() == 1);
    if s.len() > 1 {
        lemma_vacts_prefix(t, i, s, 1);
    } else {
        assert(s.take(1) =~= s);
    }
}

pub proof fn lemma_vacts_next(t: Seq<TokV>, i: int, s: Seq<(Path, String)>, n: int, cur: int)
    requires
        vacts_stop(t, i, s),
        1 <= n <= s.len(),
        value_actions_end(t, i, s.take(n)) == Some(cur),
    ensures
        n == s.len() ==> value_actions_end(t, i, s)->0 == cur && !tok_is(t, cur, TokV::Comma),
        n < s.len() ==> tok_is(t, cur, TokV::Comma) && value_action_end(t, cur + 1, s[n]) is Some
            && value_actions_end(t, i, s.take(n + 1)) == value_action_end(t, cur + 1, s[n]),
{
    reveal(vacts_stop);
    if n < s.len() {
        lemma_vacts_prefix(t, i, s, n);
        if n + 1 < s.len() {
            lemma_vacts_prefix(t, i, s, n + 1);
        } else {
            assert(s.take(n + 1) =~= s);
        }
    } else {
        assert(s.take(n) =~= s);
    }
}

/// Where a non-empty comma-separated list of paths ends.
pub open spec fn paths_end(t: Seq<TokV>, i: int, s: Seq<Path>) -> Option<int>
    decreases s.len(),
{
    if s.len() == 0 {
        None
    } else if s.len() == 1 {
        path_end(t, i, s[0])
    } else {
        match paths_end(t, i, s.drop_last()) {
            Some(k) => if tok_is(t, k, TokV::Comma) {
                path_end(t, k + 1, s.last())
            } else {
                None
            },
            None => None,
        }
    }
}

/// The list of paths `ps` is written from `i`, and neither a segment nor
/// another path can follow its end.
#[verifier::opaque]
pub open spec fn paths_stop(t: Seq<TokV>, i: int, ps: Seq<Path>) -> bool {
    &&& paths_end(t, i, ps) is Some
    &&& stops(t, paths_end(t, i, ps)->0)
    &&& !tok_is(t, paths_end(t, i, ps)->0, TokV::Comma)
}

/// Every list of paths written from `i` that stops ends at `end`.
#[verifier::opaque]
pub open spec fn paths_complete(t: Seq<TokV>, i: int, end: Option<int>) -> bool {
    forall|ps: Seq<Path>| #[trigger] paths_stop(t, i, ps) ==> end == Some(paths_end(t, i, ps)->0)
}

/// In a list of paths that ends somewhere, each proper prefix ends before a
/// comma, and the next path follows it.
pub proof fn lemma_paths_prefix(t: Seq<TokV>, i: int, s: Seq<Path>, n: int)
    requires
        paths_end(t, i, s) is Some,
        1 <= n < s.len(),
    ensures
        paths_end(t, i, s.take(n)) is Some,
        tok_is(t, paths_end(t, i, s.take(n))->0, TokV::Comma),
        paths_end(t, i, s.take(n + 1)) == path_end(t, paths_end(t, i, s.take(n))->0 + 1, s[n]),
    decreases s.len(),
{
    if n == s.len() - 1 {
        assert(s.take(n) =~= s.drop_last());
        assert(s.take(n + 1) =~= s);
    } else {
        lemma_paths_prefix(t, i, s.drop_last(), n);
        assert(s.drop_last().take(n) =~= s.take(n));
        assert(s.drop_last().take(n + 1) =~= s.take(n + 1));
    }
}

/// A list of paths that stops starts with a path that stops.
pub proof fn lemma_paths_first(t: Seq<TokV>, i: int, ps: Seq<Path>)
    requires
        paths_stop(t, i, ps),
    ensures
        ps.len() >= 1,
        path_stop(t, i, ps[0]),
        path_end(t, i, ps[0]) is Some,
        paths_end(t, i, ps.take(1)) == path_end(t, i, ps[0]),
{
    reveal(path_stop);
    reveal(paths_stop);
    assert(ps.take(1).len() == 1);
    if ps.len() > 1 {
        lemma_paths_prefix(t, i, ps, 1);
    } else {
        assert(ps.take(1) =~= ps);
    }
}

/// Where the first `n` paths of a list that stops end at `cur`: either they
/// are all of it, or a comma and the next path, which stops, follow.
pub proof fn lemma_paths_next(t: Seq<TokV>, i: int, ps: Seq<Path>, n: int, cur: int)
    requires
        paths_stop(t, i, ps),
        1 <= n <= ps.len(),
        paths_end(t, i, ps.take(n)) == Some(cur),
    ensures
        n == ps.len() ==> paths_end(t, i, ps)->0 == cur && !tok_is(t, cur, TokV::Comma),
        n < ps.len() ==> tok_is(t, cur, TokV::Comma) && path_stop(t, cur + 1, ps[n]) && path_end(
            t,
            cur + 1,
            ps[n],
        ) is Some && paths_end(
            t,
            i,
            ps.take(n + 1),
        ) == Some(path_end(t, cur + 1, ps[n])->0),
{
    reveal(path_stop);
    reveal(paths_stop);
    if n < ps.len() {
        lemma_paths_prefix(t, i, ps, n);
        if n + 1 < ps.len() {
            lemma_paths_prefix(t, i, ps, n + 1);
        } else {
            assert(ps.take(n + 1) =~= ps);
        }
    } else {
        assert(ps.take(n) =~= ps);
    }
}

pub open spec fn value_actions_end(t: Seq<TokV>, i: int, s: Seq<(Path, String)>) -> Option<int>
    decreases s.len(),
{
    if s.len() == 0 {
        None
    } else if s.len() == 1 {
        value_action_end(t, i, s[0])
    } else {
        match value_actions_end(t, i, s.drop_last()) {
            Some(k) => if tok_is(t, k, TokV::Comma) {
                value_action_end(t, k + 1, s.last())
            } else {
                None
            },
            None => None,
        }
    }
}

/// `t[i..]` is a sequence of clauses, each keyword at most once, whose actions
/// are exactly the given ones.
pub open spec fn clauses_from(
    t: Seq<TokV>,
    i: int,
    sets: Seq<(Path, SetValue)>,
    removes: Seq<Path>,
    adds: Seq<(Path, String)>,
    deletes: Seq<(Path, String)>,
) -> bool
    decreases t.len() - i,
{
    if i < 0 || i >= t.len() {
        i == t.len() && sets.len() == 0 && removes.len() == 0 && adds.len() == 0 && deletes.len()
            == 0
    } else if is_kw(t[i], kw_set()) {
        match sets_end(t, i + 1, sets) {
            Some(k) => i < k && clauses_from(t, k, Seq::empty(), removes, adds, deletes),
            None => false,
        }
    } else if is_kw(t[i], kw_remove()) {
        match paths_end(t, i + 1, removes) {
            Some(k) => i < k && clauses_from(t, k, sets, Seq::empty(), adds, deletes),
            None => false,
        }
    } else if is_kw(t[i], kw_add()) {
        match value_actions_end(t, i + 1, adds) {
            Some(k) => i < k && clauses_from(t, k, sets, removes, Seq::empty(), deletes),
            None => false,
        }
    } else if is_kw(t[i], kw_delete()) {
        match value_actions_end(t, i + 1, deletes) {
            Some(k) => i < k && clauses_from(t, k, sets, removes, adds, Seq::empty()),
            None => false,
        }
    } else {
        false
    }
}

/// Clauses start at the end or at a keyword.
pub proof fn lemma_clauses_head(
    t: Seq<TokV>,
    i: int,
    sets: Seq<(Path, SetValue)>,
    removes: Seq<Path>,
    adds: Seq<(Path, String)>,
    deletes: Seq<(Path, String)>,
)
    requires
        clauses_from(t, i, sets, removes, adds, deletes),
    ensures
        i == t.len() || (0 <= i < t.len() && t[i] is Ident),
{
}

/// Every choice of actions that the clauses from `i` can be, where the clauses
/// already seen have none, makes `ok` hold.
#[verifier::opaque]
pub open spec fn clauses_complete(
    t: Seq<TokV>,
    i: int,
    seen_set: bool,
    seen_remove: bool,
    seen_add: bool,
    seen_delete: bool,
    ok: bool,
) -> bool {
    forall|
        sets: Seq<(Path, SetValue)>,
        removes: Seq<Path>,
        adds: Seq<(Path, String)>,
        deletes: Seq<(Path, String)>,
    |
        #[trigger] clauses_from(t, i, sets, removes, adds, deletes) && (seen_set ==> sets.len() == 0)
            && (seen_remove ==> removes.len() == 0) && (seen_add ==> adds.len() == 0) && (
        seen_delete ==> deletes.len() == 0) ==> ok
}

/// A SET clause at `i`: its actions, then the other clauses.
pub proof fn lemma_clauses_set(
    t: Seq<TokV>,
    i: int,
    ss: bool,
    sr: bool,
    sa: bool,
    sd: bool,
    se: Option<int>,
    rest_ok: bool,
)
    requires
        0 <= i < t.len(),
        is_kw(t[i], kw_set()),
        !ss ==> sets_complete(t, i + 1, se),
        !ss && se is Some ==> clauses_complete(t, se->0, true, sr, sa, sd, rest_ok),
    ensures
        clauses_complete(t, i, ss, sr, sa, sd, !ss && se is Some && rest_ok),
{
    assert forall|
        sets: Seq<(Path, SetValue)>,
        removes: Seq<Path>,
        adds: Seq<(Path, String)>,
        deletes: Seq<(Path, String)>,
    |
        #[trigger] clauses_from(t, i, sets, removes, adds, deletes) && (ss ==> sets.len() == 0) && (sr
            ==> removes.len() == 0) && (sa ==> adds.len() == 0) && (sd ==> deletes.len()
            == 0) implies !ss && se is Some && rest_ok by {
        let k = sets_end(t, i + 1, sets)->0;
        lemma_clauses_head(t, k, Seq::empty(), removes, adds, deletes);
        assert(sets_stop(t, i + 1, sets)) by {
            reveal(sets_stop);
        }
        assert(se == Some(k)) by {
            reveal(sets_complete);
        }
        reveal(clauses_complete);
        assert(clauses_from(t, k, Seq::empty(), removes, adds, deletes));
    }
    reveal(clauses_complete);
}

/// A REMOVE clause at `i`: its paths, then the other clauses.
pub proof fn lemma_clauses_remove(
    t: Seq<TokV>,
    i: int,
    ss: bool,
    sr: bool,
    sa: bool,
    sd: bool,
    pe: Option<int>,
    rest_ok: bool,
)
    requires
        0 <= i < t.len(),
        !is_kw(t[i], kw_set()),
        is_kw(t[i], kw_remove()),
        !sr ==> paths_complete(t, i + 1, pe),
        !sr && pe is Some ==> clauses_complete(t, pe->0, ss, true, sa, sd, rest_ok),
    ensures
        clauses_complete(t, i, ss, sr, sa, sd, !sr && pe is Some && rest_ok),
{
    assert forall|
        sets: Seq<(Path, SetValue)>,
        removes: Seq<Path>,
        adds: Seq<(Path, String)>,
        deletes: Seq<(Path, String)>,
    |
        #[trigger] clauses_from(t, i, sets, removes, adds, deletes) && (ss ==> sets.len() == 0) && (sr
            ==> removes.len() == 0) && (sa ==> adds.len() == 0) && (sd ==> deletes.len()
            == 0) implies !sr && pe is Some && rest_ok by {
        let k = paths_end(t, i + 1, removes)->0;
        lemma_clauses_head(t, k, sets, Seq::empty(), adds, deletes);
        assert(paths_stop(t, i + 1, removes)) by {
            reveal(paths_stop);
        }
        assert(pe == Some(k)) by {
            reveal(paths_complete);
        }
        reveal(clauses_complete);
        assert(clauses_from(t, k, sets, Seq::empty(), adds, deletes));
    }
    reveal(clauses_complete);
}

/// An ADD clause at `i`: its actions, then the other clauses.
pub proof fn lemma_clauses_add(
    t: Seq<TokV>,
    i: int,
    ss: bool,
    sr: bool,
    sa: bool,
    sd: bool,
    ae: Option<int>,
    rest_ok: bool,
)
    requires
        0 <= i < t.len(),
        !is_kw(t[i], kw_set()),
        !is_kw(t[i], kw_remove()),
        is_kw(t[i], kw_add()),
        !sa ==> vacts_complete(t, i + 1, ae),
        !sa && ae is Some ==> clauses_complete(t, ae->0, ss, sr, true, sd, rest_ok),
    ensures
        clauses_complete(t, i, ss, sr, sa, sd, !sa && ae is Some && rest_ok),
{
    assert forall|
        sets: Seq<(Path, SetValue)>,
        removes: Seq<Path>,
        adds: Seq<(Path, String)>,
        deletes: Seq<(Path, String)>,
    |
        #[trigger] clauses_from(t, i, sets, removes, adds, deletes) && (ss ==> sets.len() == 0) && (sr
            ==> removes.len() == 0) && (sa ==> adds.len() == 0) && (sd ==> deletes.len()
            == 0) implies !sa && ae is Some && rest_ok by {
        let k = value_actions_end(t, i + 1, adds)->0;
        lemma_clauses_head(t, k, sets, removes, Seq::empty(), deletes);
        assert(vacts_stop(t, i + 1, adds)) by {
            reveal(vacts_stop);
        }
        assert(ae == Some(k)) by {
            reveal(vacts_complete);
        }
        reveal(clauses_complete);
        assert(clauses_from(t, k, sets, removes, Seq::empty(), deletes));
    }
    reveal(clauses_complete);
}

/// A DELETE clause at `i`: its actions, then the other clauses.
pub proof fn lemma_clauses_delete(
    t: Seq<TokV>,
    i: int,
    ss: bool,
    sr: bool,
    sa: bool,
    sd: bool,
    de: Option<int>,
    rest_ok: bool,
)
    requires
        0 <= i < t.len(),
        !is_kw(t[i], kw_set()),
        !is_kw(t[i], kw_remove()),
        !is_kw(t[i], kw_add()),
        is_kw(t[i], kw_delete()),
        !sd ==> vacts_complete(t, i + 1, de),
        !sd && de is Some ==> clauses_complete(t, de->0, ss, sr, sa, true, rest_ok),
    ensures
        clauses_complete(t, i, ss, sr, sa, sd, !sd && de is Some && rest_ok),
{
    assert forall|
        sets: Seq<(Path, SetValue)>,
        removes: Seq<Path>,
        adds: Seq<(Path, String)>,
        deletes: Seq<(Path, String)>,
    |
        #[trigger] clauses_from(t, i, sets, removes, adds, deletes) && (ss ==> sets.len() == 0) && (sr
            ==> removes.len() == 0) && (sa ==> adds.len() == 0) && (sd ==> deletes.len()
            == 0) implies !sd && de is Some && rest_ok by {
        let k = value_actions_end(t, i + 1, deletes)->0;
        lemma_clauses_head(t, k, sets, removes, adds, Seq::empty());
        assert(vacts_stop(t, i + 1, deletes)) by {
            reveal(vacts_stop);
        }
        assert(de == Some(k)) by {
            reveal(vacts_complete);
        }
        reveal(clauses_complete);
        assert(clauses_from(t, k, sets, removes, adds, Seq::empty()));
    }
    reveal(clauses_complete);
}

/// The tokens are exactly the update expression `u`.
pub open spec fn update_ok(t: Seq<TokV>, u: UpdateExpr) -> bool {
    t.len() > 0 && clauses_from(t, 0, u.sets@, u.removes@, u.adds@, u.deletes@)
}

/// The tokens are some update expression.
pub open spec fn update_parses(t: Seq<TokV>) -> bool {
    exists|u: UpdateExpr| update_ok(t, u)
}

/// The tokens are exactly the non-empty list of paths `ps`.
pub open spec fn projection_ok(t: Seq<TokV>, ps: Seq<Path>) -> bool {
    paths_end(t, 0, ps) == Some(t.len() as int)
}

/// The tokens are some projection.
pub open spec fn projection_parses(t: Seq<TokV>) -> bool {
    exists|ps: Seq<Path>| projection_ok(t, ps)
}

/// A projection's list of paths stops.
pub proof fn lemma_projection_stops(t: Seq<TokV>, ps: Seq<Path>)
    requires
        projection_ok(t, ps),
    ensures
        paths_stop(t, 0, ps),
{
    reveal(paths_stop);
}

} // verus!
