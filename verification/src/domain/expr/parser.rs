//! Hand-written recursive-descent parsers for key conditions, conditions and
//! filters, update expressions and projections.
//!
//! Precedence: OR < AND < NOT < primary. Keywords (AND / OR / NOT / BETWEEN /
//! IN ...) are case-insensitive and reserved (use `#name` for such attributes);
//! function names are lower case. Syntax errors are validation errors.
use vstd::prelude::*;
use crate::domain::expr::ast::{
    CmpOp, Expr, KeyCondition, Operand, Path, PathSeg, SetOperand, SetValue, SkCond, UpdateExpr,
};
use crate::domain::expr::lexer::{lex, lex_spec, toks_view, tok_view, Tok, TokV};
use crate::domain::expr::grammar::{
    clauses_from, key_condition_ok, kw_add, kw_delete, kw_remove, kw_set, paths_end,
    projection_ok, set_action_end, set_operand_end, set_value_end, sets_end, sk_cond_end,
    update_ok, value_action_end, value_actions_end, and_at, compare_at, func_at, head_at, ieq, is_kw, kw_and, kw_between, kw_in, kw_not, kw_or,
    not_at, operand_end, operands_end, or_at, path_end, primary_at, reserved, seg_step, tail_end,
    tok_is, tok_kw, upper, stops, path_stop, path_complete, lemma_path_step, lemma_path_start,
    paths_stop, paths_complete, lemma_paths_first, lemma_paths_next, projection_parses,
    lemma_projection_stops, sk_complete, key_condition_parses, op_follow, val_follow,
    setop_complete, lemma_setop_value, lemma_setop_if_not_exists, lemma_setop_list_append,
    lemma_setop_path, setval_complete, lemma_setval, setact_complete, lemma_setact, sets_stop,
    sets_complete, lemma_sets_first, lemma_sets_next, valact_complete, lemma_valact, vacts_stop,
    vacts_complete, lemma_vacts_first, lemma_vacts_next, clauses_complete, lemma_clauses_head,
    update_parses, lemma_clauses_set, lemma_clauses_remove, lemma_clauses_add,
    lemma_clauses_delete, or_follow, and_follow, not_follow, opnd_complete, lemma_opnd_value,
    lemma_opnd_size, lemma_opnd_path, opnds_stop, opnds_complete, lemma_opnds_first, lemma_opnds_next,
    compare_complete, lemma_compare_op, lemma_compare_between, lemma_compare_in, lemma_compare_none, func_complete,
    lemma_func_path, lemma_func_type, lemma_func_path_operand, lemma_func_unknown, prim_complete,
    or_complete, lemma_prim_paren, lemma_prim_func, lemma_prim_compare, not_complete, lemma_not_not,
    lemma_not_prim, and_cuts, and_complete, lemma_and_start, lemma_and_step, lemma_and_end, or_cuts,
    lemma_or_start, lemma_or_step, lemma_or_end, condition_parses,
};
use crate::domain::attribute::copy_string;
use crate::domain::error::{DbError, validation};
use crate::domain::text::{str_eq, utf8};

verus! {

/// ASCII case-insensitive equality.
pub fn eq_ignore_case(a: &[u8], w: &[u8]) -> (r: bool)
    ensures
        r == ieq(a@, w@),
{
    if a.len() != w.len() {
        return false;
    }
    let mut k: usize = 0;
    while k < a.len()
        invariant
            a@.len() == w@.len(),
            k <= a@.len(),
            forall|m: int| 0 <= m < k ==> upper(a@[m]) == upper(w@[m]),
        decreases a@.len() - k,
    {
        let x = if 97 <= a[k] && a[k] <= 122 { a[k] - 32 } else { a[k] };
        let y = if 97 <= w[k] && w[k] <= 122 { w[k] - 32 } else { w[k] };
        if x != y {
            return false;
        }
        k = k + 1;
    }
    true
}

/// Whether the token at `pos` is the keyword `w`.
pub fn kw_at(toks: &Vec<Tok>, pos: usize, w: &str) -> (r: bool)
    ensures
        r == tok_kw(toks_view(toks@), pos as int, utf8(w@)),
{
    if pos < toks.len() {
        match &toks[pos] {
            Tok::Ident(s) => eq_ignore_case(s.as_str().as_bytes(), w.as_bytes()),
            _ => false,
        }
    } else {
        false
    }
}

fn is_reserved(s: &String) -> (r: bool)
    ensures
        r == reserved(utf8(s@)),
{
    let b = s.as_str().as_bytes();
    eq_ignore_case(b, "AND".as_bytes()) || eq_ignore_case(b, "OR".as_bytes()) || eq_ignore_case(
        b,
        "NOT".as_bytes(),
    ) || eq_ignore_case(b, "BETWEEN".as_bytes()) || eq_ignore_case(b, "IN".as_bytes())
        || eq_ignore_case(b, "SET".as_bytes()) || eq_ignore_case(b, "REMOVE".as_bytes())
        || eq_ignore_case(b, "ADD".as_bytes()) || eq_ignore_case(b, "DELETE".as_bytes())
}

fn syntax_error(msg: &str) -> (e: DbError)
    ensures
        e matches DbError::Validation(s) && s@ == msg@,
{
    validation(msg)
}

/// Whether the token at `pos` is `(`, `)`, `,`, `.`, `[`, `]` — by kind.
fn is_lparen(toks: &Vec<Tok>, pos: usize) -> (r: bool)
    ensures
        r == tok_is(toks_view(toks@), pos as int, TokV::LParen),
{
    pos < toks.len() && matches!(toks[pos], Tok::LParen)
}

fn is_rparen(toks: &Vec<Tok>, pos: usize) -> (r: bool)
    ensures
        r == tok_is(toks_view(toks@), pos as int, TokV::RParen),
{
    pos < toks.len() && matches!(toks[pos], Tok::RParen)
}

fn is_comma(toks: &Vec<Tok>, pos: usize) -> (r: bool)
    ensures
        r == tok_is(toks_view(toks@), pos as int, TokV::Comma),
{
    pos < toks.len() && matches!(toks[pos], Tok::Comma)
}

/// A path head: a non-reserved name or a #name; an error exactly when the
/// token at `pos` is no path head.
pub fn parse_path_head(toks: &Vec<Tok>, pos: usize) -> (r: Result<(PathSeg, usize), DbError>)
    requires
        toks@.len() < usize::MAX / 2,
        pos <= toks@.len(),
    ensures
        match r {
            Ok((s, j)) => j == pos + 1 && head_at(toks_view(toks@), pos as int, s),
            Err(e) => e is Validation && forall|s: PathSeg|
                !#[trigger] head_at(toks_view(toks@), pos as int, s),
        },
{
    if pos >= toks.len() {
        return Err(syntax_error("expression syntax error: expected attribute path"));
    }
    match &toks[pos] {
        Tok::Ident(name) => {
            if is_reserved(name) {
                return Err(
                    syntax_error("expression syntax error: reserved word in path (use a #name placeholder)"),
                );
            }
            Ok((PathSeg::Name(copy_string(name)), pos + 1))
        },
        Tok::NamePh(ph) => Ok((PathSeg::Placeholder(copy_string(ph)), pos + 1)),
        _ => Err(syntax_error("expression syntax error: expected attribute path")),
    }
}

/// A path: head, then `.name` / `[n]` segments, as many as follow. Where a
/// path is written from `pos` and no segment can follow its end, the parse
/// succeeds and ends there.
#[verifier::rlimit(50)]
pub fn parse_path(toks: &Vec<Tok>, pos: usize) -> (r: Result<(Path, usize), DbError>)
    requires
        toks@.len() < usize::MAX / 2,
        pos <= toks@.len(),
    ensures
        match r {
            Ok((p, j)) => path_end(toks_view(toks@), pos as int, p) == Some(j as int) && pos < j
                <= toks@.len(),
            Err(e) => e is Validation,
        },
        path_complete(
            toks_view(toks@),
            pos as int,
            if r is Ok {
                Some(r->Ok_0.1 as int)
            } else {
                None
            },
        ),
{
    let ghost t = toks_view(toks@);
    let (head, mut cur) = match parse_path_head(toks, pos) {
        Ok(x) => x,
        Err(e) => {
            assert forall|q: Path| !#[trigger] path_stop(t, pos as int, q) by {
                if path_stop(t, pos as int, q) {
                    lemma_path_start(t, pos as int, q);
                }
            }
            assert(path_complete(t, pos as int, None)) by {
                reveal(path_complete);
            }
            return Err(e);
        },
    };
    let mut segs: Vec<PathSeg> = Vec::new();
    segs.push(head);
    assert(segs@.drop_first() =~= Seq::<PathSeg>::empty());
    proof {
        assert forall|q: Path| #[trigger] path_stop(t, pos as int, q) implies segs@.len() <= q.0@.len()
            && tail_end(t, pos + 1, q.0@.subrange(1, segs@.len() as int)) == Some(cur as int) by {
            lemma_path_start(t, pos as int, q);
        }
    }
    while cur < toks.len()
        invariant
            t == toks_view(toks@),
            toks@.len() < usize::MAX / 2,
            pos < cur <= toks@.len(),
            segs@.len() > 0,
            head_at(t, pos as int, segs@[0]),
            tail_end(t, pos + 1, segs@.drop_first()) == Some(cur as int),
            forall|q: Path| #[trigger]
                path_stop(t, pos as int, q) ==> segs@.len() <= q.0@.len() && tail_end(
                    t,
                    pos + 1,
                    q.0@.subrange(1, segs@.len() as int),
                ) == Some(cur as int),
        ensures
            stops(t, cur as int),
        decreases toks@.len() - cur,
    {
        let ghost old_segs = segs@;
        let ghost n = segs@.len() as int;
        assert forall|q: Path| #[trigger] path_stop(t, pos as int, q) implies (n == q.0@.len()
            ==> stops(t, cur as int)) && (n < q.0@.len() ==> seg_step(t, cur as int, q.0@[n]) is Some
            && tail_end(t, pos + 1, q.0@.subrange(1, n + 1)) == seg_step(t, cur as int, q.0@[n])) by {
            lemma_path_step(t, pos as int, q, n, cur as int);
        }
        match &toks[cur] {
            Tok::Dot => {
                let (seg, next) = match parse_path_head(toks, cur + 1) {
                    Ok(x) => x,
                    Err(e) => {
                        assert forall|q: Path| !#[trigger] path_stop(t, pos as int, q) by {
                            if path_stop(t, pos as int, q) {
                                if n < q.0@.len() {
                                    assert(head_at(t, cur + 1, q.0@[n]));
                                }
                            }
                        }
                        assert(path_complete(t, pos as int, None)) by {
                            reveal(path_complete);
                        }
                        return Err(e);
                    },
                };
                proof {
                    assert(!(seg is Index));
                }
                segs.push(seg);
                assert(segs@.drop_first().drop_last() =~= old_segs.drop_first());
                cur = next;
            },
            Tok::LBrack => {
                if toks.len() - cur <= 2 {
                    assert forall|q: Path| !#[trigger] path_stop(t, pos as int, q) by {
                        if path_stop(t, pos as int, q) && n < q.0@.len() {
                            assert(seg_step(t, cur as int, q.0@[n]) is Some);
                        }
                    }
                    assert(path_complete(t, pos as int, None)) by {
                        reveal(path_complete);
                    }
                    return Err(syntax_error("expression syntax error: expected list index"));
                }
                let n_idx = match &toks[cur + 1] {
                    Tok::Num(m) => *m,
                    _ => {
                        assert forall|q: Path| !#[trigger] path_stop(t, pos as int, q) by {
                            if path_stop(t, pos as int, q) && n < q.0@.len() {
                                assert(seg_step(t, cur as int, q.0@[n]) is Some);
                            }
                        }
                        assert(path_complete(t, pos as int, None)) by {
                            reveal(path_complete);
                        }
                        return Err(syntax_error("expression syntax error: expected list index"));
                    },
                };
                if !matches!(toks[cur + 2], Tok::RBrack) {
                    assert forall|q: Path| !#[trigger] path_stop(t, pos as int, q) by {
                        if path_stop(t, pos as int, q) && n < q.0@.len() {
                            assert(seg_step(t, cur as int, q.0@[n]) is Some);
                        }
                    }
                    assert(path_complete(t, pos as int, None)) by {
                        reveal(path_complete);
                    }
                    return Err(syntax_error("expression syntax error: expected ']'"));
                }
                segs.push(PathSeg::Index(n_idx));
                assert(segs@.drop_first().drop_last() =~= old_segs.drop_first());
                cur = cur + 3;
            },
            _ => {
                break;
            },
        }
    }
    proof {
        assert forall|q: Path| #[trigger] path_stop(t, pos as int, q) implies path_end(
            t,
            pos as int,
            q,
        )->0 == cur as int by {
            lemma_path_step(t, pos as int, q, segs@.len() as int, cur as int);
        }
    }
    assert(path_complete(t, pos as int, Some(cur as int))) by {
        reveal(path_complete);
    }
    Ok((Path(segs), cur))
}

/// An operand: `:v`, `size(path)` or a path. Where an operand is written from
/// `pos` and followed by what may follow a term, the parse succeeds and ends
/// where it does.
pub fn parse_operand(toks: &Vec<Tok>, pos: usize) -> (r: Result<(Operand, usize), DbError>)
    requires
        toks@.len() < usize::MAX / 2,
        pos <= toks@.len(),
    ensures
        match r {
            Ok((o, j)) => operand_end(toks_view(toks@), pos as int, o) == Some(j as int) && pos < j
                <= toks@.len(),
            Err(e) => e is Validation,
        },
        opnd_complete(
            toks_view(toks@),
            pos as int,
            if r is Ok {
                Some(r->Ok_0.1 as int)
            } else {
                None
            },
        ),
{
    let ghost t = toks_view(toks@);
    if pos < toks.len() {
        assert(t[pos as int] == tok_view(toks@[pos as int]));
        match &toks[pos] {
            Tok::ValPh(v) => {
                proof {
                    lemma_opnd_value(t, pos as int);
                }
                return Ok((Operand::Value(copy_string(v)), pos + 1));
            },
            Tok::Ident(name) => {
                let is_size = str_eq(name.as_str(), "size");
                proof {
                    crate::domain::text::lemma_utf8_injective(name@, "size"@);
                }
                if is_size {
                    if !is_lparen(toks, pos + 1) {
                        proof {
                            lemma_opnd_size(t, pos as int, None);
                        }
                        return Err(syntax_error("expression syntax error: expected '(' after size"));
                    }
                    let rp = parse_path(toks, pos + 2);
                    proof {
                        lemma_opnd_size(
                            t,
                            pos as int,
                            if rp is Ok {
                                Some(rp->Ok_0.1 as int)
                            } else {
                                None
                            },
                        );
                    }
                    let (p, k) = rp?;
                    if !is_rparen(toks, k) {
                        return Err(syntax_error("expression syntax error: expected ')' after size"));
                    }
                    return Ok((Operand::Size(p), k + 1));
                }
            },
            _ => {},
        }
    }
    let rp = parse_path(toks, pos);
    proof {
        lemma_opnd_path(
            t,
            pos as int,
            if rp is Ok {
                Some(rp->Ok_0.1 as int)
            } else {
                None
            },
        );
    }
    let (p, k) = rp?;
    Ok((Operand::Path(p), k))
}

} // verus!

verus! {

/// `name ( args )` for the boolean functions; `pos` is at the name, `pos + 1`
/// holds '('. It succeeds wherever a call is written.
#[verifier::spinoff_prover]
#[verifier::rlimit(30)]
fn parse_bool_function(toks: &Vec<Tok>, pos: usize) -> (r: Result<(Expr, usize), DbError>)
    requires
        toks@.len() < usize::MAX / 2,
        pos + 1 < toks@.len(),
        tok_is(toks_view(toks@), pos + 1, TokV::LParen),
    ensures
        match r {
            Ok((e, j)) => func_at(toks_view(toks@), pos as int, j as int, e) && pos < j
                <= toks@.len(),
            Err(e) => e is Validation,
        },
        func_complete(
            toks_view(toks@),
            pos as int,
            if r is Ok {
                Some(r->Ok_0.1 as int)
            } else {
                None
            },
        ),
{
    let ghost t = toks_view(toks@);
    assert(t[pos as int] == tok_view(toks@[pos as int]));
    let name = match &toks[pos] {
        Tok::Ident(n) => n,
        _ => {
            proof {
                lemma_func_unknown(t, pos as int);
            }
            return Err(syntax_error("expression syntax error: expected a function name"));
        },
    };
    proof {
        crate::domain::text::lemma_utf8_injective(name@, "attribute_exists"@);
        crate::domain::text::lemma_utf8_injective(name@, "attribute_not_exists"@);
        crate::domain::text::lemma_utf8_injective(name@, "attribute_type"@);
        crate::domain::text::lemma_utf8_injective(name@, "begins_with"@);
        crate::domain::text::lemma_utf8_injective(name@, "contains"@);
    }
    let start = pos + 2;
    let present = str_eq(name.as_str(), "attribute_exists");
    if present || str_eq(name.as_str(), "attribute_not_exists") {
        let rp = parse_path(toks, start);
        proof {
            lemma_func_path(
                t,
                pos as int,
                if rp is Ok {
                    Some(rp->Ok_0.1 as int)
                } else {
                    None
                },
                present,
            );
        }
        let (p, k) = rp?;
        if !is_rparen(toks, k) {
            return Err(syntax_error("expression syntax error: expected ')'"));
        }
        if present {
            Ok((Expr::AttributeExists(p), k + 1))
        } else {
            Ok((Expr::AttributeNotExists(p), k + 1))
        }
    } else if str_eq(name.as_str(), "attribute_type") {
        let rp = parse_path(toks, start);
        proof {
            lemma_func_type(
                t,
                pos as int,
                if rp is Ok {
                    Some(rp->Ok_0.1 as int)
                } else {
                    None
                },
            );
        }
        let (p, k) = rp?;
        if !is_comma(toks, k) {
            return Err(syntax_error("expression syntax error: expected ','"));
        }
        if k + 1 >= toks.len() {
            return Err(
                syntax_error("expression syntax error: attribute_type expects a :value placeholder"),
            );
        }
        assert(t[k + 1] == tok_view(toks@[k + 1]));
        let v = match &toks[k + 1] {
            Tok::ValPh(v) => copy_string(v),
            _ => {
                return Err(
                    syntax_error("expression syntax error: attribute_type expects a :value placeholder"),
                );
            },
        };
        if !is_rparen(toks, k + 2) {
            return Err(syntax_error("expression syntax error: expected ')'"));
        }
        Ok((Expr::AttributeType(p, v), k + 3))
    } else {
        let begins = str_eq(name.as_str(), "begins_with");
        if begins || str_eq(name.as_str(), "contains") {
            let rp = parse_path(toks, start);
            let (p, k) = match rp {
                Ok(x) => x,
                Err(e) => {
                    proof {
                        lemma_func_path_operand(t, pos as int, None, None, begins);
                    }
                    return Err(e);
                },
            };
            if !is_comma(toks, k) {
                proof {
                    lemma_func_path_operand(t, pos as int, Some(k as int), None, begins);
                }
                return Err(syntax_error("expression syntax error: expected ','"));
            }
            let ro = parse_operand(toks, k + 1);
            proof {
                lemma_func_path_operand(
                    t,
                    pos as int,
                    Some(k as int),
                    if ro is Ok {
                        Some(ro->Ok_0.1 as int)
                    } else {
                        None
                    },
                    begins,
                );
            }
            let (o, m) = ro?;
            if !is_rparen(toks, m) {
                return Err(syntax_error("expression syntax error: expected ')'"));
            }
            if begins {
                Ok((Expr::BeginsWith(p, o), m + 1))
            } else {
                Ok((Expr::Contains(p, o), m + 1))
            }
        } else {
            proof {
                lemma_func_unknown(t, pos as int);
            }
            Err(syntax_error("expression syntax error: unknown function"))
        }
    }
}

/// `( cond )`, a boolean function, or an operand followed by a comparator,
/// BETWEEN or IN. It succeeds wherever a primary is written, followed by
/// what may follow one.
fn parse_primary(toks: &Vec<Tok>, pos: usize) -> (r: Result<(Expr, usize), DbError>)
    requires
        toks@.len() < usize::MAX / 2,
        pos <= toks@.len(),
    ensures
        match r {
            Ok((e, j)) => primary_at(toks_view(toks@), pos as int, j as int, e) && pos < j
                <= toks@.len(),
            Err(e) => e is Validation,
        },
        prim_complete(
            toks_view(toks@),
            pos as int,
            if r is Ok {
                Some(r->Ok_0.1 as int)
            } else {
                None
            },
        ),
    decreases toks@.len() - pos, 0int,
{
    let ghost t = toks_view(toks@);
    if is_lparen(toks, pos) {
        let ro = parse_or(toks, pos + 1);
        proof {
            lemma_prim_paren(
                t,
                pos as int,
                if ro is Ok {
                    Some(ro->Ok_0.1 as int)
                } else {
                    None
                },
            );
        }
        let (e, j) = ro?;
        if !is_rparen(toks, j) {
            return Err(syntax_error("expression syntax error: expected ')'"));
        }
        return Ok((e, j + 1));
    }
    if pos < toks.len() && is_lparen(toks, pos + 1) {
        assert(t[pos as int] == tok_view(toks@[pos as int]));
        let is_fn = match &toks[pos] {
            Tok::Ident(name) => {
                proof {
                    crate::domain::text::lemma_utf8_injective(name@, "size"@);
                }
                !str_eq(name.as_str(), "size")
            },
            _ => false,
        };
        if is_fn {
            let rf = parse_bool_function(toks, pos);
            proof {
                lemma_prim_func(
                    t,
                    pos as int,
                    if rf is Ok {
                        Some(rf->Ok_0.1 as int)
                    } else {
                        None
                    },
                );
            }
            return rf;
        }
    }
    let rc = parse_comparison(toks, pos);
    proof {
        lemma_prim_compare(
            t,
            pos as int,
            if rc is Ok {
                Some(rc->Ok_0.1 as int)
            } else {
                None
            },
        );
    }
    rc
}

/// Operands separated by commas, from `pos`; it succeeds wherever a list of
/// them closed by `)` is written.
fn parse_operand_list(toks: &Vec<Tok>, pos: usize) -> (r: Result<(Vec<Operand>, usize), DbError>)
    requires
        toks@.len() < usize::MAX / 2,
        pos <= toks@.len(),
    ensures
        match r {
            Ok((list, j)) => operands_end(toks_view(toks@), pos as int, list@) == Some(j as int) && pos
                < j <= toks@.len(),
            Err(e) => e is Validation,
        },
        opnds_complete(
            toks_view(toks@),
            pos as int,
            if r is Ok {
                Some(r->Ok_0.1 as int)
            } else {
                None
            },
        ),
{
    let ghost t = toks_view(toks@);
    let (first, mut m) = match parse_operand(toks, pos) {
        Ok(x) => x,
        Err(e) => {
            assert(opnds_complete(t, pos as int, None)) by {
                reveal(opnds_complete);
                assert forall|l: Seq<Operand>| !#[trigger] opnds_stop(t, pos as int, l) by {
                    if opnds_stop(t, pos as int, l) {
                        lemma_opnds_first(t, pos as int, l);
                        reveal(opnd_complete);
                    }
                }
            }
            return Err(e);
        },
    };
    let mut list: Vec<Operand> = Vec::new();
    list.push(first);
    assert(list@.len() == 1);
    proof {
        assert forall|l: Seq<Operand>| #[trigger] opnds_stop(t, pos as int, l) implies list@.len()
            <= l.len() && operands_end(t, pos as int, l.take(list@.len() as int)) == Some(m as int) by {
            lemma_opnds_first(t, pos as int, l);
            reveal(opnd_complete);
        }
    }
    while is_comma(toks, m)
        invariant
            t == toks_view(toks@),
            toks@.len() < usize::MAX / 2,
            pos < m <= toks@.len(),
            list@.len() > 0,
            operands_end(t, pos as int, list@) == Some(m as int),
            forall|l: Seq<Operand>| #[trigger]
                opnds_stop(t, pos as int, l) ==> list@.len() <= l.len() && operands_end(
                    t,
                    pos as int,
                    l.take(list@.len() as int),
                ) == Some(m as int),
        decreases toks@.len() - m,
    {
        let ghost old_list = list@;
        let ghost n = list@.len() as int;
        assert forall|l: Seq<Operand>| #[trigger] opnds_stop(t, pos as int, l) implies n < l.len()
            && operand_end(t, m + 1, l[n]) is Some && op_follow(t, operand_end(t, m + 1, l[n])->0)
            && operands_end(t, pos as int, l.take(n + 1)) == operand_end(t, m + 1, l[n]) by {
            lemma_opnds_next(t, pos as int, l, n, m as int);
        }
        let (o, next) = match parse_operand(toks, m + 1) {
            Ok(x) => x,
            Err(e) => {
                assert(opnds_complete(t, pos as int, None)) by {
                    reveal(opnds_complete);
                    reveal(opnd_complete);
                    assert forall|l: Seq<Operand>| !#[trigger] opnds_stop(t, pos as int, l) by {
                        if opnds_stop(t, pos as int, l) {
                            assert(operand_end(t, m + 1, l[n]) is Some);
                        }
                    }
                }
                return Err(e);
            },
        };
        proof {
            reveal(opnd_complete);
            assert forall|l: Seq<Operand>| #[trigger] opnds_stop(t, pos as int, l) implies operands_end(
                t,
                pos as int,
                l.take(n + 1),
            ) == Some(next as int) by {
                assert(operand_end(t, m + 1, l[n]) is Some);
            }
        }
        list.push(o);
        assert(list@.drop_last() =~= old_list);
        m = next;
    }
    assert(opnds_complete(t, pos as int, Some(m as int))) by {
        reveal(opnds_complete);
        assert forall|l: Seq<Operand>| #[trigger] opnds_stop(t, pos as int, l) implies operands_end(
            t,
            pos as int,
            l,
        )->0 == m as int by {
            lemma_opnds_next(t, pos as int, l, list@.len() as int, m as int);
        }
    }
    Ok((list, m))
}

/// An operand followed by a comparator, BETWEEN or IN. It succeeds wherever
/// one is written, followed by what may follow a primary.
fn parse_comparison(toks: &Vec<Tok>, pos: usize) -> (r: Result<(Expr, usize), DbError>)
    requires
        toks@.len() < usize::MAX / 2,
        pos <= toks@.len(),
    ensures
        match r {
            Ok((e, j)) => compare_at(toks_view(toks@), pos as int, j as int, e) && pos < j
                <= toks@.len(),
            Err(e) => e is Validation,
        },
        compare_complete(
            toks_view(toks@),
            pos as int,
            if r is Ok {
                Some(r->Ok_0.1 as int)
            } else {
                None
            },
        ),
{
    let ghost t = toks_view(toks@);
    let (target, k) = match parse_operand(toks, pos) {
        Ok(x) => x,
        Err(e) => {
            proof {
                lemma_compare_none(t, pos as int, None);
            }
            return Err(e);
        },
    };
    if k < toks.len() {
        if let Tok::Op(op) = &toks[k] {
            let op = *op;
            assert(t[k as int] == tok_view(toks@[k as int]));
            let rr = parse_operand(toks, k + 1);
            proof {
                lemma_compare_op(
                    t,
                    pos as int,
                    Some(k as int),
                    if rr is Ok {
                        Some(rr->Ok_0.1 as int)
                    } else {
                        None
                    },
                );
            }
            let (right, j) = rr?;
            let e = Expr::Cmp { op, left: target, right };
            return Ok((e, j));
        }
    }
    assert(!(0 <= k < t.len() && t[k as int] is Op)) by {
        if k < toks.len() {
            assert(t[k as int] == tok_view(toks@[k as int]));
        }
    }
    if kw_at(toks, k, "BETWEEN") {
        let (lo, k2) = match parse_operand(toks, k + 1) {
            Ok(x) => x,
            Err(e) => {
                proof {
                    lemma_compare_between(t, pos as int, Some(k as int), None, None);
                }
                return Err(e);
            },
        };
        if !kw_at(toks, k2, "AND") {
            proof {
                lemma_compare_between(t, pos as int, Some(k as int), Some(k2 as int), None);
            }
            return Err(syntax_error("expression syntax error: expected AND in BETWEEN"));
        }
        let rh = parse_operand(toks, k2 + 1);
        proof {
            lemma_compare_between(
                t,
                pos as int,
                Some(k as int),
                Some(k2 as int),
                if rh is Ok {
                    Some(rh->Ok_0.1 as int)
                } else {
                    None
                },
            );
        }
        let (hi, j) = rh?;
        let e = Expr::Between { target, lo, hi };
        return Ok((e, j));
    }
    if kw_at(toks, k, "IN") {
        if !is_lparen(toks, k + 1) {
            proof {
                lemma_compare_in(t, pos as int, Some(k as int), None);
            }
            return Err(syntax_error("expression syntax error: expected '(' after IN"));
        }
        let rl = parse_operand_list(toks, k + 2);
        proof {
            lemma_compare_in(
                t,
                pos as int,
                Some(k as int),
                if rl is Ok {
                    Some(rl->Ok_0.1 as int)
                } else {
                    None
                },
            );
        }
        let (list, m) = rl?;
        if !is_rparen(toks, m) {
            return Err(syntax_error("expression syntax error: expected ')' after IN list"));
        }
        let e = Expr::In { target, list };
        return Ok((e, m + 1));
    }
    proof {
        lemma_compare_none(t, pos as int, Some(k as int));
    }
    Err(syntax_error("expression syntax error: expected comparator, BETWEEN or IN after operand"))
}

/// `NOT* primary`; it succeeds wherever one is written, followed by what may
/// follow one.
fn parse_not(toks: &Vec<Tok>, pos: usize) -> (r: Result<(Expr, usize), DbError>)
    requires
        toks@.len() < usize::MAX / 2,
        pos <= toks@.len(),
    ensures
        match r {
            Ok((e, j)) => not_at(toks_view(toks@), pos as int, j as int, e) && pos < j
                <= toks@.len(),
            Err(e) => e is Validation,
        },
        not_complete(
            toks_view(toks@),
            pos as int,
            if r is Ok {
                Some(r->Ok_0.1 as int)
            } else {
                None
            },
        ),
    decreases toks@.len() - pos, 1int,
{
    let ghost t = toks_view(toks@);
    if kw_at(toks, pos, "NOT") {
        let rn = parse_not(toks, pos + 1);
        proof {
            lemma_not_not(
                t,
                pos as int,
                if rn is Ok {
                    Some(rn->Ok_0.1 as int)
                } else {
                    None
                },
            );
        }
        let (e, j) = rn?;
        let r = Expr::Not(Box::new(e));
        assert(not_at(t, pos as int, j as int, r));
        Ok((r, j))
    } else {
        let rp = parse_primary(toks, pos);
        proof {
            lemma_not_prim(
                t,
                pos as int,
                if rp is Ok {
                    Some(rp->Ok_0.1 as int)
                } else {
                    None
                },
            );
        }
        rp
    }
}

/// A left-associated AND chain; it succeeds wherever one is written, followed
/// by what may follow one, and takes all of it.
fn parse_and(toks: &Vec<Tok>, pos: usize) -> (r: Result<(Expr, usize), DbError>)
    requires
        toks@.len() < usize::MAX / 2,
        pos <= toks@.len(),
    ensures
        match r {
            Ok((e, j)) => and_at(toks_view(toks@), pos as int, j as int, e) && pos < j
                <= toks@.len(),
            Err(e) => e is Validation,
        },
        and_complete(
            toks_view(toks@),
            pos as int,
            if r is Ok {
                Some(r->Ok_0.1 as int)
            } else {
                None
            },
        ),
    decreases toks@.len() - pos, 2int,
{
    let ghost t = toks_view(toks@);
    let rn = parse_not(toks, pos);
    proof {
        lemma_and_start(
            t,
            pos as int,
            if rn is Ok {
                Some(rn->Ok_0.1 as int)
            } else {
                None
            },
        );
    }
    let (mut left, mut j) = match rn {
        Ok(x) => x,
        Err(e) => {
            proof {
                lemma_and_end(t, pos as int, None);
            }
            return Err(e);
        },
    };
    while kw_at(toks, j, "AND")
        invariant
            t == toks_view(toks@),
            toks@.len() < usize::MAX / 2,
            pos < j <= toks@.len(),
            and_at(t, pos as int, j as int, left),
            and_cuts(t, pos as int, Some(j as int)),
        decreases toks@.len() - j,
    {
        let k = j;
        let rn2 = parse_not(toks, k + 1);
        proof {
            lemma_and_step(
                t,
                pos as int,
                k as int,
                if rn2 is Ok {
                    Some(rn2->Ok_0.1 as int)
                } else {
                    None
                },
            );
        }
        let (right, next) = match rn2 {
            Ok(x) => x,
            Err(e) => {
                proof {
                    lemma_and_end(t, pos as int, None);
                }
                return Err(e);
            },
        };
        left = Expr::And(Box::new(left), Box::new(right));
        assert(tok_kw(t, k as int, kw_and()));
        assert(and_at(t, pos as int, next as int, left));
        j = next;
    }
    proof {
        lemma_and_end(t, pos as int, Some(j as int));
    }
    Ok((left, j))
}

/// A left-associated OR chain: a whole condition. It succeeds wherever one is
/// written, followed by the end or `)`, and takes all of it.
fn parse_or(toks: &Vec<Tok>, pos: usize) -> (r: Result<(Expr, usize), DbError>)
    requires
        toks@.len() < usize::MAX / 2,
        pos <= toks@.len(),
    ensures
        match r {
            Ok((e, j)) => or_at(toks_view(toks@), pos as int, j as int, e) && pos < j
                <= toks@.len(),
            Err(e) => e is Validation,
        },
        or_complete(
            toks_view(toks@),
            pos as int,
            if r is Ok {
                Some(r->Ok_0.1 as int)
            } else {
                None
            },
        ),
    decreases toks@.len() - pos, 3int,
{
    let ghost t = toks_view(toks@);
    let ra = parse_and(toks, pos);
    proof {
        lemma_or_start(
            t,
            pos as int,
            if ra is Ok {
                Some(ra->Ok_0.1 as int)
            } else {
                None
            },
        );
    }
    let (mut left, mut j) = match ra {
        Ok(x) => x,
        Err(e) => {
            proof {
                lemma_or_end(t, pos as int, None);
            }
            return Err(e);
        },
    };
    while kw_at(toks, j, "OR")
        invariant
            t == toks_view(toks@),
            toks@.len() < usize::MAX / 2,
            pos < j <= toks@.len(),
            or_at(t, pos as int, j as int, left),
            or_cuts(t, pos as int, Some(j as int)),
        decreases toks@.len() - j,
    {
        let k = j;
        let ra2 = parse_and(toks, k + 1);
        proof {
            lemma_or_step(
                t,
                pos as int,
                k as int,
                if ra2 is Ok {
                    Some(ra2->Ok_0.1 as int)
                } else {
                    None
                },
            );
        }
        let (right, next) = match ra2 {
            Ok(x) => x,
            Err(e) => {
                proof {
                    lemma_or_end(t, pos as int, None);
                }
                return Err(e);
            },
        };
        left = Expr::Or(Box::new(left), Box::new(right));
        assert(tok_kw(t, k as int, kw_or()));
        assert(or_at(t, pos as int, next as int, left));
        j = next;
    }
    proof {
        lemma_or_end(t, pos as int, Some(j as int));
    }
    Ok((left, j))
}

/// Lexes, refusing token counts beyond half the address space.
fn lex_bounded(input: &str) -> (r: Result<Vec<Tok>, DbError>)
    ensures
        match r {
            Ok(t) => lex_spec(utf8(input@)) == Some(toks_view(t@)) && t@.len() < usize::MAX / 2,
            Err(e) => e is Validation && match lex_spec(utf8(input@)) {
                Some(t) => t.len() >= usize::MAX / 2,
                None => true,
            },
        },
{
    let toks = lex(input)?;
    if toks.len() >= usize::MAX / 2 {
        return Err(syntax_error("expression too long"));
    }
    Ok(toks)
}

/// Parses a condition or filter expression: the whole input must be one
/// condition of the grammar. It fails exactly when the input does not lex, is
/// no condition, or holds more tokens than half the address space.
pub fn parse_condition(input: &str) -> (r: Result<Expr, DbError>)
    ensures
        match r {
            Ok(e) => lex_spec(utf8(input@)) matches Some(t) && or_at(t, 0, t.len() as int, e)
                && t.len() < usize::MAX / 2,
            Err(e) => e is Validation && match lex_spec(utf8(input@)) {
                Some(t) => t.len() >= usize::MAX / 2 || !condition_parses(t),
                None => true,
            },
        },
{
    let toks = lex_bounded(input)?;
    let ghost t = toks_view(toks@);
    let (e, j) = match parse_or(&toks, 0) {
        Ok(x) => x,
        Err(err) => {
            assert(!condition_parses(t)) by {
                reveal(or_complete);
            }
            return Err(err);
        },
    };
    if j != toks.len() {
        assert(!condition_parses(t)) by {
            reveal(or_complete);
        }
        return Err(syntax_error("expression syntax error: unexpected trailing tokens"));
    }
    Ok(e)
}

} // verus!

verus! {

fn valph_at(toks: &Vec<Tok>, pos: usize) -> (r: Option<String>)
    ensures
        match r {
            Some(v) => tok_is(toks_view(toks@), pos as int, TokV::ValPh(utf8(v@))),
            None => !(0 <= pos < toks@.len() && toks@[pos as int] is ValPh),
        },
{
    if pos < toks.len() {
        match &toks[pos] {
            Tok::ValPh(v) => Some(copy_string(v)),
            _ => None,
        }
    } else {
        None
    }
}

fn ident_is(toks: &Vec<Tok>, pos: usize, name: &str) -> (r: bool)
    ensures
        r == tok_is(toks_view(toks@), pos as int, TokV::Ident(utf8(name@))),
{
    if pos < toks.len() {
        let ghost t = toks_view(toks@);
        assert(t[pos as int] == tok_view(toks@[pos as int]));
        match &toks[pos] {
            Tok::Ident(s) => {
                let r = str_eq(s.as_str(), name);
                proof {
                    crate::domain::text::lemma_utf8_injective(s@, name@);
                }
                r
            },
            _ => false,
        }
    } else {
        false
    }
}

/// The sort key part of a key condition, after `AND`; it succeeds whenever a
/// sort key condition is written from `pos`.
#[verifier::rlimit(30)]
fn parse_sk_condition(toks: &Vec<Tok>, pos: usize) -> (r: Result<(PathSeg, SkCond, usize), DbError>)
    requires
        toks@.len() < usize::MAX / 2,
        pos <= toks@.len(),
    ensures
        match r {
            Ok((n, c, j)) => sk_cond_end(toks_view(toks@), pos as int, n, c) == Some(j as int) && j
                <= toks@.len(),
            Err(e) => e is Validation,
        },
        sk_complete(
            toks_view(toks@),
            pos as int,
            if r is Ok {
                Some(r->Ok_0.2 as int)
            } else {
                None
            },
        ),
{
    let ghost t = toks_view(toks@);
    if ident_is(toks, pos, "begins_with") && is_lparen(toks, pos + 1) {
        // Only begins_with can be written here: the others need a comparator
        // or BETWEEN after the name.
        let (name, k) = match parse_path_head(toks, pos + 2) {
            Ok(x) => x,
            Err(e) => {
                assert(sk_complete(t, pos as int, None)) by {
                    reveal(sk_complete);
                }
                return Err(e);
            },
        };
        if !is_comma(toks, k) {
            assert(sk_complete(t, pos as int, None)) by {
                reveal(sk_complete);
            }
            return Err(syntax_error("expression syntax error: expected ','"));
        }
        let v = match valph_at(toks, k + 1) {
            Some(v) => v,
            None => {
                assert(sk_complete(t, pos as int, None)) by {
                    reveal(sk_complete);
                }
                return Err(
                    syntax_error("expression syntax error: begins_with expects a :value placeholder"),
                );
            },
        };
        if !is_rparen(toks, k + 2) {
            assert(sk_complete(t, pos as int, None)) by {
                reveal(sk_complete);
            }
            return Err(syntax_error("expression syntax error: expected ')'"));
        }
        assert(sk_complete(t, pos as int, Some(k + 3))) by {
            reveal(sk_complete);
        }
        return Ok((name, SkCond::BeginsWith(v), k + 3));
    }
    let (name, k) = match parse_path_head(toks, pos) {
        Ok(x) => x,
        Err(e) => {
            assert(sk_complete(t, pos as int, None)) by {
                reveal(sk_complete);
            }
            return Err(e);
        },
    };
    if k < toks.len() {
        if let Tok::Op(op) = &toks[k] {
            let op = *op;
            assert(t[k as int] == tok_view(toks@[k as int]));
            if matches!(op, CmpOp::Ne) {
                assert(sk_complete(t, pos as int, None)) by {
                    reveal(sk_complete);
                }
                return Err(syntax_error("expression syntax error: sort key condition does not support '<>'"));
            }
            let v = match valph_at(toks, k + 1) {
                Some(v) => v,
                None => {
                    assert(sk_complete(t, pos as int, None)) by {
                        reveal(sk_complete);
                    }
                    return Err(
                        syntax_error("expression syntax error: expected a :value placeholder for sort key"),
                    );
                },
            };
            assert(sk_complete(t, pos as int, Some(k + 2))) by {
                reveal(sk_complete);
            }
            return Ok((name, SkCond::Cmp(op, v), k + 2));
        }
    }
    if kw_at(toks, k, "BETWEEN") {
        let a = match valph_at(toks, k + 1) {
            Some(v) => v,
            None => {
                assert(sk_complete(t, pos as int, None)) by {
                    reveal(sk_complete);
                }
                return Err(syntax_error("expression syntax error: BETWEEN expects :value placeholders"));
            },
        };
        if !kw_at(toks, k + 2, "AND") {
            assert(sk_complete(t, pos as int, None)) by {
                reveal(sk_complete);
            }
            return Err(syntax_error("expression syntax error: expected AND in BETWEEN"));
        }
        let b = match valph_at(toks, k + 3) {
            Some(v) => v,
            None => {
                assert(sk_complete(t, pos as int, None)) by {
                    reveal(sk_complete);
                }
                return Err(syntax_error("expression syntax error: BETWEEN expects :value placeholders"));
            },
        };
        assert(sk_complete(t, pos as int, Some(k + 4))) by {
            reveal(sk_complete);
        }
        return Ok((name, SkCond::Between(a, b), k + 4));
    }
    assert(sk_complete(t, pos as int, None)) by {
        reveal(sk_complete);
    }
    Err(syntax_error("expression syntax error: expected comparator, BETWEEN or begins_with for sort key"))
}

/// Parses a key condition expression:
/// `pk = :v [AND (sk cmp :v | sk BETWEEN :a AND :b | begins_with(sk, :p))]`.
/// It fails exactly when the input does not lex, is no key condition, or
/// holds more tokens than half the address space.
pub fn parse_key_condition(input: &str) -> (r: Result<KeyCondition, DbError>)
    ensures
        match r {
            Ok(kc) => lex_spec(utf8(input@)) matches Some(t) && key_condition_ok(t, kc) && t.len()
                < usize::MAX / 2,
            Err(e) => e is Validation && match lex_spec(utf8(input@)) {
                Some(t) => t.len() >= usize::MAX / 2 || !key_condition_parses(t),
                None => true,
            },
        },
{
    let toks = lex_bounded(input)?;
    let ghost t = toks_view(toks@);
    let (pk_name, k) = match parse_path_head(&toks, 0) {
        Ok(x) => x,
        Err(e) => {
            assert(!key_condition_parses(t));
            return Err(e);
        },
    };
    if k >= toks.len() {
        assert(!key_condition_parses(t));
        return Err(syntax_error("expression syntax error: expected '=' after partition key"));
    }
    assert(t[k as int] == tok_view(toks@[k as int]));
    match &toks[k] {
        Tok::Op(CmpOp::Eq) => {},
        Tok::Op(_) => {
            assert(!key_condition_parses(t));
            return Err(syntax_error("expression syntax error: partition key supports '=' only"));
        },
        _ => {
            assert(!key_condition_parses(t));
            return Err(syntax_error("expression syntax error: expected '=' after partition key"));
        },
    }
    let pk_value = match valph_at(&toks, 2) {
        Some(v) => v,
        None => {
            assert(!key_condition_parses(t));
            return Err(
                syntax_error("expression syntax error: expected a :value placeholder for partition key"),
            );
        },
    };
    let sk = if kw_at(&toks, 3, "AND") {
        let (n, c, j) = match parse_sk_condition(&toks, 4) {
            Ok(x) => x,
            Err(e) => {
                assert(!key_condition_parses(t)) by {
                    reveal(sk_complete);
                }
                return Err(e);
            },
        };
        if j != toks.len() {
            assert(!key_condition_parses(t)) by {
                reveal(sk_complete);
            }
            return Err(syntax_error("expression syntax error: unexpected trailing tokens"));
        }
        Some((n, c))
    } else {
        if toks.len() != 3 {
            assert(!key_condition_parses(t));
            return Err(syntax_error("expression syntax error: unexpected trailing tokens"));
        }
        None
    };
    Ok(KeyCondition { pk_name, pk_value, sk })
}

/// A SET term: `:v`, `if_not_exists(path, term)`, `list_append(term, term)`
/// or a path. Where a term is written from `pos` and followed by what may
/// follow one, the parse succeeds and ends where it does.
fn parse_set_operand(toks: &Vec<Tok>, pos: usize) -> (r: Result<(SetOperand, usize), DbError>)
    requires
        toks@.len() < usize::MAX / 2,
        pos <= toks@.len(),
    ensures
        match r {
            Ok((o, j)) => set_operand_end(toks_view(toks@), pos as int, o) == Some(j as int) && pos
                < j <= toks@.len(),
            Err(e) => e is Validation,
        },
        setop_complete(
            toks_view(toks@),
            pos as int,
            if r is Ok {
                Some(r->Ok_0.1 as int)
            } else {
                None
            },
        ),
    decreases toks@.len() - pos,
{
    let ghost t = toks_view(toks@);
    if let Some(v) = valph_at(&toks, pos) {
        proof {
            lemma_setop_value(t, pos as int);
        }
        return Ok((SetOperand::Value(v), pos + 1));
    }
    if ident_is(toks, pos, "if_not_exists") && is_lparen(toks, pos + 1) {
        let (p, k) = match parse_path(toks, pos + 2) {
            Ok(x) => x,
            Err(e) => {
                proof {
                    lemma_setop_if_not_exists(t, pos as int, None, None);
                }
                return Err(e);
            },
        };
        if !is_comma(toks, k) {
            proof {
                lemma_setop_if_not_exists(t, pos as int, Some(k as int), None);
            }
            return Err(syntax_error("expression syntax error: expected ','"));
        }
        let (d, m) = match parse_set_operand(toks, k + 1) {
            Ok(x) => x,
            Err(e) => {
                proof {
                    lemma_setop_if_not_exists(t, pos as int, Some(k as int), None);
                }
                return Err(e);
            },
        };
        proof {
            lemma_setop_if_not_exists(t, pos as int, Some(k as int), Some(m as int));
        }
        if !is_rparen(toks, m) {
            return Err(syntax_error("expression syntax error: expected ')'"));
        }
        let o = SetOperand::IfNotExists(p, Box::new(d));
        return Ok((o, m + 1));
    }
    if ident_is(toks, pos, "list_append") && is_lparen(toks, pos + 1) {
        let (a, k) = match parse_set_operand(toks, pos + 2) {
            Ok(x) => x,
            Err(e) => {
                proof {
                    lemma_setop_list_append(t, pos as int, None, None);
                }
                return Err(e);
            },
        };
        if !is_comma(toks, k) {
            proof {
                lemma_setop_list_append(t, pos as int, Some(k as int), None);
            }
            return Err(syntax_error("expression syntax error: expected ','"));
        }
        let (b, m) = match parse_set_operand(toks, k + 1) {
            Ok(x) => x,
            Err(e) => {
                proof {
                    lemma_setop_list_append(t, pos as int, Some(k as int), None);
                }
                return Err(e);
            },
        };
        proof {
            lemma_setop_list_append(t, pos as int, Some(k as int), Some(m as int));
        }
        if !is_rparen(toks, m) {
            return Err(syntax_error("expression syntax error: expected ')'"));
        }
        let o = SetOperand::ListAppend(Box::new(a), Box::new(b));
        return Ok((o, m + 1));
    }
    let r = parse_path(toks, pos);
    proof {
        lemma_setop_path(t, pos as int, if r is Ok { Some(r->Ok_0.1 as int) } else { None });
    }
    let (p, k) = r?;
    Ok((SetOperand::Path(p), k))
}

/// A SET right-hand side: a term, or `a + b` / `a - b`. Where one is
/// written from `pos`, followed by what may follow one, the parse succeeds
/// and ends where it does.
fn parse_set_value(toks: &Vec<Tok>, pos: usize) -> (r: Result<(SetValue, usize), DbError>)
    requires
        toks@.len() < usize::MAX / 2,
        pos <= toks@.len(),
    ensures
        match r {
            Ok((v, j)) => set_value_end(toks_view(toks@), pos as int, v) == Some(j as int) && pos
                < j <= toks@.len(),
            Err(e) => e is Validation,
        },
        setval_complete(
            toks_view(toks@),
            pos as int,
            if r is Ok {
                Some(r->Ok_0.1 as int)
            } else {
                None
            },
        ),
{
    let ghost t = toks_view(toks@);
    let (a, k) = match parse_set_operand(toks, pos) {
        Ok(x) => x,
        Err(e) => {
            proof {
                lemma_setval(t, pos as int, None, None);
            }
            return Err(e);
        },
    };
    if k < toks.len() {
        assert(t[k as int] == tok_view(toks@[k as int]));
        match &toks[k] {
            Tok::Plus => {
                let rb = parse_set_operand(toks, k + 1);
                proof {
                    lemma_setval(
                        t,
                        pos as int,
                        Some(k as int),
                        if rb is Ok {
                            Some(rb->Ok_0.1 as int)
                        } else {
                            None
                        },
                    );
                }
                let (b, j) = rb?;
                return Ok((SetValue::Plus(a, b), j));
            },
            Tok::Minus => {
                let rb = parse_set_operand(toks, k + 1);
                proof {
                    lemma_setval(
                        t,
                        pos as int,
                        Some(k as int),
                        if rb is Ok {
                            Some(rb->Ok_0.1 as int)
                        } else {
                            None
                        },
                    );
                }
                let (b, j) = rb?;
                return Ok((SetValue::Minus(a, b), j));
            },
            _ => {},
        }
    }
    proof {
        lemma_setval(t, pos as int, Some(k as int), None);
    }
    Ok((SetValue::Single(a), k))
}

/// One SET action `path = value`; it succeeds wherever one is written,
/// followed by what may follow one.
fn parse_set_action(toks: &Vec<Tok>, pos: usize) -> (r: Result<((Path, SetValue), usize), DbError>)
    requires
        toks@.len() < usize::MAX / 2,
        pos <= toks@.len(),
    ensures
        match r {
            Ok((a, j)) => set_action_end(toks_view(toks@), pos as int, a) == Some(j as int) && pos
                < j <= toks@.len(),
            Err(e) => e is Validation,
        },
        setact_complete(
            toks_view(toks@),
            pos as int,
            if r is Ok {
                Some(r->Ok_0.1 as int)
            } else {
                None
            },
        ),
{
    let ghost t = toks_view(toks@);
    let (p, k) = match parse_path(toks, pos) {
        Ok(x) => x,
        Err(e) => {
            proof {
                lemma_setact(t, pos as int, None, None);
            }
            return Err(e);
        },
    };
    if !(k < toks.len() && matches!(toks[k], Tok::Op(CmpOp::Eq))) {
        proof {
            lemma_setact(t, pos as int, Some(k as int), None);
        }
        return Err(syntax_error("expression syntax error: expected '=' in SET action"));
    }
    assert(t[k as int] == tok_view(toks@[k as int]));
    let rv = parse_set_value(toks, k + 1);
    proof {
        lemma_setact(
            t,
            pos as int,
            Some(k as int),
            if rv is Ok {
                Some(rv->Ok_0.1 as int)
            } else {
                None
            },
        );
    }
    let (v, j) = rv?;
    Ok(((p, v), j))
}

/// The actions of a SET clause; it succeeds wherever a list of them is
/// written, followed by what may follow one and no comma.
fn parse_set_actions(toks: &Vec<Tok>, pos: usize) -> (r: Result<(Vec<(Path, SetValue)>, usize), DbError>)
    requires
        toks@.len() < usize::MAX / 2,
        pos <= toks@.len(),
    ensures
        match r {
            Ok((s, j)) => sets_end(toks_view(toks@), pos as int, s@) == Some(j as int) && pos < j
                <= toks@.len(),
            Err(e) => e is Validation,
        },
        sets_complete(
            toks_view(toks@),
            pos as int,
            if r is Ok {
                Some(r->Ok_0.1 as int)
            } else {
                None
            },
        ),
{
    let ghost t = toks_view(toks@);
    let (first, mut cur) = match parse_set_action(toks, pos) {
        Ok(x) => x,
        Err(e) => {
            assert(sets_complete(t, pos as int, None)) by {
                reveal(sets_complete);
                assert forall|ss: Seq<(Path, SetValue)>| !#[trigger] sets_stop(t, pos as int, ss) by {
                    if sets_stop(t, pos as int, ss) {
                        lemma_sets_first(t, pos as int, ss);
                        reveal(setact_complete);
                    }
                }
            }
            return Err(e);
        },
    };
    let mut out: Vec<(Path, SetValue)> = Vec::new();
    out.push(first);
    assert(out@.len() == 1);
    proof {
        assert forall|ss: Seq<(Path, SetValue)>| #[trigger] sets_stop(t, pos as int, ss) implies out@.len()
            <= ss.len() && sets_end(t, pos as int, ss.take(out@.len() as int)) == Some(cur as int) by {
            lemma_sets_first(t, pos as int, ss);
            reveal(setact_complete);
        }
    }
    while is_comma(toks, cur)
        invariant
            t == toks_view(toks@),
            toks@.len() < usize::MAX / 2,
            pos < cur <= toks@.len(),
            out@.len() > 0,
            sets_end(t, pos as int, out@) == Some(cur as int),
            forall|ss: Seq<(Path, SetValue)>| #[trigger]
                sets_stop(t, pos as int, ss) ==> out@.len() <= ss.len() && sets_end(
                    t,
                    pos as int,
                    ss.take(out@.len() as int),
                ) == Some(cur as int),
        decreases toks@.len() - cur,
    {
        let ghost old_out = out@;
        let ghost n = out@.len() as int;
        assert forall|ss: Seq<(Path, SetValue)>| #[trigger] sets_stop(t, pos as int, ss) implies n
            < ss.len() && set_action_end(t, cur + 1, ss[n]) is Some && val_follow(
            t,
            set_action_end(t, cur + 1, ss[n])->0,
        ) && sets_end(t, pos as int, ss.take(n + 1)) == set_action_end(t, cur + 1, ss[n]) by {
            lemma_sets_next(t, pos as int, ss, n, cur as int);
        }
        let (a, next) = match parse_set_action(toks, cur + 1) {
            Ok(x) => x,
            Err(e) => {
                assert(sets_complete(t, pos as int, None)) by {
                    reveal(sets_complete);
                    reveal(setact_complete);
                    assert forall|ss: Seq<(Path, SetValue)>| !#[trigger] sets_stop(t, pos as int, ss) by {
                        if sets_stop(t, pos as int, ss) {
                            assert(set_action_end(t, cur + 1, ss[n]) is Some);
                        }
                    }
                }
                return Err(e);
            },
        };
        proof {
            reveal(setact_complete);
            assert forall|ss: Seq<(Path, SetValue)>| #[trigger] sets_stop(t, pos as int, ss) implies sets_end(
                t,
                pos as int,
                ss.take(n + 1),
            ) == Some(next as int) by {
                assert(set_action_end(t, cur + 1, ss[n]) is Some);
            }
        }
        out.push(a);
        assert(out@.drop_last() =~= old_out);
        cur = next;
    }
    assert(sets_complete(t, pos as int, Some(cur as int))) by {
        reveal(sets_complete);
        assert forall|ss: Seq<(Path, SetValue)>| #[trigger] sets_stop(t, pos as int, ss) implies sets_end(
            t,
            pos as int,
            ss,
        )->0 == cur as int by {
            lemma_sets_next(t, pos as int, ss, out@.len() as int, cur as int);
        }
    }
    Ok((out, cur))
}

/// The paths of a REMOVE clause (or of a projection). Where a list of paths
/// is written from `pos` and neither a segment nor a comma follows its end,
/// the parse succeeds and ends there.
fn parse_path_list(toks: &Vec<Tok>, pos: usize) -> (r: Result<(Vec<Path>, usize), DbError>)
    requires
        toks@.len() < usize::MAX / 2,
        pos <= toks@.len(),
    ensures
        match r {
            Ok((s, j)) => paths_end(toks_view(toks@), pos as int, s@) == Some(j as int) && pos < j
                <= toks@.len(),
            Err(e) => e is Validation,
        },
        paths_complete(
            toks_view(toks@),
            pos as int,
            if r is Ok {
                Some(r->Ok_0.1 as int)
            } else {
                None
            },
        ),
{
    let ghost t = toks_view(toks@);
    let r0 = parse_path(toks, pos);
    let (first, mut cur) = match r0 {
        Ok(x) => x,
        Err(e) => {
            assert(paths_complete(t, pos as int, None)) by {
                reveal(paths_complete);
                reveal(path_complete);
                assert forall|ps: Seq<Path>| !#[trigger] paths_stop(t, pos as int, ps) by {
                    if paths_stop(t, pos as int, ps) {
                        lemma_paths_first(t, pos as int, ps);
                    }
                }
            }
            return Err(e);
        },
    };
    let mut out: Vec<Path> = Vec::new();
    out.push(first);
    assert(out@.len() == 1);
    proof {
        reveal(path_complete);
        assert forall|ps: Seq<Path>| #[trigger] paths_stop(t, pos as int, ps) implies out@.len()
            <= ps.len() && paths_end(t, pos as int, ps.take(out@.len() as int)) == Some(cur as int) by {
            lemma_paths_first(t, pos as int, ps);
            assert(path_complete(t, pos as int, Some(cur as int)));
            assert(Some(cur as int) == Some(path_end(t, pos as int, ps[0])->0));
        }
    }
    while is_comma(toks, cur)
        invariant
            t == toks_view(toks@),
            toks@.len() < usize::MAX / 2,
            pos < cur <= toks@.len(),
            out@.len() > 0,
            paths_end(t, pos as int, out@) == Some(cur as int),
            forall|ps: Seq<Path>| #[trigger]
                paths_stop(t, pos as int, ps) ==> out@.len() <= ps.len() && paths_end(
                    t,
                    pos as int,
                    ps.take(out@.len() as int),
                ) == Some(cur as int),
        decreases toks@.len() - cur,
    {
        let ghost old_out = out@;
        let ghost n = out@.len() as int;
        assert forall|ps: Seq<Path>| #[trigger] paths_stop(t, pos as int, ps) implies n < ps.len()
            && path_stop(t, cur + 1, ps[n]) && paths_end(t, pos as int, ps.take(n + 1)) == Some(
            path_end(t, cur + 1, ps[n])->0,
        ) by {
            lemma_paths_next(t, pos as int, ps, n, cur as int);
        }
        let (p, next) = match parse_path(toks, cur + 1) {
            Ok(x) => x,
            Err(e) => {
                assert(paths_complete(t, pos as int, None)) by {
                    reveal(paths_complete);
                    reveal(path_complete);
                    assert forall|ps: Seq<Path>| !#[trigger] paths_stop(t, pos as int, ps) by {
                        if paths_stop(t, pos as int, ps) {
                            assert(path_stop(t, cur + 1, ps[n]));
                        }
                    }
                }
                return Err(e);
            },
        };
        proof {
            reveal(path_complete);
            assert forall|ps: Seq<Path>| #[trigger] paths_stop(t, pos as int, ps) implies paths_end(
                t,
                pos as int,
                ps.take(n + 1),
            ) == Some(next as int) by {
                assert(path_stop(t, cur + 1, ps[n]));
            }
        }
        out.push(p);
        assert(out@.drop_last() =~= old_out);
        cur = next;
    }
    assert(paths_complete(t, pos as int, Some(cur as int))) by {
        reveal(paths_complete);
        assert forall|ps: Seq<Path>| #[trigger] paths_stop(t, pos as int, ps) implies paths_end(
            t,
            pos as int,
            ps,
        )->0 == cur as int by {
            lemma_paths_next(t, pos as int, ps, out@.len() as int, cur as int);
        }
    }
    Ok((out, cur))
}

/// One ADD or DELETE action `path :v`; it succeeds wherever one is written.
fn parse_value_action(toks: &Vec<Tok>, pos: usize) -> (r: Result<((Path, String), usize), DbError>)
    requires
        toks@.len() < usize::MAX / 2,
        pos <= toks@.len(),
    ensures
        match r {
            Ok((a, j)) => value_action_end(toks_view(toks@), pos as int, a) == Some(j as int) && pos
                < j <= toks@.len(),
            Err(e) => e is Validation,
        },
        valact_complete(
            toks_view(toks@),
            pos as int,
            if r is Ok {
                Some(r->Ok_0.1 as int)
            } else {
                None
            },
        ),
{
    let ghost t = toks_view(toks@);
    let (p, k) = match parse_path(toks, pos) {
        Ok(x) => x,
        Err(e) => {
            proof {
                lemma_valact(t, pos as int, None);
            }
            return Err(e);
        },
    };
    proof {
        lemma_valact(t, pos as int, Some(k as int));
    }
    let v = match valph_at(toks, k) {
        Some(v) => v,
        None => {
            return Err(syntax_error("expression syntax error: ADD / DELETE expects a :value placeholder"));
        },
    };
    Ok(((p, v), k + 1))
}

/// The actions of an ADD or DELETE clause; it succeeds wherever a list of
/// them is written with no comma after it.
fn parse_value_actions(toks: &Vec<Tok>, pos: usize) -> (r: Result<(Vec<(Path, String)>, usize), DbError>)
    requires
        toks@.len() < usize::MAX / 2,
        pos <= toks@.len(),
    ensures
        match r {
            Ok((s, j)) => value_actions_end(toks_view(toks@), pos as int, s@) == Some(j as int)
                && pos < j <= toks@.len(),
            Err(e) => e is Validation,
        },
        vacts_complete(
            toks_view(toks@),
            pos as int,
            if r is Ok {
                Some(r->Ok_0.1 as int)
            } else {
                None
            },
        ),
{
    let ghost t = toks_view(toks@);
    let (first, mut cur) = match parse_value_action(toks, pos) {
        Ok(x) => x,
        Err(e) => {
            assert(vacts_complete(t, pos as int, None)) by {
                reveal(vacts_complete);
                assert forall|ss: Seq<(Path, String)>| !#[trigger] vacts_stop(t, pos as int, ss) by {
                    if vacts_stop(t, pos as int, ss) {
                        lemma_vacts_first(t, pos as int, ss);
                        reveal(valact_complete);
                    }
                }
            }
            return Err(e);
        },
    };
    let mut out: Vec<(Path, String)> = Vec::new();
    out.push(first);
    assert(out@.len() == 1);
    proof {
        assert forall|ss: Seq<(Path, String)>| #[trigger] vacts_stop(t, pos as int, ss) implies out@.len()
            <= ss.len() && value_actions_end(t, pos as int, ss.take(out@.len() as int)) == Some(
            cur as int,
        ) by {
            lemma_vacts_first(t, pos as int, ss);
            reveal(valact_complete);
        }
    }
    while is_comma(toks, cur)
        invariant
            t == toks_view(toks@),
            toks@.len() < usize::MAX / 2,
            pos < cur <= toks@.len(),
            out@.len() > 0,
            value_actions_end(t, pos as int, out@) == Some(cur as int),
            forall|ss: Seq<(Path, String)>| #[trigger]
                vacts_stop(t, pos as int, ss) ==> out@.len() <= ss.len() && value_actions_end(
                    t,
                    pos as int,
                    ss.take(out@.len() as int),
                ) == Some(cur as int),
        decreases toks@.len() - cur,
    {
        let ghost old_out = out@;
        let ghost n = out@.len() as int;
        assert forall|ss: Seq<(Path, String)>| #[trigger] vacts_stop(t, pos as int, ss) implies n
            < ss.len() && value_action_end(t, cur + 1, ss[n]) is Some && value_actions_end(
            t,
            pos as int,
            ss.take(n + 1),
        ) == value_action_end(t, cur + 1, ss[n]) by {
            lemma_vacts_next(t, pos as int, ss, n, cur as int);
        }
        let (a, next) = match parse_value_action(toks, cur + 1) {
            Ok(x) => x,
            Err(e) => {
                assert(vacts_complete(t, pos as int, None)) by {
                    reveal(vacts_complete);
                    reveal(valact_complete);
                    assert forall|ss: Seq<(Path, String)>| !#[trigger] vacts_stop(t, pos as int, ss) by {
                        if vacts_stop(t, pos as int, ss) {
                            assert(value_action_end(t, cur + 1, ss[n]) is Some);
                        }
                    }
                }
                return Err(e);
            },
        };
        proof {
            reveal(valact_complete);
            assert forall|ss: Seq<(Path, String)>| #[trigger] vacts_stop(t, pos as int, ss) implies value_actions_end(
                t,
                pos as int,
                ss.take(n + 1),
            ) == Some(next as int) by {
                assert(value_action_end(t, cur + 1, ss[n]) is Some);
            }
        }
        out.push(a);
        assert(out@.drop_last() =~= old_out);
        cur = next;
    }
    assert(vacts_complete(t, pos as int, Some(cur as int))) by {
        reveal(vacts_complete);
        assert forall|ss: Seq<(Path, String)>| #[trigger] vacts_stop(t, pos as int, ss) implies value_actions_end(
            t,
            pos as int,
            ss,
        )->0 == cur as int by {
            lemma_vacts_next(t, pos as int, ss, out@.len() as int, cur as int);
        }
    }
    Ok((out, cur))
}

/// The clauses from `pos` on; a clause already seen may not come again. It
/// succeeds whenever the tokens from `pos` are such clauses.
fn parse_clauses(
    toks: &Vec<Tok>,
    pos: usize,
    seen_set: bool,
    seen_remove: bool,
    seen_add: bool,
    seen_delete: bool,
) -> (r: Result<UpdateExpr, DbError>)
    requires
        toks@.len() < usize::MAX / 2,
        pos <= toks@.len(),
    ensures
        match r {
            Ok(u) => clauses_from(toks_view(toks@), pos as int, u.sets@, u.removes@, u.adds@, u.deletes@)
                && (seen_set ==> u.sets@.len() == 0) && (seen_remove ==> u.removes@.len() == 0) && (
            seen_add ==> u.adds@.len() == 0) && (seen_delete ==> u.deletes@.len() == 0),
            Err(e) => e is Validation,
        },
        clauses_complete(
            toks_view(toks@),
            pos as int,
            seen_set,
            seen_remove,
            seen_add,
            seen_delete,
            r is Ok,
        ),
    decreases toks@.len() - pos,
{
    let ghost t = toks_view(toks@);
    if pos >= toks.len() {
        assert(clauses_complete(t, pos as int, seen_set, seen_remove, seen_add, seen_delete, true))
            by {
            reveal(clauses_complete);
        }
        return Ok(UpdateExpr { sets: Vec::new(), removes: Vec::new(), adds: Vec::new(), deletes: Vec::new() });
    }
    if kw_at(toks, pos, "SET") {
        if seen_set {
            proof {
                lemma_clauses_set(t, pos as int, seen_set, seen_remove, seen_add, seen_delete, None, false);
            }
            return Err(syntax_error("expression syntax error: duplicate SET clause"));
        }
        let (sets, k) = match parse_set_actions(toks, pos + 1) {
            Ok(x) => x,
            Err(e) => {
                proof {
                    lemma_clauses_set(t, pos as int, seen_set, seen_remove, seen_add, seen_delete, None, false);
                }
                return Err(e);
            },
        };
        let rr = parse_clauses(toks, k, true, seen_remove, seen_add, seen_delete);
        proof {
            lemma_clauses_set(t, pos as int, seen_set, seen_remove, seen_add, seen_delete, Some(k as int), rr is Ok);
        }
        let rest = rr?;
        assert(rest.sets@ =~= Seq::<(Path, SetValue)>::empty());
        return Ok(UpdateExpr { sets, removes: rest.removes, adds: rest.adds, deletes: rest.deletes });
    }
    if kw_at(toks, pos, "REMOVE") {
        if seen_remove {
            proof {
                lemma_clauses_remove(t, pos as int, seen_set, seen_remove, seen_add, seen_delete, None, false);
            }
            return Err(syntax_error("expression syntax error: duplicate REMOVE clause"));
        }
        let (removes, k) = match parse_path_list(toks, pos + 1) {
            Ok(x) => x,
            Err(e) => {
                proof {
                    lemma_clauses_remove(t, pos as int, seen_set, seen_remove, seen_add, seen_delete, None, false);
                }
                return Err(e);
            },
        };
        let rr = parse_clauses(toks, k, seen_set, true, seen_add, seen_delete);
        proof {
            lemma_clauses_remove(t, pos as int, seen_set, seen_remove, seen_add, seen_delete, Some(k as int), rr is Ok);
        }
        let rest = rr?;
        assert(rest.removes@ =~= Seq::<Path>::empty());
        return Ok(UpdateExpr { sets: rest.sets, removes, adds: rest.adds, deletes: rest.deletes });
    }
    if kw_at(toks, pos, "ADD") {
        if seen_add {
            proof {
                lemma_clauses_add(t, pos as int, seen_set, seen_remove, seen_add, seen_delete, None, false);
            }
            return Err(syntax_error("expression syntax error: duplicate ADD clause"));
        }
        let (adds, k) = match parse_value_actions(toks, pos + 1) {
            Ok(x) => x,
            Err(e) => {
                proof {
                    lemma_clauses_add(t, pos as int, seen_set, seen_remove, seen_add, seen_delete, None, false);
                }
                return Err(e);
            },
        };
        let rr = parse_clauses(toks, k, seen_set, seen_remove, true, seen_delete);
        proof {
            lemma_clauses_add(t, pos as int, seen_set, seen_remove, seen_add, seen_delete, Some(k as int), rr is Ok);
        }
        let rest = rr?;
        assert(rest.adds@ =~= Seq::<(Path, String)>::empty());
        return Ok(UpdateExpr { sets: rest.sets, removes: rest.removes, adds, deletes: rest.deletes });
    }
    if kw_at(toks, pos, "DELETE") {
        if seen_delete {
            proof {
                lemma_clauses_delete(t, pos as int, seen_set, seen_remove, seen_add, seen_delete, None, false);
            }
            return Err(syntax_error("expression syntax error: duplicate DELETE clause"));
        }
        let (deletes, k) = match parse_value_actions(toks, pos + 1) {
            Ok(x) => x,
            Err(e) => {
                proof {
                    lemma_clauses_delete(t, pos as int, seen_set, seen_remove, seen_add, seen_delete, None, false);
                }
                return Err(e);
            },
        };
        let rr = parse_clauses(toks, k, seen_set, seen_remove, seen_add, true);
        proof {
            lemma_clauses_delete(t, pos as int, seen_set, seen_remove, seen_add, seen_delete, Some(k as int), rr is Ok);
        }
        let rest = rr?;
        assert(rest.deletes@ =~= Seq::<(Path, String)>::empty());
        return Ok(UpdateExpr { sets: rest.sets, removes: rest.removes, adds: rest.adds, deletes });
    }
    assert(clauses_complete(t, pos as int, seen_set, seen_remove, seen_add, seen_delete, false)) by {
        reveal(clauses_complete);
    }
    Err(syntax_error("expression syntax error: expected SET, REMOVE, ADD or DELETE"))
}

/// Parses an update expression: `SET ...` / `REMOVE ...` / `ADD ...` /
/// `DELETE ...` clauses in any order, each at most once, actions separated by
/// commas. It fails exactly when the input does not lex, is no update
/// expression, or holds more tokens than half the address space.
pub fn parse_update(input: &str) -> (r: Result<UpdateExpr, DbError>)
    ensures
        match r {
            Ok(u) => lex_spec(utf8(input@)) matches Some(t) && update_ok(t, u) && t.len() < usize::MAX
                / 2,
            Err(e) => e is Validation && match lex_spec(utf8(input@)) {
                Some(t) => t.len() >= usize::MAX / 2 || !update_parses(t),
                None => true,
            },
        },
{
    let toks = lex_bounded(input)?;
    let ghost t = toks_view(toks@);
    if toks.len() == 0 {
        return Err(syntax_error("expression syntax error: empty update expression"));
    }
    let r = parse_clauses(&toks, 0, false, false, false, false);
    proof {
        if r is Err {
            assert forall|u: UpdateExpr| !update_ok(t, u) by {
                reveal(clauses_complete);
                if update_ok(t, u) {
                    assert(clauses_from(t, 0, u.sets@, u.removes@, u.adds@, u.deletes@));
                }
            }
        }
    }
    r
}

/// Parses a projection expression: a non-empty comma-separated list of paths.
/// It fails exactly when the input does not lex, is no projection, or holds
/// more tokens than half the address space.
pub fn parse_projection(input: &str) -> (r: Result<Vec<Path>, DbError>)
    ensures
        match r {
            Ok(ps) => lex_spec(utf8(input@)) matches Some(t) && projection_ok(t, ps@) && t.len()
                < usize::MAX / 2,
            Err(e) => e is Validation && match lex_spec(utf8(input@)) {
                Some(t) => t.len() >= usize::MAX / 2 || !projection_parses(t),
                None => true,
            },
        },
{
    let toks = lex_bounded(input)?;
    let ghost t = toks_view(toks@);
    let (paths, j) = match parse_path_list(&toks, 0) {
        Ok(x) => x,
        Err(e) => {
            proof {
                reveal(paths_complete);
                assert forall|ps: Seq<Path>| !projection_ok(t, ps) by {
                    if projection_ok(t, ps) {
                        lemma_projection_stops(t, ps);
                    }
                }
            }
            return Err(e);
        },
    };
    if j != toks.len() {
        proof {
            reveal(paths_complete);
            assert forall|ps: Seq<Path>| !projection_ok(t, ps) by {
                if projection_ok(t, ps) {
                    lemma_projection_stops(t, ps);
                }
            }
        }
        return Err(syntax_error("expression syntax error: unexpected trailing tokens"));
    }
    Ok(paths)
}

} // verus!
