//! Key conditions against stored keys: resolving the key attribute names and
//! matching a sort key value against its condition.
use vstd::prelude::*;
use crate::domain::attribute::{AttrMap, AttributeValue, Model};
use crate::domain::error::{DbError, validation};
use crate::domain::expr::ast::{CmpOp, PathSeg, SkCond};
use crate::domain::expr::eval::{
    ExprContext, begins_spec, compare_spec, lookup_value, order_spec, seg_key, seg_name, try_order,
    value_of, values_equal,
};
use crate::domain::byte_order::starts_with_bytes;

verus! {

/// Whether a sort key value meets its condition: no sort key never matches;
/// `<>` and `begins_with` on other than two S or two B are errors, an
/// unknown placeholder is an error.
pub open spec fn sk_spec(c: SkCond, sk: Option<Model>, values: AttrMap<AttributeValue>) -> Result<
    bool,
    (),
> {
    match sk {
        None => Ok(false),
        Some(sk) => match c {
            SkCond::Cmp(op, ph) => match value_of(values, ph@) {
                None => Err(()),
                Some(v) => if op == CmpOp::Ne {
                    Err(())
                } else {
                    compare_spec(op, sk, v)
                },
            },
            SkCond::Between(a, b) => match (value_of(values, a@), value_of(values, b@)) {
                (Some(lo), Some(hi)) => match order_spec(lo, sk) {
                    Err(()) => Err(()),
                    Ok(x) => match order_spec(sk, hi) {
                        Err(()) => Err(()),
                        Ok(y) => Ok(
                            match (x, y) {
                                (Some(x), Some(y)) => x <= 0 && y <= 0,
                                _ => false,
                            },
                        ),
                    },
                },
                _ => Err(()),
            },
            SkCond::BeginsWith(ph) => match value_of(values, ph@) {
                None => Err(()),
                Some(p) => match (sk, p) {
                    (Model::S(_), Model::S(_)) => Ok(begins_spec(sk, p)),
                    (Model::B(_), Model::B(_)) => Ok(begins_spec(sk, p)),
                    _ => Err(()),
                },
            },
        },
    }
}

/// The attribute name a key condition's name segment stands for.
pub fn attr_name(seg: &PathSeg, ctx: &ExprContext) -> (r: Result<String, DbError>)
    ensures
        match r {
            Ok(n) => seg_key(*ctx.names, *seg) == Ok::<Seq<char>, ()>(n@),
            Err(e) => seg_key(*ctx.names, *seg) is Err && e is Validation,
        },
{
    seg_name(seg, ctx)
}

/// Matches a sort key value against its condition, as `sk_spec` says.
pub fn sk_matches(cond: &SkCond, sk: Option<&AttributeValue>, ctx: &ExprContext) -> (r: Result<
    bool,
    DbError,
>)
    ensures
        match r {
            Ok(b) => sk_spec(
                *cond,
                match sk {
                    Some(v) => Some(v@),
                    None => None,
                },
                *ctx.values,
            ) == Ok::<bool, ()>(b),
            Err(e) => sk_spec(
                *cond,
                match sk {
                    Some(v) => Some(v@),
                    None => None,
                },
                *ctx.values,
            ) is Err && e is Validation,
        },
{
    let sk = match sk {
        Some(v) => v,
        None => {
            return Ok(false);
        },
    };
    match cond {
        SkCond::Cmp(op, ph) => {
            let v = lookup_value(ph.as_str(), ctx)?;
            match op {
                CmpOp::Eq => values_equal(sk, v),
                CmpOp::Ne => Err(validation("sort key condition does not support '<>'")),
                _ => match try_order(sk, v)? {
                    None => Ok(false),
                    Some(c) => Ok(
                        match op {
                            CmpOp::Lt => c < 0,
                            CmpOp::Le => c <= 0,
                            CmpOp::Gt => c > 0,
                            _ => c >= 0,
                        },
                    ),
                },
            }
        },
        SkCond::Between(a, b) => {
            let lo = lookup_value(a.as_str(), ctx)?;
            let hi = lookup_value(b.as_str(), ctx)?;
            let x = try_order(lo, sk)?;
            let y = try_order(sk, hi)?;
            match (x, y) {
                (Some(x), Some(y)) => Ok(x <= 0 && y <= 0),
                _ => Ok(false),
            }
        },
        SkCond::BeginsWith(ph) => {
            let prefix = lookup_value(ph.as_str(), ctx)?;
            match (sk, prefix) {
                (AttributeValue::S(t), AttributeValue::S(p)) => Ok(
                    starts_with_bytes(t.as_str().as_bytes(), p.as_str().as_bytes()),
                ),
                (AttributeValue::B(t), AttributeValue::B(p)) => Ok(
                    starts_with_bytes(t.as_slice(), p.as_slice()),
                ),
                _ => Err(validation("begins_with on a sort key requires S or B")),
            }
        },
    }
}

} // verus!
