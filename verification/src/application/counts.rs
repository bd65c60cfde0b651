//! The stored form of a table's item count: a big-endian `u64` of 8 bytes.
use vstd::prelude::*;
use crate::domain::error::DbError;

verus! {

/// The number that big-endian bytes stand for.
pub open spec fn be_value(b: Seq<u8>) -> nat
    decreases b.len(),
{
    if b.len() == 0 {
        0
    } else {
        be_value(b.drop_last()) * 256 + b.last() as nat
    }
}

/// `n` written as `len` big-endian bytes (the low `len` bytes of `n`).
pub open spec fn be_bytes(n: nat, len: nat) -> Seq<u8>
    decreases len,
{
    if len == 0 {
        Seq::empty()
    } else {
        be_bytes(n / 256, (len - 1) as nat).push((n % 256) as u8)
    }
}

/// 256 to the power `k`.
pub open spec fn pow256(k: nat) -> nat
    decreases k,
{
    if k == 0 {
        1
    } else {
        256 * pow256((k - 1) as nat)
    }
}

/// The bytes of a stored value, if there is one.
pub open spec fn stored_view(v: Option<Vec<u8>>) -> Option<Seq<u8>> {
    match v {
        None => None,
        Some(b) => Some(b@),
    }
}

/// What a stored count stands for: nothing stored is 0, 8 bytes are their
/// big-endian value, anything else is corrupt (`None`).
pub open spec fn count_of(stored: Option<Seq<u8>>) -> Option<nat> {
    match stored {
        None => Some(0),
        Some(b) => if b.len() == 8 {
            Some(be_value(b))
        } else {
            None
        },
    }
}

/// A count moved by `delta`, held within `0..=u64::MAX`.
pub open spec fn moved_count(current: nat, delta: int) -> nat {
    if current + delta < 0 {
        0
    } else if current + delta > u64::MAX {
        u64::MAX as nat
    } else {
        (current + delta) as nat
    }
}

proof fn lemma_be_value_bound(b: Seq<u8>)
    ensures
        be_value(b) < pow256(b.len()),
    decreases b.len(),
{
    if b.len() > 0 {
        lemma_be_value_bound(b.drop_last());
        let v = be_value(b.drop_last());
        let p = pow256((b.len() - 1) as nat);
        assert(v * 256 + b.last() < p * 256) by (nonlinear_arith)
            requires
                v < p,
                b.last() < 256,
        ;
    }
}

proof fn lemma_be_round_trip(n: nat, len: nat)
    ensures
        be_bytes(n, len).len() == len,
        be_value(be_bytes(n, len)) == n % pow256(len),
    decreases len,
{
    if len > 0 {
        lemma_be_round_trip(n / 256, (len - 1) as nat);
        let s = be_bytes(n, len);
        assert(s.drop_last() =~= be_bytes(n / 256, (len - 1) as nat));
        let p = pow256((len - 1) as nat);
        assert(p > 0) by {
            lemma_pow256_positive((len - 1) as nat);
        }
        assert(((n / 256) % p) * 256 + n % 256 == n % (256 * p)) by (nonlinear_arith)
            requires
                p > 0,
        {
            vstd::arithmetic::div_mod::lemma_breakdown(n as int, 256, p as int);
        }
    }
}

proof fn lemma_pow256_positive(k: nat)
    ensures
        pow256(k) > 0,
    decreases k,
{
    if k > 0 {
        lemma_pow256_positive((k - 1) as nat);
    }
}

/// Counts survive their stored form: the 8 bytes written for a count decode
/// to that count.
pub proof fn lemma_count_round_trip(n: u64)
    ensures
        count_of(Some(be_bytes(n as nat, 8))) == Some(n as nat),
{
    lemma_be_round_trip(n as nat, 8);
    lemma_pow256_eight();
}

/// Decodes a stored item count, as `count_of` says.
pub fn decode_count(bytes: Option<Vec<u8>>) -> (r: Result<u64, DbError>)
    ensures
        match r {
            Ok(n) => count_of(stored_view(bytes)) == Some(n as nat),
            Err(e) => count_of(stored_view(bytes)) is None && e is Serialization,
        },
{
    match bytes {
        None => Ok(0),
        Some(b) => {
            if b.len() != 8 {
                return Err(DbError::Serialization("corrupt item_count in meta".to_owned()));
            }
            let mut v: u64 = 0;
            let mut i: usize = 0;
            while i < 8
                invariant
                    b@.len() == 8,
                    i <= 8,
                    v as nat == be_value(b@.take(i as int)),
                    v < pow256(i as nat),
                decreases 8 - i,
            {
                proof {
                    assert(b@.take(i as int + 1).drop_last() =~= b@.take(i as int));
                    lemma_pow256_eight();
                    lemma_pow_mono(i as nat + 1, 8);
                    let p = pow256(i as nat);
                    assert(v * 256 + b@[i as int] < p * 256) by (nonlinear_arith)
                        requires
                            v < p,
                            b@[i as int] < 256,
                    ;
                }
                v = v * 256 + b[i] as u64;
                i = i + 1;
            }
            assert(b@.take(8) =~= b@);
            Ok(v)
        },
    }
}

proof fn lemma_pow256_eight()
    ensures
        pow256(8) == 0x1_0000_0000_0000_0000,
{
    reveal_with_fuel(pow256, 9);
}

proof fn lemma_pow_mono(a: nat, b: nat)
    requires
        a <= b,
    ensures
        pow256(a) <= pow256(b),
    decreases b,
{
    if a < b {
        lemma_pow_mono(a, (b - 1) as nat);
        lemma_pow256_positive((b - 1) as nat);
    }
}

/// The 8 big-endian bytes of a count.
pub fn count_bytes(n: u64) -> (r: Vec<u8>)
    ensures
        r@ == be_bytes(n as nat, 8),
{
    let mut out: Vec<u8> = Vec::new();
    let mut rest: u64 = n;
    let mut k: usize = 0;
    let ghost mut tail: Seq<u8> = Seq::empty();
    while k < 8
        invariant
            k <= 8,
            tail.len() == k,
            be_bytes(n as nat, 8) == be_bytes(rest as nat, (8 - k) as nat) + tail,
            out@ == tail.reverse(),
        decreases 8 - k,
    {
        proof {
            let m = (8 - k) as nat;
            assert(be_bytes(rest as nat, m) == be_bytes(rest as nat / 256, (m - 1) as nat).push(
                (rest as nat % 256) as u8,
            ));
            let nt = seq![(rest % 256) as u8] + tail;
            assert(be_bytes(rest as nat / 256, (m - 1) as nat).push((rest as nat % 256) as u8)
                + tail =~= be_bytes(rest as nat / 256, (m - 1) as nat) + nt);
            assert(nt.reverse() =~= tail.reverse().push((rest % 256) as u8));
            tail = nt;
        }
        out.push((rest % 256) as u8);
        rest = rest / 256;
        k = k + 1;
    }
    proof {
        assert(be_bytes(n as nat, 8) =~= tail);
    }
    let mut r: Vec<u8> = Vec::new();
    let mut j: usize = 8;
    while j > 0
        invariant
            j <= 8,
            out@.len() == 8,
            r@ == out@.reverse().take((8 - j) as int),
        decreases j,
    {
        j = j - 1;
        r.push(out[j]);
        assert(r@ =~= out@.reverse().take((8 - j) as int));
    }
    assert(out@.reverse().take(8) =~= out@.reverse());
    assert(tail.reverse().reverse() =~= tail);
    r
}

/// A count moved by `delta`, saturating at both ends.
pub fn next_count(current: u64, delta: i64) -> (r: u64)
    ensures
        r as nat == moved_count(current as nat, delta as int),
{
    if delta >= 0 {
        let d = delta as u64;
        if current > u64::MAX - d {
            u64::MAX
        } else {
            current + d
        }
    } else {
        let d: u64 = if delta == i64::MIN {
            0x8000_0000_0000_0000
        } else {
            (-delta) as u64
        };
        if current < d {
            0
        } else {
            current - d
        }
    }
}

} // verus!
