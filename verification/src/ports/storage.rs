//! The storage port: an ordered, transactional key-value store that an
//! adapter (redb, LMDB, an in-memory fake) implements. `table` names a
//! logical table; where it lives physically is the adapter's concern.
use vstd::prelude::*;
use crate::domain::byte_order::lex_order;
use crate::domain::error::DbError;

verus! {

/// The entries of a range scan: (logical key, value), keys ascending.
pub type KvEntries = Vec<(Vec<u8>, Vec<u8>)>;

/// What a transaction sees of the store: the value under each (logical
/// table, key).
pub type Contents = Map<(Seq<char>, Seq<u8>), Seq<u8>>;

/// The value under (table, key), if any.
pub open spec fn lookup(c: Contents, table: Seq<char>, key: Seq<u8>) -> Option<Seq<u8>> {
    if c.dom().contains((table, key)) {
        Some(c[(table, key)])
    } else {
        None
    }
}

/// What a removal leaves under each (table, key).
pub proof fn lemma_lookup_remove(c: Contents, t: Seq<char>, k: Seq<u8>, t2: Seq<char>, k2: Seq<u8>)
    ensures
        lookup(c.remove((t, k)), t2, k2) == if t2 == t && k2 == k {
            None
        } else {
            lookup(c, t2, k2)
        },
{
}

/// What an insertion leaves under each (table, key).
pub proof fn lemma_lookup_insert(
    c: Contents,
    t: Seq<char>,
    k: Seq<u8>,
    v: Seq<u8>,
    t2: Seq<char>,
    k2: Seq<u8>,
)
    ensures
        lookup(c.insert((t, k), v), t2, k2) == if t2 == t && k2 == k {
            Some(v)
        } else {
            lookup(c, t2, k2)
        },
{
}

/// The bytes of an optional stored value.
pub open spec fn value_view(v: Option<Vec<u8>>) -> Option<Seq<u8>> {
    match v {
        Some(b) => Some(b@),
        None => None,
    }
}

/// The (key, value) bytes of scanned entries.
pub open spec fn entries_view(es: Seq<(Vec<u8>, Vec<u8>)>) -> Seq<(Seq<u8>, Seq<u8>)> {
    Seq::new(es.len(), |i: int| (es[i].0@, es[i].1@))
}

/// `es` is the scan of `table` for keys starting with `prefix`: every such
/// entry once, with its value, keys ascending.
pub open spec fn scan_of(c: Contents, table: Seq<char>, prefix: Seq<u8>, es: Seq<(Seq<u8>, Seq<u8>)>) -> bool {
    &&& forall|i: int, j: int| #![trigger es[i], es[j]] 0 <= i < j < es.len() ==> lex_order(es[i].0, es[j].0) < 0
    &&& forall|i: int|
        0 <= i < es.len() ==> prefix.is_prefix_of((#[trigger] es[i]).0) && lookup(c, table, es[i].0)
            == Some(es[i].1)
    &&& forall|k: Seq<u8>|
        #![trigger lookup(c, table, k)]
        prefix.is_prefix_of(k) && lookup(c, table, k) is Some ==> exists|i: int|
            0 <= i < es.len() && (#[trigger] es[i]).0 == k
}

/// A write transaction. Dropping it without `commit` rolls it back. An
/// adapter reports its own failures as `Storage` errors.
pub trait WriteTxn {
    /// The store as this transaction sees it, its own writes included. An
    /// adapter verified against this port defines it; for one that is not,
    /// it stays an unknown map that the methods' contracts speak of.
    closed spec fn contents(&self) -> Contents {
        vstd::pervasive::arbitrary()
    }

    fn get(&self, table: &str, key: &[u8]) -> (r: Result<Option<Vec<u8>>, DbError>)
        ensures
            r matches Ok(v) ==> value_view(v) == lookup(self.contents(), table@, key@),
            r matches Err(e) ==> e is Storage,
    ;

    fn put(&mut self, table: &str, key: &[u8], value: &[u8]) -> (r: Result<(), DbError>)
        ensures
            r is Ok ==> final(self).contents() == old(self).contents().insert((table@, key@), value@),
            r matches Err(e) ==> e is Storage,
    ;

    fn delete(&mut self, table: &str, key: &[u8]) -> (r: Result<(), DbError>)
        ensures
            r is Ok ==> final(self).contents() == old(self).contents().remove((table@, key@)),
            r matches Err(e) ==> e is Storage,
    ;

    /// The entries whose key starts with `prefix`, this transaction's own
    /// uncommitted writes included, keys ascending.
    fn scan_prefix(&self, table: &str, prefix: &[u8]) -> (r: Result<KvEntries, DbError>)
        ensures
            r matches Ok(es) ==> scan_of(self.contents(), table@, prefix@, entries_view(es@)),
            r matches Err(e) ==> e is Storage,
    ;

    /// Makes the transaction's contents the store's.
    fn commit(self) -> (r: Result<(), DbError>)
        ensures
            r matches Err(e) ==> e is Storage,
    ;
}

/// A read transaction: a consistent snapshot. An adapter reports its own
/// failures as `Storage` errors.
pub trait ReadTxn {
    /// The snapshot. An adapter verified against this port defines it; for
    /// one that is not, it stays an unknown map that the methods' contracts
    /// speak of.
    closed spec fn contents(&self) -> Contents {
        vstd::pervasive::arbitrary()
    }

    fn get(&self, table: &str, key: &[u8]) -> (r: Result<Option<Vec<u8>>, DbError>)
        ensures
            r matches Ok(v) ==> value_view(v) == lookup(self.contents(), table@, key@),
            r matches Err(e) ==> e is Storage,
    ;

    /// The entries whose key starts with `prefix`, keys ascending.
    fn scan_prefix(&self, table: &str, prefix: &[u8]) -> (r: Result<KvEntries, DbError>)
        ensures
            r matches Ok(es) ==> scan_of(self.contents(), table@, prefix@, entries_view(es@)),
            r matches Err(e) ==> e is Storage,
    ;
}

/// A source of the current time (epoch seconds), replaceable in tests.
pub trait Clock {
    fn now_epoch(&self) -> i64;
}

/// An ordered ACID key-value store.
pub trait StorageEngine {
    type Write<'a>: WriteTxn where Self: 'a;

    type Read<'a>: ReadTxn where Self: 'a;

    type Time: Clock;

    fn begin_write(&self) -> (r: Result<Self::Write<'_>, DbError>)
        ensures
            r matches Err(e) ==> e is Storage,
    ;

    fn begin_read(&self) -> (r: Result<Self::Read<'_>, DbError>)
        ensures
            r matches Err(e) ==> e is Storage,
    ;

    /// The clock that expiry is judged by.
    fn clock(&self) -> &Self::Time;

    /// Reclaims free space; `true` when it did. An engine that cannot keeps
    /// the default, which does nothing.
    fn compact(&mut self) -> (r: Result<bool, DbError>)
        default_ensures
            r matches Ok(false),
    {
        Ok(false)
    }

    /// The physical size of the store in bytes.
    fn storage_bytes(&self) -> (r: Result<u64, DbError>)
        ensures
            r matches Err(e) ==> e is Storage,
    ;
}

/// The wall clock.
pub struct SystemClock;

/// Reads the system time (`std::time::SystemTime::now`) as whole seconds
/// since the Unix epoch (`duration_since(UNIX_EPOCH)`, `as_secs`); `None`
/// for a time before the epoch. Nothing is stated of the result: it is the
/// time.
#[verifier::external_body]
fn system_epoch_seconds() -> Option<u64> {
    std::time::SystemTime::now().duration_since(std::time::UNIX_EPOCH).ok().map(|d| d.as_secs())
}

impl Clock for SystemClock {
    /// Epoch seconds; 0 for a time before the epoch, `i64::MAX` past it.
    fn now_epoch(&self) -> (r: i64)
        ensures
            r >= 0,
    {
        match system_epoch_seconds() {
            Some(secs) => {
                if secs > i64::MAX as u64 {
                    i64::MAX
                } else {
                    secs as i64
                }
            },
            None => 0,
        }
    }
}

} // verus!
