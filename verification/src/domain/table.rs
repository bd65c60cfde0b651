//! Table definitions and the rule on table names.
use vstd::prelude::*;
use crate::domain::error::{DbError, validation};
use crate::domain::key::KeySchema;
use crate::domain::text::utf8;

verus! {

/// The bytes a table name may hold: `[a-zA-Z0-9_.-]`.
pub open spec fn name_byte_ok(b: u8) -> bool {
    (48 <= b <= 57) || (65 <= b <= 90) || (97 <= b <= 122) || b == 95 || b == 46 || b == 45
}

/// A table name has 3 to 255 bytes, each of `[a-zA-Z0-9_.-]` (so it never
/// holds the `:` of the store's reserved names).
pub open spec fn table_name_ok(name: Seq<char>) -> bool {
    let b = utf8(name);
    &&& 3 <= b.len() <= 255
    &&& forall|i: int| 0 <= i < b.len() ==> name_byte_ok(#[trigger] b[i])
}

/// Checks a table name.
pub fn validate_table_name(name: &str) -> (r: Result<(), DbError>)
    ensures
        r is Ok <==> table_name_ok(name@),
        r matches Err(e) ==> e is Validation,
{
    let b = name.as_bytes();
    let ok_len = 3 <= b.len() && b.len() <= 255;
    let mut i: usize = 0;
    while i < b.len()
        invariant
            b@ == utf8(name@),
            i <= b@.len(),
            forall|k: int| 0 <= k < i ==> name_byte_ok(#[trigger] b@[k]),
        decreases b@.len() - i,
    {
        let c = b[i];
        let ok = (48 <= c && c <= 57) || (65 <= c && c <= 90) || (97 <= c && c <= 122) || c == 95
            || c == 46 || c == 45;
        if !ok {
            assert(!name_byte_ok(b@[i as int]));
            return Err(validation("invalid table name (3-255 chars of [a-zA-Z0-9_.-])"));
        }
        i = i + 1;
    }
    if !ok_len {
        return Err(validation("invalid table name (3-255 chars of [a-zA-Z0-9_.-])"));
    }
    Ok(())
}

/// What a secondary index stores besides the keys.
#[derive(Debug, Clone, PartialEq, Eq)]
pub enum Projection {
    KeysOnly,
    Include(Vec<String>),
    All,
}

/// A secondary index definition.
#[derive(Debug, Clone, PartialEq, Eq)]
pub struct IndexDef {
    pub name: String,
    pub key: KeySchema,
    pub projection: Projection,
}

/// A table definition.
#[derive(Debug, Clone, PartialEq, Eq)]
pub struct TableDef {
    pub name: String,
    pub key: KeySchema,
    pub indexes: Vec<IndexDef>,
    pub ttl_attr: Option<String>,
}

} // verus!
