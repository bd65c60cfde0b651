//! The version of the on-disk format: recorded on first open, checked on
//! every later one. A file of an unknown (newer) version is refused rather
//! than silently damaged.
use vstd::prelude::*;
use vstd::string::StringExecFns;
use crate::application::counts::{be_value, count_bytes, decode_count};
use crate::application::meta::META_TABLE;
use crate::domain::error::DbError;
use crate::domain::text::{nat_chars, u64_text};
use crate::ports::storage::{StorageEngine, WriteTxn};

verus! {

/// The on-disk format this build writes and reads.
pub const FORMAT_VERSION: u64 = 1;

/// The key of the recorded format version in the meta table.
pub const FORMAT_KEY: &'static str = "format_version";

/// What the recorded version says: `Ok(None)` when none is recorded (the
/// current one is to be written), `Ok(Some(v))` when the recorded one is
/// this build's, a `Serialization` error for bytes that are not 8, and a
/// `Validation` error for another version.
pub fn format_decision(stored: Option<Vec<u8>>) -> (r: Result<Option<u64>, DbError>)
    ensures
        match stored {
            None => r == Ok::<Option<u64>, DbError>(None),
            Some(b) => if b@.len() != 8 {
                r matches Err(e) && e is Serialization
            } else if be_value(b@) != FORMAT_VERSION {
                r matches Err(e) && e is Validation
            } else {
                r == Ok::<Option<u64>, DbError>(Some(FORMAT_VERSION))
            },
        },
{
    match stored {
        None => Ok(None),
        Some(b) => {
            let ghost bytes = b@;
            let version = match decode_count(Some(b)) {
                Ok(v) => v,
                Err(_) => {
                    return Err(DbError::Serialization("corrupt format_version in meta".to_owned()));
                },
            };
            if version != FORMAT_VERSION {
                let mut msg = "unsupported on-disk format version ".to_owned();
                msg.append(u64_text(version).as_str());
                msg.append(" (this build supports ");
                msg.append(u64_text(FORMAT_VERSION).as_str());
                msg.append(")");
                return Err(DbError::Validation(msg));
            }
            Ok(Some(version))
        },
    }
}

/// Checks the recorded format version, recording the current one when none
/// is, and returns it. Called right after the store is opened.
pub fn ensure_format<E: StorageEngine>(engine: &E) -> (r: Result<u64, DbError>)
    ensures
        r matches Ok(v) ==> v == FORMAT_VERSION,
{
    let mut txn = engine.begin_write()?;
    let key = FORMAT_KEY.as_bytes();
    let stored = txn.get(META_TABLE, key)?;
    match format_decision(stored)? {
        Some(v) => Ok(v),
        None => {
            txn.put(META_TABLE, key, &count_bytes(FORMAT_VERSION))?;
            txn.commit()?;
            Ok(FORMAT_VERSION)
        },
    }
}

} // verus!
