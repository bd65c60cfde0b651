//! Domain errors.
use vstd::prelude::*;

verus! {

/// The errors of every operation of the store.
#[derive(Debug)]
pub enum DbError {
    /// A condition expression did not hold.
    ConditionalCheckFailed,
    /// The named table does not exist.
    ResourceNotFound(String),
    /// The named table already exists.
    ResourceInUse(String),
    /// The request is malformed (syntax, unknown placeholder, type mismatch ...).
    Validation(String),
    /// A transaction was cancelled; one reason code per operation
    /// ("None" / "ConditionalCheckFailed").
    TransactionCanceled(Vec<String>),
    /// A stored value could not be decoded.
    Serialization(String),
    /// The storage engine failed.
    Storage(String),
}

/// A validation error with the given message.
pub fn validation(msg: &str) -> (e: DbError)
    ensures
        e matches DbError::Validation(s) && s@ == msg@,
{
    DbError::Validation(msg.to_owned())
}

} // verus!
