//! Key schemas and key values.
use vstd::prelude::*;
use crate::domain::attribute::AttributeValue;

verus! {

/// Which attributes form a table's (or an index's) key.
#[derive(Debug, Clone, PartialEq, Eq)]
pub struct KeySchema {
    pub pk: String,
    pub sk: Option<String>,
}

/// A key value taken from an item.
#[derive(Debug, PartialEq, Eq)]
pub struct Key {
    pub pk: AttributeValue,
    pub sk: Option<AttributeValue>,
}

} // verus!
