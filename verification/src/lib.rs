//! LoomDB core: a local, DynamoDB-compatible document store's domain logic —
//! values, order-preserving key encoding, the expression language and the
//! operations built on them.
use vstd::prelude::*;

pub mod domain;
pub mod application;
pub mod bridge;
pub mod ports;

verus! {
} // verus!
