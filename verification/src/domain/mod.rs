//! The domain: data model, key encoding, numbers, expressions.
pub mod byte_order;
pub mod text;
pub mod error;
pub mod attribute;
pub mod number;
pub mod sets;
pub mod arith;
pub mod key_codec;
pub mod key;
pub mod table;
pub mod ttl;
pub mod index;
pub mod expr;

pub use attribute::{AttrMap, AttributeValue, Item, Number};
pub use error::DbError;
pub use key::{Key, KeySchema};
pub use table::{IndexDef, Projection, TableDef};
