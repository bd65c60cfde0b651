//! The operations of the store, on top of the domain.
pub mod meta;
pub mod counts;
pub mod effects;
pub mod usecases;
