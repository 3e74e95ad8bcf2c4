//! A store of short text records ("quotes") with free-form labels ("tags"),
//! answering lookups by identifier, by uniform random choice, and by random
//! choice among the quotes that share a label with a caller's label set.

pub mod error;
pub mod quote;
pub mod store;
pub mod text;
pub mod page;
pub mod state;
