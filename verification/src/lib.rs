//! Runtime value layer of a filter-expression engine.
//!
//! The crate defines the closed set of value kinds a filter can operate on,
//! enforces that every value read or written during filter evaluation matches
//! the type declared for its field, and provides the per-evaluation store that
//! binds field identities to runtime values.

pub mod addr;
pub mod context;
pub mod json;
pub mod lex;
pub mod literal;
pub mod scheme;
pub mod types;
pub mod value;
