//! An in-memory harness for indexing mapping handlers: an entity store that
//! enforces schema nullability and keeps `@derivedFrom` back-references in
//! step, a registry of mocked contract calls, and the query surface that tests
//! read the store through.

pub mod value;
pub mod schema;
pub mod record;
pub mod store;
pub mod calls;
pub mod context;
