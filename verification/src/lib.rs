//! An embedded, file-backed JSON document store with a deferred, chainable
//! query builder.
//!
//! A database handle holds a set of named tables, each a deduplicated
//! collection of JSON-like documents.  Builder calls (select a table, filter
//! by a dotted field path and a comparator, pick a create/read/update/delete
//! action) are buffered in an operation queue and executed in one pass by
//! `run`.  The persistence format is plain JSON text, produced and parsed by
//! the verified codec in this crate; reading and writing the file itself is
//! left to the caller.

pub mod codec;
pub mod compare;
pub mod errors;
pub mod laws;
pub mod path;
pub mod query;
pub mod store;
pub mod value;

pub use compare::{CmpSpec, Comparator};
pub use errors::DbError;
pub use path::{get_field_by_name, get_key_chain_value, get_nested_chars, get_nested_value};
pub use query::{tables_from_json, JsonDB, MethodName, MethodSpec, Runner, RunnerSpec};
pub use store::Store;
pub use value::{chars_eq, copy_chars, str_to_chars};
pub use value::JsonValue;
pub use value::Jv;
