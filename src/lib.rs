//! Incremental builder for dictionary-encoded byte columns: a dense run of
//! small integer keys plus a deduplicated pool of distinct byte values.

pub mod key;
pub mod model;
pub mod dedup;
pub mod builder;
pub mod laws;
pub mod values;

pub use builder::{DictionaryArray, DictionaryError, GenericByteDictionaryBuilder};
pub use key::{DictionaryKey, KeyType};
pub use values::{get_bytes, ByteValues};
