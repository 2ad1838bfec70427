//! A hash table whose keys and values are byte arrays, laid out in two arrays: one of
//! control bytes and one of entries. Its probing follows that of SwissTable.
//!
//! The constructors ask for entries without padding bytes and without an alignment
//! requirement. Whether the key or the value of an entry comes first in memory is up to
//! the compiler.

pub mod byte_array;
pub mod error;
pub mod hash_fn;
pub mod laws;
pub mod model;
pub mod probing;
pub mod raw_table;
pub mod stored_laws;
pub mod swisstable_group_query;

pub use crate::byte_array::ByteArray;
pub use crate::error::Error;
pub use crate::hash_fn::{FxHashFn, HashFn, HashValue};
pub use crate::raw_table::{h1, h2, Entry, EntryMetadata, PropeSeq, RawIter, RawTable, RawTableMut};
pub use crate::swisstable_group_query::{is_empty_or_deleted, GroupQuery, GROUP_SIZE};
