//! An embedded, content-addressed, reference-counted store for immutable byte
//! blobs keyed by a caller-supplied hash.
//!
//! The engine keeps its persistent state as in-memory images of the files of a
//! database directory; an embedding program loads those images from disk when
//! it opens a database and writes them back when the database commits.

pub mod bytes;
pub mod content;
pub mod content_address;
pub mod database;
pub mod datum_size;
pub mod error;
pub mod freemap;
pub mod hashing;
pub mod index;
pub mod index_item;
pub mod metadata;
pub mod table;
pub mod types;

pub use content_address::{CompactContentAddress, ContentAddress};
pub use database::{Database, FileSet, Options};
pub use datum_size::DatumSize;
pub use error::Error;
pub use freemap::FreeMap;
pub use metadata::MetadataV1;
