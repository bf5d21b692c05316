//! A small persistent document store: a mapping from text identifiers to text
//! payloads, the byte layout of its snapshot file, and the rules by which a
//! snapshot is read back.
//!
//! The store reads and writes no file itself. `DocumentDB::save` gives the
//! bytes of a snapshot and `DocumentDB::load` takes what was read of one; the
//! caller moves them to and from the file at `DocumentDB::file_path`.

pub mod codec;
pub mod laws;
pub mod model;
pub mod snapshot;
pub mod store;
pub mod text;

pub use crate::codec::{decode_record, encode_record, Decoded, LoadError};
pub use crate::snapshot::FileRead;
pub use crate::store::DocumentDB;
