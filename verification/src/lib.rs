//! A library for reading, mutating, and rewriting PKG archives: flat binary
//! containers that store a set of named byte blobs, each optionally
//! compressed with raw DEFLATE.
//!
//! The archive lives in a single random-access storage buffer
//! ([`storage::MemStorage`]) and supports in-place insertion, removal,
//! renaming, replacement and compaction ("repack") of entries while staying
//! parseable after every successful operation. The handle type is
//! [`sync::Pkg`]; every operation's effect is stated against the archive's
//! logical content, a map from entry paths to stored bytes.

pub mod codec;
pub mod errors;
pub mod flate;
pub mod hash;
pub mod laws;
pub mod layout;
pub mod parse;
pub mod progress;
pub mod read;
pub mod repack;
pub mod spinner;
pub mod state;
pub mod storage;
pub mod sync;
pub mod write;

pub use hash::pkg_path_hash;
pub use storage::{SeekFrom, Truncate};
pub use sync::{Compression, EntryCompression, EntryReader, EntryWriter, Flags, Pkg};
