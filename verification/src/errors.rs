//! The error taxonomy: one enum per operation, with domain-specific variants.
//!
//! Archive storage in this crate is an in-memory buffer, so operations have no
//! underlying I/O failure. The one storage-level failure mode is the format's
//! hard 4 GiB ceiling (all region offsets are 32-bit on disk): operations that
//! would grow the archive past it report `ArchiveFull`.

use vstd::prelude::*;

verus! {

/// An error triggered while parsing an existing archive.
#[derive(Debug)]
pub enum ParseError {
    /// The input did not start with the magic bytes `PKG\n`.
    MismatchedMagic,
    /// The input declared an unsupported header size.
    MismatchedHeaderSize {
        /// The header size the input declared.
        size: u16,
    },
    /// The input declared an unsupported entry size.
    MismatchedEntrySize {
        /// The entry size the input declared.
        size: u16,
    },
    /// The entry table, or an entry's data range, extends beyond the end of
    /// the stream.
    EntryOverflow,
    /// The path region extends beyond the end of the stream, or an entry's
    /// path offset lies outside it.
    PathOverflow,
    /// An entry record carried flag bits this crate does not recognise.
    UnrecognisedEntryFlags(u32),
    /// An entry path contained a byte outside the ASCII range.
    NonAsciiPath,
    /// Two occupied entries share one path.
    SamePath(Vec<u8>),
}

/// An error triggered while creating a new archive.
#[derive(Debug)]
pub enum CreateError {
    /// The supplied storage already holds more than the format's 4 GiB limit.
    ArchiveFull,
}

/// An error triggered while removing an entry.
#[derive(Debug)]
pub enum RemoveError {
    /// The target entry was not found.
    NotFound,
}

/// An error triggered while renaming an entry.
#[derive(Debug)]
pub enum RenameError {
    /// The source entry was not found.
    NotFound,
    /// An entry with the destination path already exists.
    AlreadyExists,
    /// The rename would grow the archive past the format's 4 GiB limit.
    ArchiveFull,
}

/// An error triggered while replacing one entry with another.
#[derive(Debug)]
pub enum ReplaceError {
    /// The source entry was not found.
    NotFound,
    /// The replace would grow the archive past the format's 4 GiB limit.
    ArchiveFull,
}

/// An error triggered while inserting a new entry into an archive.
#[derive(Debug)]
pub enum InsertError {
    /// An entry with the same path already exists.
    AlreadyExists,
    /// The insert would grow the archive past the format's 4 GiB limit.
    ArchiveFull,
}

/// An error triggered while opening an entry for reading.
#[derive(Debug)]
pub enum OpenError {
    /// An entry with that name was not found.
    NotFound,
}

/// An error triggered when reading from an entry handle.
#[derive(Debug)]
pub enum ReadError {
    /// A read was attempted on a handle that does not support reads; this
    /// occurs on deflate-compressed entry writers.
    NotReadable,
}

/// An error triggered when seeking in an entry handle.
#[derive(Debug)]
pub enum SeekError {
    /// The seek target lies before the start of the entry.
    SeekOutOfBounds,
    /// The handle does not support seeking; this occurs on deflate-compressed
    /// entries.
    NotSeekable,
}

/// An error triggered while repacking.
#[derive(Debug)]
pub enum RepackError {
    /// Two occupied entries' data ranges overlap. This cannot arise from
    /// operations of this crate; only a foreign archive can contain it.
    OverlappingEntries,
}

} // verus!
