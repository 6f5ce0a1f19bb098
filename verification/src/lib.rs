//! An embedded, persistent, crash-safe key/value store built around a
//! log-structured merge tree.
//!
//! Clients insert, look up and delete opaque byte-string keys and values.
//! Durability comes from a segmented write-ahead log; reads are served from
//! an ordered in-memory memtable, then from immutable sorted tables flushed
//! out of it, newest first, with an approximate membership filter to
//! short-circuit misses; space is reclaimed by compacting the flushed
//! tables into level-two files.
//!
//! Every file the engine owns — WAL segments, flushed tables, compacted
//! files — is modelled as the bytes it holds, so the whole engine is
//! verified down to the byte layout on disk.  The embedding program owns
//! the actual file handles and sockets: it mirrors the modelled files to
//! the real directory and hands their contents back on restart.

use vstd::prelude::*;

pub mod bloom;
pub mod chipmunk;
pub mod codec;
pub mod config;
pub mod facade;
pub mod keys;
pub mod lsm;
pub mod memtable;
pub mod names;
pub mod store;
pub mod wal;
pub mod tree;

verus! {

/// The failure kinds of the storage engine.
///
/// Every kind names an operation on the backing files that can go wrong.
/// The engine itself never fabricates one of these out of thin air: each
/// public contract says exactly on which inputs a kind is returned.
#[derive(Clone, Copy, Debug, PartialEq, Eq, Structural)]
pub enum ChipmunkError {
    /// A WAL segment file could not be created or opened, in particular
    /// because a file with the same id already exists.
    SegmentOpen,
    /// A WAL segment could not be synced to durable storage.
    SegmentFsync,
    /// A closed WAL segment file could not be removed.
    SegmentDelete,
    /// Appending to the active WAL segment failed.
    WalAppend,
    /// The WAL log directory could not be enumerated.
    WalDirectoryOpen,
    /// The working directory could not be enumerated at restore time.
    WalRestoreDirectory,
}

impl ChipmunkError {
    /// A short human-readable description of the failure kind.
    pub fn message(&self) -> (r: &'static str) {
        match self {
            ChipmunkError::SegmentOpen => "unable to open wal segment file",
            ChipmunkError::SegmentFsync => "unable to fsync the current wal segment",
            ChipmunkError::SegmentDelete => "unable to delete closed segment",
            ChipmunkError::WalAppend => "could not append to the WAL segment",
            ChipmunkError::WalDirectoryOpen => "unable to open WAL directory",
            ChipmunkError::WalRestoreDirectory => "unable to open directory to restore",
        }
    }
}

} // verus!
