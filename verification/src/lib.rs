//! Finds and resolves duplicate files across one or more filesystem roots.
//!
//! A tiered catalog partitions files into equivalence classes, first by
//! length, then by their leading bytes, then by a full-content digest,
//! while treating several hardlinked names for one inode as one file.
//! Duplicate groups can then be reduced by deleting or hardlinking every
//! copy but a keeper chosen by a selection policy.

use vstd::prelude::*;

pub mod paths;
pub mod seqs;
pub mod hashing;
pub mod vfs;
pub mod catalog;
pub mod selector;
pub mod actor;
pub mod walker;

verus! {

/// Identity of a filesystem object. Two paths with the same `ID` refer to
/// the same underlying inode (hardlinks, or one file under one name).
#[derive(Clone, Copy, Debug, PartialEq, Eq, Structural, Hash)]
pub struct ID {
    pub dev: u64,
    pub inode: u64,
}

/// Inode number, scoped to a device.
#[derive(Clone, Copy, Debug, PartialEq, Eq, Structural, Hash)]
pub struct Inode(pub u64);

/// Device identifier.
#[derive(Clone, Copy, Debug, PartialEq, Eq, Structural, Hash)]
pub struct DeviceId(pub u64);

/// Kind of a filesystem entry.
#[derive(Clone, Copy, Debug, PartialEq, Eq, Structural, Hash)]
pub enum FileType {
    File,
    Dir,
    Symlink,
}

/// The error kinds the filesystem layer reports.
#[derive(Clone, Copy, Debug, PartialEq, Eq, Structural)]
pub enum IoErr {
    /// The path does not exist.
    NotFound,
    /// Read or unlink was denied.
    Permission,
    /// A symlink chain never resolves.
    Loop,
    /// A file was created without metadata.
    NoMetadata,
    /// A blacklist pattern is not a valid regular expression.
    BadPattern,
    /// Any other filesystem error.
    Other,
}

} // verus!
