//! What a vault operation can fail with.

use vstd::prelude::*;

verus! {

/// Why a vault operation was refused. Paths are vault-relative unless the
/// variant names the root.
#[derive(Debug, PartialEq, Eq)]
pub enum VaultError {
    /// The vault root does not exist.
    MissingRoot(String),
    /// The vault root is not a directory.
    RootNotADirectory(String),
    /// The path escapes the vault.
    OutsideVault(String),
    /// No note at the path.
    NoteNotFound(String),
    /// A note already exists at the path.
    NoteExists(String),
    /// The path names nothing a vault can hold.
    InvalidPath(String),
    /// No folder at the path.
    FolderNotFound(String),
    /// Something already exists at the path.
    PathExists(String),
    /// A folder cannot be moved inside itself.
    FolderIntoItself(String),
    /// The note has no such heading.
    HeadingNotFound(String),
    /// The file exists but its contents are not on this machine (evicted to
    /// a cloud provider); reading it would block until it downloaded.
    NotMaterialized(String),
    /// The filesystem refused, with its message.
    Io(String),
}

} // verus!
