//! The typed failures that the library's operations surface.
//!
//! Every recoverable condition is reported as a [`GitError`] value to the
//! immediate caller; no operation in this crate aborts the process on
//! malformed but foreseeable input.

use vstd::prelude::*;
use vstd::string::StringExecFns;

verus! {

/// A recoverable failure of a store, codec, tree or staging operation.
#[derive(Debug)]
pub enum GitError {
    /// A framed object header whose leading token is not a recognized kind.
    InvalidHeader,
    /// A store read for a hash that has no stored object.
    ObjectNotFound,
    /// A stored payload that cannot be decompressed, or whose content is
    /// not the text it is required to be.
    CorruptObject,
    /// A staging table whose magic tag or format version is not supported.
    UnsupportedVersion,
    /// A staging table whose bytes end before a required field or record.
    TruncatedIndex,
    /// An attempt to add a path that the staging table already tracks.
    DuplicateEntry,
    /// A tree build that met a staging entry whose object is absent from
    /// the store, while missing objects were not tolerated.
    DanglingReference {
        permissions: String,
        object_hash: String,
        filename: String,
    },
    /// A tree read invoked on an object that is not a tree.
    NotATree,
}

/// The rendering of each error as a line of text for a caller to show.
pub open spec fn spec_message(e: GitError) -> Seq<char> {
    match e {
        GitError::InvalidHeader => "Invalid header"@,
        GitError::ObjectNotFound => "Could not read object file"@,
        GitError::CorruptObject => "Corrupt object"@,
        GitError::UnsupportedVersion => "unsupported index version"@,
        GitError::TruncatedIndex => "Invalid index format"@,
        GitError::DuplicateEntry => "This file already exists in the index"@,
        GitError::DanglingReference { permissions, object_hash, filename } => "invalid object "@
            + permissions@ + " "@ + object_hash@ + " for "@ + filename@
            + "\nfatal: write-tree: error building trees"@,
        GitError::NotATree => "fatal: not a tree object"@,
    }
}

impl GitError {
    /// A human-readable description of the failure.
    pub fn message(&self) -> (r: String)
        ensures
            r@ == spec_message(*self),
    {
        match self {
            GitError::InvalidHeader => String::from_str("Invalid header"),
            GitError::ObjectNotFound => String::from_str("Could not read object file"),
            GitError::CorruptObject => String::from_str("Corrupt object"),
            GitError::UnsupportedVersion => String::from_str("unsupported index version"),
            GitError::TruncatedIndex => String::from_str("Invalid index format"),
            GitError::DuplicateEntry => String::from_str(
                "This file already exists in the index",
            ),
            GitError::DanglingReference { permissions, object_hash, filename } => {
                let mut s = String::from_str("invalid object ");
                s.append(permissions.as_str());
                s.append(" ");
                s.append(object_hash.as_str());
                s.append(" for ");
                s.append(filename.as_str());
                s.append("\nfatal: write-tree: error building trees");
                s
            },
            GitError::NotATree => String::from_str("fatal: not a tree object"),
        }
    }
}

} // verus!
