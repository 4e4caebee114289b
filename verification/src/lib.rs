//! A minimal content-addressable object store paired with a binary
//! staging-index codec, in the style of a version-control plumbing layer.
//!
//! The library is organised around three cores: the object store
//! ([`store::ObjectStore`]), which keeps zlib-compressed, SHA-1-addressed
//! payloads; the index codec ([`index_util`]), which reads and writes the
//! binary staging table; and the tree builder and reader
//! ([`write_tree`], [`ls_tree`]), which turn a staging table into a stored
//! tree object and render a stored tree object as text.
//!
//! All file-system and command-line concerns live outside this crate; every
//! function here computes over plain values and carries a verified contract.

pub mod byteops;
pub mod cat_file;
pub mod errors;
pub mod hash_object;
pub mod index_util;
pub mod ls_tree;
pub mod object_util;
pub mod write_tree;
pub mod store;
pub mod update_index;
