//! Safe extraction of untrusted archive entries.
//!
//! An archive is a sequence of entries, each carrying a declared path, a
//! directory flag (a trailing separator), a declared size, optional
//! permission bits and a byte content.  The declared paths are untrusted:
//! they may try to escape the destination directory through `..` segments,
//! absolute markers or drive prefixes.  This crate validates every declared
//! path, materializes the accepted entries into an in-memory model of the
//! destination tree, and reports per-entry outcomes without ever letting one
//! bad entry abort the rest.

pub mod driver;
pub mod entry;
pub mod fs_tree;
pub mod laws;
pub mod materialize;
pub mod paths;
pub mod replay;
pub mod zip_source;
