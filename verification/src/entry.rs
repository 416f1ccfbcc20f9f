//! One archive entry, as the enumerating collaborator hands it over.

use vstd::prelude::*;

use crate::paths::spec_is_dir_name;

verus! {

/// One entry of an archive.  Everything in it is untrusted input.
pub struct ArchiveEntry {
    /// The path as stored in the archive; a trailing separator marks a
    /// directory.
    pub declared_path: String,
    /// Declared uncompressed byte length; checked against the content.
    pub size: u64,
    /// Free-text annotation, display only.
    pub comment: String,
    /// Platform permission bits, when the archive carries them.
    pub mode_bits: Option<u32>,
    /// The entry's bytes; empty for a directory.
    pub content: Vec<u8>,
}

/// The mathematical value of an entry.
pub struct EntryV {
    pub declared_path: Seq<char>,
    pub size: u64,
    pub comment: Seq<char>,
    pub mode_bits: Option<u32>,
    pub content: Seq<u8>,
}

impl View for ArchiveEntry {
    type V = EntryV;

    open spec fn view(&self) -> EntryV {
        EntryV {
            declared_path: self.declared_path@,
            size: self.size,
            comment: self.comment@,
            mode_bits: self.mode_bits,
            content: self.content@,
        }
    }
}

/// The entry views of a sequence of entries.
pub open spec fn entry_views(s: Seq<ArchiveEntry>) -> Seq<EntryV> {
    s.map_values(|e: ArchiveEntry| e@)
}

impl ArchiveEntry {
    /// Whether the declared path marks a directory: the trailing-separator
    /// convention.
    pub fn is_directory(&self) -> (r: bool)
        ensures
            r == spec_is_dir_name(self.declared_path@),
    {
        let n = self.declared_path.as_str().unicode_len();
        n > 0 && self.declared_path.as_str().get_char(n - 1) == '/'
    }
}

} // verus!
