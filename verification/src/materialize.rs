//! Turning one sanitized entry into a node of the destination tree, and the
//! exact specification of what each entry does to it.

use vstd::prelude::*;

use crate::entry::ArchiveEntry;
use crate::entry::EntryV;
use crate::fs_tree::FsNodeV;
use crate::fs_tree::FsTree;
use crate::fs_tree::chain_free;
use crate::fs_tree::lemma_with_dirs_prefix;
use crate::fs_tree::with_dirs;
use crate::fs_tree::wf_path;
use crate::paths::RejectReason;
use crate::paths::ResolvedPath;
use crate::paths::sanitize_verdict;
use crate::paths::seg_wf;
use crate::paths::spec_is_dir_name;
use crate::paths::views_of;

verus! {

/// Why materializing an entry failed.
#[derive(Clone, Copy, Debug, PartialEq, Eq, Structural)]
pub enum FailCause {
    /// A non-directory already stands in the target's directory chain.
    DirectoryConflict,
    /// A directory already stands where the file would be created.
    FileConflict,
    /// The content written does not match the entry's declared size; the
    /// file keeps the content all the same.
    TruncatedWrite,
}

/// The outcome of materializing one sanitized entry.
pub enum Outcome {
    /// The entry was materialized; `bytes` bytes of file content counted.
    Success { bytes: u64 },
    /// The entry failed and is recorded with its cause.
    Failure { cause: FailCause },
}

/// The per-entry outcome, at the specification level.
pub enum StepOutcomeV {
    Skipped(RejectReason),
    Failed(FailCause),
    Done,
}

/// The permission bits a node records: the entry's, where the platform
/// capability supports applying them, and nothing otherwise.
pub open spec fn spec_mode(modes_supported: bool, bits: Option<u32>) -> Option<u32> {
    if modes_supported {
        bits
    } else {
        None
    }
}

/// What one entry does to the destination map: the new map, the outcome,
/// and the content bytes that count as written (those of a fully
/// materialized file).
pub open spec fn spec_step(
    m: Map<Seq<Seq<char>>, FsNodeV>,
    e: EntryV,
    modes_supported: bool,
) -> (Map<Seq<Seq<char>>, FsNodeV>, StepOutcomeV, nat) {
    match sanitize_verdict(e.declared_path) {
        Err(r) => (m, StepOutcomeV::Skipped(r), 0),
        Ok(segs) => {
            if spec_is_dir_name(e.declared_path) {
                if chain_free(m, segs, segs.len() as int) {
                    (with_dirs(m, segs, segs.len() as int), StepOutcomeV::Done, 0)
                } else {
                    (m, StepOutcomeV::Failed(FailCause::DirectoryConflict), 0)
                }
            } else {
                if !chain_free(m, segs, segs.len() as int - 1) {
                    (m, StepOutcomeV::Failed(FailCause::DirectoryConflict), 0)
                } else {
                    let m1 = with_dirs(m, segs, segs.len() as int - 1);
                    if m1.contains_key(segs) && m1[segs] is Directory {
                        (m1, StepOutcomeV::Failed(FailCause::FileConflict), 0)
                    } else {
                        let m2 = m1.insert(
                            segs,
                            FsNodeV::File {
                                content: e.content,
                                mode: spec_mode(modes_supported, e.mode_bits),
                            },
                        );
                        if e.content.len() == e.size as nat {
                            (m2, StepOutcomeV::Done, e.content.len())
                        } else {
                            (m2, StepOutcomeV::Failed(FailCause::TruncatedWrite), e.content.len())
                        }
                    }
                }
            }
        },
    }
}

fn copy_bytes(src: &Vec<u8>) -> (r: Vec<u8>)
    ensures
        r@ == src@,
{
    let mut r: Vec<u8> = Vec::new();
    let mut i: usize = 0;
    while i < src.len()
        invariant
            i <= src@.len(),
            r@ == src@.take(i as int),
        decreases src@.len() - i,
    {
        proof {
            assert(src@.take(i as int + 1) =~= src@.take(i as int).push(src@[i as int]));
        }
        r.push(src[i]);
        i += 1;
    }
    proof {
        assert(src@.take(src@.len() as int) =~= src@);
    }
    r
}

/// Materialize one entry whose declared path `rp` resolves to: create the
/// directory (and chain) for a directory entry; otherwise create the parent
/// chain, write the file's bytes, record its permission bits where the
/// capability allows, and flag a size mismatch as a truncated write.
pub fn materialize(
    dest: &mut FsTree,
    rp: ResolvedPath,
    entry: &ArchiveEntry,
    modes_supported: bool,
) -> (r: Outcome)
    requires
        old(dest).inv(),
        sanitize_verdict(entry.declared_path@) == Ok::<Seq<Seq<char>>, RejectReason>(
            views_of(rp.segments@),
        ),
        rp.segments@.len() > 0,
        forall|k: int| 0 <= k < rp.segments@.len() ==> seg_wf(#[trigger] rp.segments@[k]@),
    ensures
        final(dest).inv(),
        final(dest)@ == spec_step(old(dest)@, entry@, modes_supported).0,
        match r {
            Outcome::Success { bytes } => spec_step(old(dest)@, entry@, modes_supported).1
                is Done && bytes as nat == spec_step(old(dest)@, entry@, modes_supported).2,
            Outcome::Failure { cause } => spec_step(old(dest)@, entry@, modes_supported).1
                == StepOutcomeV::Failed(cause),
        },
{
    let ghost segs = views_of(rp.segments@);
    let ghost m0 = dest@;
    let n = rp.segments.len();
    if entry.is_directory() {
        if dest.create_dir_all(&rp.segments, n) {
            Outcome::Success { bytes: 0 }
        } else {
            Outcome::Failure { cause: FailCause::DirectoryConflict }
        }
    } else {
        if !dest.create_dir_all(&rp.segments, n - 1) {
            return Outcome::Failure { cause: FailCause::DirectoryConflict };
        }
        proof {
            if n > 1 {
                assert(segs.drop_last() =~= segs.take(n as int - 1));
                lemma_with_dirs_prefix(m0, segs, n as int - 1, n as int - 1);
            }
            assert(wf_path(segs));
        }
        let content = copy_bytes(&entry.content);
        let mode = if modes_supported {
            entry.mode_bits
        } else {
            None
        };
        let written = content.len() as u64;
        if !dest.set_file(rp.segments, content, mode) {
            return Outcome::Failure { cause: FailCause::FileConflict };
        }
        if written == entry.size {
            Outcome::Success { bytes: written }
        } else {
            Outcome::Failure { cause: FailCause::TruncatedWrite }
        }
    }
}

} // verus!
