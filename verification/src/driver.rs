//! The extraction driver: enumerate entries in stored order, sanitize each
//! declared path, materialize what passes, and report every outcome.  No
//! entry aborts the run; only a source that cannot be enumerated at all is
//! fatal, and that is the caller's concern.

use vstd::prelude::*;

use crate::entry::ArchiveEntry;
use crate::entry::EntryV;
use crate::entry::entry_views;
use crate::fs_tree::FsNodeV;
use crate::fs_tree::FsTree;
use crate::materialize::FailCause;
use crate::materialize::Outcome;
use crate::materialize::StepOutcomeV;
use crate::materialize::materialize;
use crate::materialize::spec_step;
use crate::paths::RejectReason;
use crate::paths::sanitize;

verus! {

/// Per-entry accounting of one extraction run.
#[derive(Debug)]
pub struct ExtractionReport {
    /// Entries examined, in archive order.
    pub processed_count: usize,
    /// Skipped entries: index and the sanitizer's reason.
    pub skipped: Vec<(usize, RejectReason)>,
    /// Failed entries: index, declared path, cause.
    pub failed: Vec<(usize, String, FailCause)>,
    /// Content bytes of the fully materialized file entries, capped at the
    /// largest representable count.
    pub bytes_written: u64,
}

/// The mathematical value of a report.
pub struct ReportV {
    pub processed: int,
    pub skipped: Seq<(int, RejectReason)>,
    pub failed: Seq<(int, Seq<char>, FailCause)>,
    pub bytes: u64,
}

impl View for ExtractionReport {
    type V = ReportV;

    open spec fn view(&self) -> ReportV {
        ReportV {
            processed: self.processed_count as int,
            skipped: self.skipped@.map_values(|p: (usize, RejectReason)| (p.0 as int, p.1)),
            failed: self.failed@.map_values(
                |t: (usize, String, FailCause)| (t.0 as int, t.1@, t.2),
            ),
            bytes: self.bytes_written,
        }
    }
}

/// The empty report.
pub open spec fn report_zero() -> ReportV {
    ReportV { processed: 0, skipped: Seq::empty(), failed: Seq::empty(), bytes: 0 }
}

/// `a` plus `b`, capped at the largest representable count.
pub open spec fn sat_bytes(a: u64, b: nat) -> u64 {
    if a + b > u64::MAX {
        u64::MAX
    } else {
        (a + b) as u64
    }
}

/// The report after one more outcome, at index `i`, for entry `e`.
pub open spec fn spec_record(
    rep: ReportV,
    i: int,
    e: EntryV,
    out: StepOutcomeV,
    bytes: nat,
) -> ReportV {
    ReportV {
        processed: rep.processed + 1,
        skipped: match out {
            StepOutcomeV::Skipped(reason) => rep.skipped.push((i, reason)),
            _ => rep.skipped,
        },
        failed: match out {
            StepOutcomeV::Failed(cause) => rep.failed.push((i, e.declared_path, cause)),
            _ => rep.failed,
        },
        bytes: match out {
            StepOutcomeV::Done => sat_bytes(rep.bytes, bytes),
            _ => rep.bytes,
        },
    }
}

/// The whole extraction: the final tree and the report, folding the entries
/// in archive order over the initial tree.
pub open spec fn spec_extract(
    entries: Seq<EntryV>,
    m0: Map<Seq<Seq<char>>, FsNodeV>,
    modes_supported: bool,
) -> (Map<Seq<Seq<char>>, FsNodeV>, ReportV)
    decreases entries.len(),
{
    if entries.len() == 0 {
        (m0, report_zero())
    } else {
        let (m, rep) = spec_extract(entries.drop_last(), m0, modes_supported);
        let e = entries.last();
        let (m2, out, bytes) = spec_step(m, e, modes_supported);
        (m2, spec_record(rep, entries.len() - 1, e, out, bytes))
    }
}

/// Extract every entry, in stored order, into the destination tree.
///
/// One bad entry never aborts the rest: a declared path the sanitizer
/// refuses is skipped and recorded with its reason, a materialization
/// conflict or size mismatch is recorded with its cause, and processing
/// continues.  The final tree and the report are exactly `spec_extract`
/// of the entries over the tree's initial contents.
pub fn extract_entries(
    entries: &Vec<ArchiveEntry>,
    dest: &mut FsTree,
    modes_supported: bool,
) -> (report: ExtractionReport)
    requires
        old(dest).inv(),
    ensures
        final(dest).inv(),
        final(dest)@ == spec_extract(entry_views(entries@), old(dest)@, modes_supported).0,
        report@ == spec_extract(entry_views(entries@), old(dest)@, modes_supported).1,
{
    let ghost evs = entry_views(entries@);
    let ghost m0 = old(dest)@;
    let mut report = ExtractionReport {
        processed_count: 0,
        skipped: Vec::new(),
        failed: Vec::new(),
        bytes_written: 0,
    };
    proof {
        assert(evs.take(0) =~= Seq::<EntryV>::empty());
        assert(report@.skipped =~= report_zero().skipped);
        assert(report@.failed =~= report_zero().failed);
        assert(report@ == spec_extract(evs.take(0), m0, modes_supported).1);
    }
    let mut i: usize = 0;
    while i < entries.len()
        invariant
            i <= entries@.len(),
            evs == entry_views(entries@),
            m0 == old(dest)@,
            dest.inv(),
            dest@ == spec_extract(evs.take(i as int), m0, modes_supported).0,
            report@ == spec_extract(evs.take(i as int), m0, modes_supported).1,
            report.processed_count == i,
        decreases entries@.len() - i,
    {
        let ghost rep_in = report@;
        let ghost m_in = dest@;
        let e = &entries[i];
        proof {
            assert(evs.take(i as int + 1).drop_last() =~= evs.take(i as int));
            assert(evs.take(i as int + 1).last() == evs[i as int]);
            assert(evs[i as int] == e@);
        }
        match sanitize(e.declared_path.as_str()) {
            Err(reason) => {
                report.skipped.push((i, reason));
                report.processed_count += 1;
                proof {
                    assert(report@.skipped =~= rep_in.skipped.push((i as int, reason)));
                    assert(report@.failed =~= rep_in.failed);
                    assert(report@ == spec_record(
                        rep_in,
                        i as int,
                        e@,
                        StepOutcomeV::Skipped(reason),
                        0,
                    ));
                }
            },
            Ok(rp) => {
                match materialize(dest, rp, e, modes_supported) {
                    Outcome::Success { bytes } => {
                        report.bytes_written = report.bytes_written.saturating_add(bytes);
                        report.processed_count += 1;
                        proof {
                            assert(report@.skipped =~= rep_in.skipped);
                            assert(report@.failed =~= rep_in.failed);
                            assert(report@ == spec_record(
                                rep_in,
                                i as int,
                                e@,
                                StepOutcomeV::Done,
                                spec_step(m_in, e@, modes_supported).2,
                            ));
                        }
                    },
                    Outcome::Failure { cause } => {
                        let declared = e.declared_path.clone();
                        report.failed.push((i, declared, cause));
                        report.processed_count += 1;
                        proof {
                            assert(report@.skipped =~= rep_in.skipped);
                            assert(report@.failed =~= rep_in.failed.push(
                                (i as int, e.declared_path@, cause),
                            ));
                            assert(report@ == spec_record(
                                rep_in,
                                i as int,
                                e@,
                                StepOutcomeV::Failed(cause),
                                spec_step(m_in, e@, modes_supported).2,
                            ));
                        }
                    },
                }
            },
        }
        i += 1;
    }
    proof {
        assert(evs.take(entries@.len() as int) =~= evs);
    }
    report
}

} // verus!
