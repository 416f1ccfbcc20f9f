//! Laws of the extraction engine, stated over its specification functions
//! and proved once and for all: what a whole run writes, counts and skips.

use vstd::prelude::*;

use crate::entry::EntryV;
use crate::fs_tree::FsNodeV;
use crate::fs_tree::chain_free;
use crate::fs_tree::fs_wf;
use crate::fs_tree::lemma_insert_preserves_wf;
use crate::fs_tree::lemma_with_dirs_prefix;
use crate::fs_tree::wf_path;
use crate::fs_tree::with_dirs;
use crate::driver::spec_extract;
use crate::materialize::FailCause;
use crate::materialize::StepOutcomeV;
use crate::materialize::spec_mode;
use crate::materialize::spec_step;
use crate::paths::RejectReason;
use crate::paths::lemma_clean_segments_wf;
use crate::paths::lemma_split_nonempty;
use crate::paths::sanitize_verdict;
use crate::paths::seg_wf;
use crate::paths::spec_is_dir_name;
use crate::paths::spec_name_body;
use crate::paths::split_segments;

verus! {

/// An accepted verdict's segments: at least one, all well formed.
pub proof fn lemma_verdict_ok_wf(name: Seq<char>, segs: Seq<Seq<char>>)
    requires
        sanitize_verdict(name) == Ok::<Seq<Seq<char>>, RejectReason>(segs),
    ensures
        wf_path(segs),
{
    lemma_split_nonempty(spec_name_body(name));
    lemma_clean_segments_wf(split_segments(spec_name_body(name)));
}

/// Filling a conflict-free directory chain keeps the tree well shaped.
pub proof fn lemma_with_dirs_preserves_wf(
    m: Map<Seq<Seq<char>>, FsNodeV>,
    segs: Seq<Seq<char>>,
    upto: int,
)
    requires
        fs_wf(m),
        chain_free(m, segs, upto),
        0 <= upto <= segs.len(),
        forall|i: int| 0 <= i < segs.len() ==> seg_wf(#[trigger] segs[i]),
    ensures
        fs_wf(with_dirs(m, segs, upto)),
    decreases upto,
{
    if upto > 0 {
        lemma_with_dirs_preserves_wf(m, segs, upto - 1);
        let prev = with_dirs(m, segs, upto - 1);
        let p = segs.take(upto);
        assert(wf_path(p)) by {
            assert(forall|j: int| 0 <= j < upto ==> p[j] == #[trigger] segs[j]);
        }
        if upto > 1 {
            assert(p.drop_last() =~= segs.take(upto - 1));
            lemma_with_dirs_prefix(m, segs, upto - 1, upto - 1);
        }
        lemma_insert_preserves_wf(prev, p, FsNodeV::Directory);
    }
}

/// Law: one extraction step keeps the tree well shaped — every path it adds
/// lies under the destination root with well-formed segments.
pub proof fn lemma_step_preserves_wf(m: Map<Seq<Seq<char>>, FsNodeV>, e: EntryV, sup: bool)
    requires
        fs_wf(m),
    ensures
        fs_wf(spec_step(m, e, sup).0),
{
    match sanitize_verdict(e.declared_path) {
        Err(_) => {},
        Ok(segs) => {
            lemma_verdict_ok_wf(e.declared_path, segs);
            let len = segs.len() as int;
            if spec_is_dir_name(e.declared_path) {
                if chain_free(m, segs, len) {
                    lemma_with_dirs_preserves_wf(m, segs, len);
                }
            } else {
                if chain_free(m, segs, len - 1) {
                    lemma_with_dirs_preserves_wf(m, segs, len - 1);
                    let m1 = with_dirs(m, segs, len - 1);
                    if !(m1.contains_key(segs) && m1[segs] is Directory) {
                        if segs.len() > 1 {
                            assert(segs.drop_last() =~= segs.take(len - 1));
                            lemma_with_dirs_prefix(m, segs, len - 1, len - 1);
                        }
                        lemma_insert_preserves_wf(
                            m1,
                            segs,
                            FsNodeV::File {
                                content: e.content,
                                mode: spec_mode(sup, e.mode_bits),
                            },
                        );
                    }
                }
            }
        },
    }
}

/// Law: a whole extraction never escapes the destination root.  Starting
/// from a well-shaped tree, the final tree is well shaped: every one of its
/// paths is non-empty, every segment is well formed, and every parent is a
/// directory.
pub proof fn lemma_extract_stays_within(
    entries: Seq<EntryV>,
    m0: Map<Seq<Seq<char>>, FsNodeV>,
    sup: bool,
)
    requires
        fs_wf(m0),
    ensures
        fs_wf(spec_extract(entries, m0, sup).0),
    decreases entries.len(),
{
    if entries.len() > 0 {
        lemma_extract_stays_within(entries.drop_last(), m0, sup);
        lemma_step_preserves_wf(spec_extract(entries.drop_last(), m0, sup).0, entries.last(), sup);
    }
}

/// Law: a rejected entry writes nothing — its step leaves the tree exactly
/// as it was, and the entry is recorded as skipped.
pub proof fn lemma_rejected_writes_nothing(m: Map<Seq<Seq<char>>, FsNodeV>, e: EntryV, sup: bool)
    requires
        sanitize_verdict(e.declared_path) is Err,
    ensures
        spec_step(m, e, sup).0 == m,
        spec_step(m, e, sup).1 is Skipped,
{
}

/// Law: a fully materialized file entry is byte-exact — the tree holds its
/// content unchanged at its resolved path, its content length equals its
/// declared size, and exactly that many bytes count as written.
pub proof fn lemma_step_byte_exact(
    m: Map<Seq<Seq<char>>, FsNodeV>,
    e: EntryV,
    sup: bool,
    segs: Seq<Seq<char>>,
)
    requires
        sanitize_verdict(e.declared_path) == Ok::<Seq<Seq<char>>, RejectReason>(segs),
        !spec_is_dir_name(e.declared_path),
        spec_step(m, e, sup).1 is Done,
    ensures
        spec_step(m, e, sup).0.contains_key(segs),
        spec_step(m, e, sup).0[segs] == (FsNodeV::File {
            content: e.content,
            mode: spec_mode(sup, e.mode_bits),
        }),
        e.content.len() == e.size as nat,
        spec_step(m, e, sup).2 == e.content.len(),
{
}

/// The content bytes of the entries a run fully materializes.
pub open spec fn spec_accepted_bytes(
    entries: Seq<EntryV>,
    m0: Map<Seq<Seq<char>>, FsNodeV>,
    sup: bool,
) -> nat
    decreases entries.len(),
{
    if entries.len() == 0 {
        0
    } else {
        let prev = spec_accepted_bytes(entries.drop_last(), m0, sup);
        let m = spec_extract(entries.drop_last(), m0, sup).0;
        let st = spec_step(m, entries.last(), sup);
        if st.1 is Done {
            prev + st.2
        } else {
            prev
        }
    }
}

/// Law: the report's byte count is exact — whenever the sum of the fully
/// materialized entries' content lengths is representable, `bytes_written`
/// equals it.
pub proof fn lemma_bytes_exact(entries: Seq<EntryV>, m0: Map<Seq<Seq<char>>, FsNodeV>, sup: bool)
    requires
        spec_accepted_bytes(entries, m0, sup) <= u64::MAX,
    ensures
        spec_extract(entries, m0, sup).1.bytes == spec_accepted_bytes(entries, m0, sup),
    decreases entries.len(),
{
    if entries.len() > 0 {
        lemma_bytes_exact(entries.drop_last(), m0, sup);
    }
}

/// Indices of recorded skips, shifted by `by`.
pub open spec fn shift_skips(s: Seq<(int, RejectReason)>, by: int) -> Seq<(int, RejectReason)> {
    s.map_values(|p: (int, RejectReason)| (p.0 + by, p.1))
}

/// Indices of recorded failures, shifted by `by`.
pub open spec fn shift_fails(
    s: Seq<(int, Seq<char>, FailCause)>,
    by: int,
) -> Seq<(int, Seq<char>, FailCause)> {
    s.map_values(|t: (int, Seq<char>, FailCause)| (t.0 + by, t.1, t.2))
}

/// The skip records the first entry contributes, at index zero.
pub open spec fn head_skips(out: StepOutcomeV) -> Seq<(int, RejectReason)> {
    match out {
        StepOutcomeV::Skipped(r) => seq![(0int, r)],
        _ => Seq::empty(),
    }
}

/// The failure records the first entry contributes, at index zero.
pub open spec fn head_fails(e: EntryV, out: StepOutcomeV) -> Seq<(int, Seq<char>, FailCause)> {
    match out {
        StepOutcomeV::Failed(c) => seq![(0int, e.declared_path, c)],
        _ => Seq::empty(),
    }
}

/// Peeling the first entry off a run: the rest extracts from the first
/// entry's tree, and the report is the first entry's records followed by the
/// rest's records with every index moved up by one.
pub proof fn lemma_extract_cons(entries: Seq<EntryV>, m0: Map<Seq<Seq<char>>, FsNodeV>, sup: bool)
    requires
        entries.len() > 0,
    ensures
        ({
            let st = spec_step(m0, entries[0], sup);
            let rest = spec_extract(entries.drop_first(), st.0, sup);
            let whole = spec_extract(entries, m0, sup);
            &&& whole.0 == rest.0
            &&& whole.1.processed == rest.1.processed + 1
            &&& whole.1.skipped == head_skips(st.1) + shift_skips(rest.1.skipped, 1)
            &&& whole.1.failed == head_fails(entries[0], st.1) + shift_fails(rest.1.failed, 1)
        }),
    decreases entries.len(),
{
    let st = spec_step(m0, entries[0], sup);
    let rest = spec_extract(entries.drop_first(), st.0, sup);
    let whole = spec_extract(entries, m0, sup);
    if entries.len() == 1 {
        assert(entries.drop_last() =~= Seq::<EntryV>::empty());
        assert(entries.drop_first() =~= Seq::<EntryV>::empty());
        assert(entries.last() == entries[0]);
        assert(spec_extract(Seq::<EntryV>::empty(), m0, sup).1 == crate::driver::report_zero());
        assert(spec_extract(Seq::<EntryV>::empty(), st.0, sup).1 == crate::driver::report_zero());
        assert(whole.1.skipped =~= head_skips(st.1) + shift_skips(rest.1.skipped, 1));
        assert(whole.1.failed =~= head_fails(entries[0], st.1) + shift_fails(rest.1.failed, 1));
    } else {
        let dl = entries.drop_last();
        let last = entries.last();
        assert(dl[0] == entries[0]);
        lemma_extract_cons(dl, m0, sup);
        let rest_dl = spec_extract(dl.drop_first(), st.0, sup);
        assert(dl.drop_first() =~= entries.drop_first().drop_last());
        assert(entries.drop_first().last() == last);
        // the rest of the run, taken whole, peels its own last entry
        let st_last = spec_step(rest_dl.0, last, sup);
        assert(rest.0 == st_last.0);
        assert(whole.0 == rest.0);
        // skips: appending the last record commutes with the index shift
        let n = entries.len();
        assert(rest.1.skipped == (match st_last.1 {
            StepOutcomeV::Skipped(r) => rest_dl.1.skipped.push(((n - 2) as int, r)),
            _ => rest_dl.1.skipped,
        }));
        match st_last.1 {
            StepOutcomeV::Skipped(r) => {
                assert(shift_skips(rest_dl.1.skipped.push(((n - 2) as int, r)), 1) =~= shift_skips(
                    rest_dl.1.skipped,
                    1,
                ).push(((n - 1) as int, r)));
                assert(whole.1.skipped =~= head_skips(st.1) + shift_skips(rest.1.skipped, 1));
                assert(whole.1.failed =~= head_fails(entries[0], st.1) + shift_fails(
                    rest.1.failed,
                    1,
                ));
            },
            StepOutcomeV::Failed(c) => {
                assert(shift_fails(rest_dl.1.failed.push(((n - 2) as int, last.declared_path, c)), 1)
                    =~= shift_fails(rest_dl.1.failed, 1).push(((n - 1) as int, last.declared_path, c)));
                assert(whole.1.skipped =~= head_skips(st.1) + shift_skips(rest.1.skipped, 1));
                assert(whole.1.failed =~= head_fails(entries[0], st.1) + shift_fails(
                    rest.1.failed,
                    1,
                ));
            },
            StepOutcomeV::Done => {
                assert(whole.1.skipped =~= head_skips(st.1) + shift_skips(rest.1.skipped, 1));
                assert(whole.1.failed =~= head_fails(entries[0], st.1) + shift_fails(
                    rest.1.failed,
                    1,
                ));
            },
        }
    }
}

/// A run whose every entry passes sanitization records no skip.
pub proof fn lemma_all_ok_no_skips(entries: Seq<EntryV>, m0: Map<Seq<Seq<char>>, FsNodeV>, sup: bool)
    requires
        forall|j: int|
            0 <= j < entries.len() ==> sanitize_verdict(#[trigger] entries[j].declared_path) is Ok,
    ensures
        spec_extract(entries, m0, sup).1.skipped == Seq::<(int, RejectReason)>::empty(),
    decreases entries.len(),
{
    if entries.len() > 0 {
        assert forall|j: int|
            0 <= j < entries.drop_last().len() implies sanitize_verdict(
            #[trigger] entries.drop_last()[j].declared_path,
        ) is Ok by {
            assert(entries.drop_last()[j] == entries[j]);
        }
        lemma_all_ok_no_skips(entries.drop_last(), m0, sup);
        assert(entries.last() == entries[entries.len() - 1]);
    }
}

/// Law: one malicious entry never denies the rest.  An archive whose first
/// entry is rejected and whose remaining entries all pass sanitization
/// produces exactly the tree the remaining entries alone would produce, and
/// the report lists exactly the one skip.
pub proof fn lemma_skip_continues(
    entries: Seq<EntryV>,
    m0: Map<Seq<Seq<char>>, FsNodeV>,
    sup: bool,
    reason: RejectReason,
)
    requires
        entries.len() > 0,
        sanitize_verdict(entries[0].declared_path) == Err::<Seq<Seq<char>>, RejectReason>(reason),
        forall|j: int|
            1 <= j < entries.len() ==> sanitize_verdict(#[trigger] entries[j].declared_path) is Ok,
    ensures
        spec_extract(entries, m0, sup).0 == spec_extract(entries.drop_first(), m0, sup).0,
        spec_extract(entries, m0, sup).1.skipped == seq![(0int, reason)],
{
    lemma_extract_cons(entries, m0, sup);
    let st = spec_step(m0, entries[0], sup);
    assert(st.0 == m0);
    assert(st.1 == StepOutcomeV::Skipped(reason));
    assert forall|j: int|
        0 <= j < entries.drop_first().len() implies sanitize_verdict(
        #[trigger] entries.drop_first()[j].declared_path,
    ) is Ok by {
        assert(entries.drop_first()[j] == entries[j + 1]);
    }
    lemma_all_ok_no_skips(entries.drop_first(), m0, sup);
    assert(spec_extract(entries, m0, sup).1.skipped =~= seq![(0int, reason)]);
}

} // verus!
