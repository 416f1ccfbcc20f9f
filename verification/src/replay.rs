//! The idempotence law: running the same extraction a second time over its
//! own output changes nothing.  Directory re-creation is a no-op, and every
//! file write repeats the content that already won the first run.

use vstd::prelude::*;

use crate::entry::EntryV;
use crate::fs_tree::FsNodeV;
use crate::fs_tree::chain_free;
use crate::fs_tree::fs_wf;
use crate::fs_tree::lemma_with_dirs_contains;
use crate::fs_tree::lemma_with_dirs_other;
use crate::fs_tree::lemma_with_dirs_prefix;
use crate::fs_tree::with_dirs;
use crate::driver::spec_extract;
use crate::laws::lemma_extract_cons;
use crate::laws::lemma_step_preserves_wf;
use crate::laws::lemma_verdict_ok_wf;
use crate::materialize::spec_mode;
use crate::materialize::spec_step;
use crate::paths::sanitize_verdict;
use crate::paths::spec_is_dir_name;

verus! {

type FsV = Map<Seq<Seq<char>>, FsNodeV>;

/// One step keeps every existing node, a directory a directory and a file a
/// file.
pub proof fn lemma_step_monotone(s: FsV, e: EntryV, sup: bool, p: Seq<Seq<char>>)
    requires
        s.contains_key(p),
    ensures
        spec_step(s, e, sup).0.contains_key(p),
        s[p] is Directory ==> spec_step(s, e, sup).0[p] is Directory,
        s[p] is File ==> spec_step(s, e, sup).0[p] is File,
{
    match sanitize_verdict(e.declared_path) {
        Err(_) => {},
        Ok(segs) => {
            let len = segs.len() as int;
            let upto: int = if spec_is_dir_name(e.declared_path) {
                len
            } else {
                len - 1
            };
            if chain_free(s, segs, upto) {
                if exists|k: int| 1 <= k <= upto && p == #[trigger] segs.take(k) {
                    let k = choose|k: int| 1 <= k <= upto && p == #[trigger] segs.take(k);
                    lemma_with_dirs_prefix(s, segs, upto, k);
                    assert(s[p] is Directory);
                } else {
                    lemma_with_dirs_other(s, segs, upto, p);
                }
                if !spec_is_dir_name(e.declared_path) {
                    let m1 = with_dirs(s, segs, upto);
                    if !(m1.contains_key(segs) && m1[segs] is Directory) {
                        if p == segs {
                            assert(!(m1[p] is Directory));
                        }
                    }
                }
            }
        },
    }
}

/// A whole run keeps every existing node, a directory a directory and a
/// file a file.
pub proof fn lemma_extract_monotone(rem: Seq<EntryV>, s: FsV, sup: bool, p: Seq<Seq<char>>)
    requires
        s.contains_key(p),
    ensures
        spec_extract(rem, s, sup).0.contains_key(p),
        s[p] is Directory ==> spec_extract(rem, s, sup).0[p] is Directory,
        s[p] is File ==> spec_extract(rem, s, sup).0[p] is File,
    decreases rem.len(),
{
    if rem.len() > 0 {
        lemma_extract_monotone(rem.drop_last(), s, sup, p);
        lemma_step_monotone(spec_extract(rem.drop_last(), s, sup).0, rem.last(), sup, p);
    }
}

/// The replay relation: `s` is the first run's tree at some point, `sfin`
/// the first run's final tree, and `t` the second run's tree at the same
/// point.  The second run starts at `sfin` and only ever rewrites what the
/// first run wrote.
pub open spec fn replay_rel(s: FsV, t: FsV, sfin: FsV) -> bool {
    &&& forall|p: Seq<Seq<char>>| #[trigger] t.contains_key(p) ==> sfin.contains_key(p)
    &&& forall|p: Seq<Seq<char>>| #[trigger] sfin.contains_key(p) ==> t.contains_key(p)
    &&& forall|p: Seq<Seq<char>>| #[trigger] s.contains_key(p) ==> t.contains_key(p) && t[p]
        == s[p]
    &&& forall|p: Seq<Seq<char>>|
        #[trigger] sfin.contains_key(p) && !s.contains_key(p) ==> t[p] == sfin[p]
}

/// The chains the two runs see agree: the step refuses on `t` exactly where
/// it refused on `s`.
proof fn lemma_chain_equiv(s: FsV, t: FsV, sfin: FsV, segs: Seq<Seq<char>>, upto: int)
    requires
        replay_rel(s, t, sfin),
        chain_free(s, segs, upto) ==> forall|k: int|
            1 <= k <= upto ==> sfin.contains_key(#[trigger] segs.take(k)) && sfin[segs.take(k)]
                is Directory,
    ensures
        chain_free(t, segs, upto) == chain_free(s, segs, upto),
{
    if chain_free(s, segs, upto) {
        assert forall|k: int|
            1 <= k <= upto && #[trigger] t.contains_key(segs.take(k)) implies t[segs.take(k)]
            is Directory by {
            let q = segs.take(k);
            if s.contains_key(q) {
                assert(t[q] == s[q]);
            } else {
                assert(t[q] == sfin[q]);
            }
        }
    } else {
        let k = choose|k: int|
            1 <= k <= upto && s.contains_key(#[trigger] segs.take(k)) && !(s[segs.take(k)]
                is Directory);
        assert(t.contains_key(segs.take(k)) && t[segs.take(k)] == s[segs.take(k)]);
    }
}

/// After filling the same conflict-free chain on both sides, the relation
/// still holds.
proof fn lemma_with_dirs_rel(s: FsV, t: FsV, sfin: FsV, segs: Seq<Seq<char>>, upto: int)
    requires
        replay_rel(s, t, sfin),
        forall|q: Seq<Seq<char>>| #[trigger] with_dirs(s, segs, upto).contains_key(q)
            ==> sfin.contains_key(q),
    ensures
        replay_rel(with_dirs(s, segs, upto), with_dirs(t, segs, upto), sfin),
{
    let ws = with_dirs(s, segs, upto);
    let wt = with_dirs(t, segs, upto);
    assert forall|p: Seq<Seq<char>>| #[trigger] wt.contains_key(p) implies sfin.contains_key(
        p,
    ) by {
        lemma_with_dirs_contains(t, segs, upto, p);
        if !t.contains_key(p) {
            let k = choose|k: int| 1 <= k <= upto && p == #[trigger] segs.take(k);
            lemma_with_dirs_prefix(s, segs, upto, k);
        }
    }
    assert forall|p: Seq<Seq<char>>| #[trigger] sfin.contains_key(p) implies wt.contains_key(
        p,
    ) by {
        if exists|k: int| 1 <= k <= upto && p == #[trigger] segs.take(k) {
            let k = choose|k: int| 1 <= k <= upto && p == #[trigger] segs.take(k);
            lemma_with_dirs_prefix(t, segs, upto, k);
        } else {
            lemma_with_dirs_other(t, segs, upto, p);
        }
    }
    assert forall|p: Seq<Seq<char>>| #[trigger] ws.contains_key(p) implies wt.contains_key(p)
        && wt[p] == ws[p] by {
        if exists|k: int| 1 <= k <= upto && p == #[trigger] segs.take(k) {
            let k = choose|k: int| 1 <= k <= upto && p == #[trigger] segs.take(k);
            lemma_with_dirs_prefix(s, segs, upto, k);
            lemma_with_dirs_prefix(t, segs, upto, k);
        } else {
            lemma_with_dirs_other(s, segs, upto, p);
            lemma_with_dirs_other(t, segs, upto, p);
        }
    }
    assert forall|p: Seq<Seq<char>>|
        #[trigger] sfin.contains_key(p) && !ws.contains_key(p) implies wt[p] == sfin[p] by {
        assert forall|k: int| 1 <= k <= upto implies p != #[trigger] segs.take(k) by {
            lemma_with_dirs_prefix(s, segs, upto, k);
        }
        lemma_with_dirs_other(s, segs, upto, p);
        lemma_with_dirs_other(t, segs, upto, p);
        assert(!s.contains_key(p));
    }
}

/// One entry replays to the same effect: stepping the second run's tree
/// makes exactly the change the first run's step already left in `sfin`.
proof fn lemma_replay_step(s: FsV, t: FsV, sfin: FsV, e: EntryV, sup: bool)
    requires
        fs_wf(s),
        replay_rel(s, t, sfin),
        forall|p: Seq<Seq<char>>| #[trigger] spec_step(s, e, sup).0.contains_key(p)
            ==> sfin.contains_key(p),
        forall|p: Seq<Seq<char>>| #[trigger] spec_step(s, e, sup).0.contains_key(p) && spec_step(
            s,
            e,
            sup,
        ).0[p] is Directory ==> sfin[p] is Directory,
        forall|p: Seq<Seq<char>>| #[trigger] spec_step(s, e, sup).0.contains_key(p) && spec_step(
            s,
            e,
            sup,
        ).0[p] is File ==> sfin[p] is File,
    ensures
        replay_rel(spec_step(s, e, sup).0, spec_step(t, e, sup).0, sfin),
{
    let ss = spec_step(s, e, sup).0;
    let ts = spec_step(t, e, sup).0;
    match sanitize_verdict(e.declared_path) {
        Err(_) => {},
        Ok(segs) => {
            lemma_verdict_ok_wf(e.declared_path, segs);
            let len = segs.len() as int;
            if spec_is_dir_name(e.declared_path) {
                assert(chain_free(s, segs, len) ==> forall|k: int|
                    1 <= k <= len ==> sfin.contains_key(#[trigger] segs.take(k)) && sfin[segs.take(
                        k,
                    )] is Directory) by {
                    if chain_free(s, segs, len) {
                        assert forall|k: int| 1 <= k <= len implies sfin.contains_key(
                            #[trigger] segs.take(k),
                        ) && sfin[segs.take(k)] is Directory by {
                            lemma_with_dirs_prefix(s, segs, len, k);
                        }
                    }
                }
                lemma_chain_equiv(s, t, sfin, segs, len);
                if chain_free(s, segs, len) {
                    lemma_with_dirs_rel(s, t, sfin, segs, len);
                }
            } else {
                let upto = len - 1;
                let m1s = with_dirs(s, segs, upto);
                let m1t = with_dirs(t, segs, upto);
                assert(chain_free(s, segs, upto) ==> forall|k: int|
                    1 <= k <= upto ==> sfin.contains_key(#[trigger] segs.take(k)) && sfin[segs.take(
                        k,
                    )] is Directory) by {
                    if chain_free(s, segs, upto) {
                        assert forall|k: int| 1 <= k <= upto implies sfin.contains_key(
                            #[trigger] segs.take(k),
                        ) && sfin[segs.take(k)] is Directory by {
                            lemma_with_dirs_prefix(s, segs, upto, k);
                            if ss.contains_key(segs.take(k)) {
                            } else {
                                assert(ss == m1s.insert(
                                    segs,
                                    FsNodeV::File {
                                        content: e.content,
                                        mode: spec_mode(sup, e.mode_bits),
                                    },
                                ) || ss == m1s);
                            }
                        }
                    }
                }
                lemma_chain_equiv(s, t, sfin, segs, upto);
                if chain_free(s, segs, upto) {
                    // the target itself is never a covered prefix: lengths differ
                    assert forall|k: int| 1 <= k <= upto implies segs != #[trigger] segs.take(
                        k,
                    ) by {
                        assert(segs.take(k).len() == k);
                    }
                    lemma_with_dirs_other(s, segs, upto, segs);
                    lemma_with_dirs_other(t, segs, upto, segs);
                    let dir_there_s = m1s.contains_key(segs) && m1s[segs] is Directory;
                    let dir_there_t = m1t.contains_key(segs) && m1t[segs] is Directory;
                    let v = FsNodeV::File { content: e.content, mode: spec_mode(sup, e.mode_bits) };
                    assert forall|q: Seq<Seq<char>>| #[trigger] m1s.contains_key(
                        q,
                    ) implies sfin.contains_key(q) by {
                        if dir_there_s {
                            assert(ss == m1s);
                        } else {
                            assert(ss == m1s.insert(segs, v));
                        }
                        assert(ss.contains_key(q));
                    }
                    // the two runs agree on whether a directory blocks the file
                    assert(dir_there_t == dir_there_s) by {
                        if s.contains_key(segs) {
                        } else {
                            if dir_there_s {
                            } else {
                                if t.contains_key(segs) {
                                    assert(ss.contains_key(segs) && ss[segs] is File);
                                    assert(sfin.contains_key(segs) && sfin[segs] is File);
                                    assert(t[segs] == sfin[segs]);
                                }
                            }
                        }
                    }
                    lemma_with_dirs_rel(s, t, sfin, segs, upto);
                    if !dir_there_s {
                        assert(ss == m1s.insert(segs, v));
                        assert(ts == m1t.insert(segs, v));
                        assert(sfin.contains_key(segs)) by {
                            assert(ss.contains_key(segs));
                        }
                        assert forall|p: Seq<Seq<char>>| #[trigger] ts.contains_key(
                            p,
                        ) implies sfin.contains_key(p) by {
                            if p != segs {
                                assert(m1t.contains_key(p));
                                assert(replay_rel(m1s, m1t, sfin));
                            }
                        }
                        assert forall|p: Seq<Seq<char>>| #[trigger] sfin.contains_key(
                            p,
                        ) implies ts.contains_key(p) by {
                            if p != segs {
                                assert(replay_rel(m1s, m1t, sfin));
                                assert(m1t.contains_key(p));
                            }
                        }
                        assert forall|p: Seq<Seq<char>>| #[trigger] ss.contains_key(
                            p,
                        ) implies ts.contains_key(p) && ts[p] == ss[p] by {
                            if p != segs {
                                assert(m1s.contains_key(p) && ss[p] == m1s[p]);
                            }
                        }
                        assert forall|p: Seq<Seq<char>>|
                            #[trigger] sfin.contains_key(p) && !ss.contains_key(p) implies ts[p]
                            == sfin[p] by {
                            assert(p != segs);
                            assert(!m1s.contains_key(p));
                        }
                    }
                }
            }
        },
    }
}

/// The second run, started anywhere that relates to the first run's final
/// tree, ends exactly there.
proof fn lemma_replay(rem: Seq<EntryV>, s: FsV, t: FsV, sup: bool)
    requires
        fs_wf(s),
        replay_rel(s, t, spec_extract(rem, s, sup).0),
    ensures
        spec_extract(rem, t, sup).0 == spec_extract(rem, s, sup).0,
    decreases rem.len(),
{
    let sfin = spec_extract(rem, s, sup).0;
    if rem.len() == 0 {
        assert(t =~= sfin);
    } else {
        let e = rem[0];
        let ss = spec_step(s, e, sup);
        let ts = spec_step(t, e, sup);
        lemma_extract_cons(rem, s, sup);
        lemma_extract_cons(rem, t, sup);
        assert(sfin == spec_extract(rem.drop_first(), ss.0, sup).0);
        assert forall|p: Seq<Seq<char>>| #[trigger] ss.0.contains_key(p) implies sfin.contains_key(
            p,
        ) && (ss.0[p] is Directory ==> sfin[p] is Directory) && (ss.0[p] is File ==> sfin[p]
            is File) by {
            lemma_extract_monotone(rem.drop_first(), ss.0, sup, p);
        }
        lemma_replay_step(s, t, sfin, e, sup);
        lemma_step_preserves_wf(s, e, sup);
        lemma_replay(rem.drop_first(), ss.0, ts.0, sup);
    }
}

/// Law: extraction is idempotent.  Extracting the same entries a second
/// time, over the tree the first run produced from a well-shaped start,
/// leaves exactly the first run's tree: the same file set, the same byte
/// contents.
pub proof fn lemma_extract_idempotent(entries: Seq<EntryV>, m0: FsV, sup: bool)
    requires
        fs_wf(m0),
        forall|p: Seq<Seq<char>>| !(#[trigger] m0.contains_key(p)),
    ensures
        spec_extract(entries, spec_extract(entries, m0, sup).0, sup).0 == spec_extract(
            entries,
            m0,
            sup,
        ).0,
{
    let sfin = spec_extract(entries, m0, sup).0;
    lemma_replay(entries, m0, sfin, sup);
}

} // verus!
