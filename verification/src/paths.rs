//! Declared-path validation: splitting an untrusted archive name into
//! segments and refusing every form that could escape the destination root.

use vstd::prelude::*;

verus! {

/// Why a declared path was refused.
#[derive(Clone, Copy, Debug, PartialEq, Eq, Structural)]
pub enum RejectReason {
    /// The path is absolute: a leading separator or a drive prefix.
    AbsolutePath,
    /// A `..` segment tries to walk above the destination root.
    TraversalAttempt,
    /// A segment is empty, or names no component (`.`).
    EmptySegment,
}

/// A validated path, relative to the destination root.
#[derive(Debug)]
pub struct ResolvedPath {
    /// The declared path's segments; never empty, each segment well formed.
    pub segments: Vec<String>,
}

/// The views of a sequence of owned strings.
pub open spec fn views_of(segs: Seq<String>) -> Seq<Seq<char>> {
    segs.map_values(|s: String| s@)
}

/// Split on `/`: the segments between separators, in order.
/// An empty input has one empty segment; a separator at either end or a
/// doubled separator contributes an empty segment.
pub open spec fn split_segments(s: Seq<char>) -> Seq<Seq<char>>
    decreases s.len(),
{
    if s.len() == 0 {
        seq![Seq::<char>::empty()]
    } else if s[0] == '/' {
        seq![Seq::<char>::empty()] + split_segments(s.drop_first())
    } else {
        let rest = split_segments(s.drop_first());
        seq![seq![s[0]] + rest[0]] + rest.drop_first()
    }
}

/// A directory entry is marked by a trailing separator.
pub open spec fn spec_is_dir_name(name: Seq<char>) -> bool {
    name.len() > 0 && name.last() == '/'
}

/// The declared name without its directory marker, if any.
pub open spec fn spec_name_body(name: Seq<char>) -> Seq<char> {
    if spec_is_dir_name(name) {
        name.drop_last()
    } else {
        name
    }
}

/// A segment that may appear in a resolved path: non-empty, not a
/// current-directory or parent-directory reference, not a drive prefix.
pub open spec fn seg_wf(seg: Seq<char>) -> bool {
    &&& seg.len() > 0
    &&& seg != seq!['.']
    &&& seg != seq!['.', '.']
    &&& !(seg.len() >= 2 && seg[1] == ':')
}

/// The first rule a single segment breaks, if any.  A `.` segment names no
/// component and is rejected like an empty one.
pub open spec fn seg_verdict(seg: Seq<char>) -> Option<RejectReason> {
    if seg.len() == 0 || seg == seq!['.'] {
        Some(RejectReason::EmptySegment)
    } else if seg == seq!['.', '.'] {
        Some(RejectReason::TraversalAttempt)
    } else if seg.len() >= 2 && seg[1] == ':' {
        Some(RejectReason::AbsolutePath)
    } else {
        None
    }
}

/// The first rule any segment breaks, scanning left to right.
pub open spec fn segs_verdict(segs: Seq<Seq<char>>) -> Option<RejectReason>
    decreases segs.len(),
{
    if segs.len() == 0 {
        None
    } else if seg_verdict(segs[0]) is Some {
        seg_verdict(segs[0])
    } else {
        segs_verdict(segs.drop_first())
    }
}

/// What `sanitize` decides for a declared name: the validated segments of
/// its body, or the first reason to refuse it.
pub open spec fn sanitize_verdict(name: Seq<char>) -> Result<Seq<Seq<char>>, RejectReason> {
    if name.len() == 0 {
        Err(RejectReason::EmptySegment)
    } else if name[0] == '/' {
        Err(RejectReason::AbsolutePath)
    } else {
        let segs = split_segments(spec_name_body(name));
        match segs_verdict(segs) {
            Some(r) => Err(r),
            None => Ok(segs),
        }
    }
}

proof fn lemma_split_no_slash(s: Seq<char>)
    requires
        !s.contains('/'),
    ensures
        split_segments(s) == seq![s],
    decreases s.len(),
{
    if s.len() == 0 {
        assert(split_segments(s) =~~= seq![s]);
    } else {
        assert(s[0] != '/') by {
            assert(s.contains(s[0]));
        }
        assert(!s.drop_first().contains('/')) by {
            if s.drop_first().contains('/') {
                let i = choose|i: int| 0 <= i < s.drop_first().len() && s.drop_first()[i] == '/';
                assert(s[i + 1] == '/');
                assert(s.contains('/'));
            }
        }
        lemma_split_no_slash(s.drop_first());
        assert(split_segments(s) =~~= seq![s]) by {
            assert(seq![s[0]] + s.drop_first() =~= s);
        }
    }
}

proof fn lemma_split_at_slash(a: Seq<char>, b: Seq<char>)
    requires
        !a.contains('/'),
    ensures
        split_segments(a + seq!['/'] + b) == seq![a] + split_segments(b),
    decreases a.len(),
{
    let s = a + seq!['/'] + b;
    if a.len() == 0 {
        assert(s =~= seq!['/'] + b);
        assert(s[0] == '/');
        assert(s.drop_first() =~= b);
        assert(split_segments(s) =~~= seq![a] + split_segments(b));
    } else {
        assert(a[0] != '/') by {
            assert(a.contains(a[0]));
        }
        assert(s[0] == a[0]);
        assert(!a.drop_first().contains('/')) by {
            if a.drop_first().contains('/') {
                let i = choose|i: int| 0 <= i < a.drop_first().len() && a.drop_first()[i] == '/';
                assert(a[i + 1] == '/');
                assert(a.contains('/'));
            }
        }
        assert(s.drop_first() =~= a.drop_first() + seq!['/'] + b);
        lemma_split_at_slash(a.drop_first(), b);
        let rest = split_segments(s.drop_first());
        assert(rest == seq![a.drop_first()] + split_segments(b));
        assert(rest[0] == a.drop_first());
        assert(rest.drop_first() =~~= split_segments(b));
        assert(seq![s[0]] + rest[0] =~= a);
        assert(split_segments(s) =~~= seq![a] + split_segments(b));
    }
}

/// Every split has at least one segment.
pub proof fn lemma_split_nonempty(s: Seq<char>)
    ensures
        split_segments(s).len() >= 1,
    decreases s.len(),
{
    if s.len() > 0 {
        lemma_split_nonempty(s.drop_first());
    }
}

/// When no segment breaks a rule, every segment is well formed.
pub proof fn lemma_clean_segments_wf(segs: Seq<Seq<char>>)
    requires
        segs_verdict(segs) is None,
    ensures
        forall|i: int| 0 <= i < segs.len() ==> seg_wf(#[trigger] segs[i]),
    decreases segs.len(),
{
    if segs.len() > 0 {
        lemma_clean_segments_wf(segs.drop_first());
        assert forall|i: int| 0 <= i < segs.len() implies seg_wf(#[trigger] segs[i]) by {
            if i > 0 {
                assert(segs[i] == segs.drop_first()[i - 1]);
            }
        }
    }
}

/// The root and the segments, joined by separators.
pub open spec fn join_under(root: Seq<char>, segs: Seq<Seq<char>>) -> Seq<char>
    decreases segs.len(),
{
    if segs.len() == 0 {
        root
    } else {
        join_under(root + seq!['/'] + segs[0], segs.drop_first())
    }
}

/// `target` is a strict descendant of `root`: it extends `root` past a
/// separator.
pub open spec fn strictly_within(target: Seq<char>, root: Seq<char>) -> bool {
    &&& target.len() > root.len()
    &&& target.subrange(0, root.len() as int) == root
    &&& target[root.len() as int] == '/'
}

proof fn lemma_join_prefix(root: Seq<char>, segs: Seq<Seq<char>>)
    ensures
        join_under(root, segs).len() >= root.len(),
        join_under(root, segs).subrange(0, root.len() as int) == root,
    decreases segs.len(),
{
    let j = join_under(root, segs);
    if segs.len() == 0 {
        assert(j.subrange(0, root.len() as int) =~= root);
    } else {
        let r2 = root + seq!['/'] + segs[0];
        lemma_join_prefix(r2, segs.drop_first());
        assert(j.subrange(0, r2.len() as int) == r2);
        assert forall|k: int| 0 <= k < root.len() implies j[k] == root[k] by {
            assert(j.subrange(0, r2.len() as int)[k] == j[k]);
            assert(r2[k] == root[k]);
        }
        assert(j.subrange(0, root.len() as int) =~= root);
    }
}

/// Law: the target resolved from any non-empty list of segments is a strict
/// descendant of the destination root — the joined path starts with the root
/// and continues past a separator, so it can never leave the root.
pub proof fn lemma_target_within_root(root: Seq<char>, segs: Seq<Seq<char>>)
    requires
        segs.len() > 0,
    ensures
        strictly_within(join_under(root, segs), root),
{
    let r2 = root + seq!['/'] + segs[0];
    lemma_join_prefix(r2, segs.drop_first());
    let j = join_under(root, segs);
    assert(j.subrange(0, r2.len() as int) == r2);
    assert(j[root.len() as int] == j.subrange(0, r2.len() as int)[root.len() as int]);
    assert forall|k: int| 0 <= k < root.len() implies j[k] == root[k] by {
        assert(j.subrange(0, r2.len() as int)[k] == j[k]);
        assert(r2[k] == root[k]);
    }
    assert(j.subrange(0, root.len() as int) =~= root);
}

/// Law: a declared path with an absolute marker, or whose body splits into
/// any segment that is empty, `.`, `..` or a drive prefix, is rejected.
pub proof fn lemma_bad_path_rejected(name: Seq<char>)
    requires
        name.len() == 0 || name[0] == '/' || exists|i: int|
            0 <= i < split_segments(spec_name_body(name)).len() && !seg_wf(
                #[trigger] split_segments(spec_name_body(name))[i],
            ),
    ensures
        sanitize_verdict(name) is Err,
{
    if name.len() > 0 && name[0] != '/' {
        let segs = split_segments(spec_name_body(name));
        if segs_verdict(segs) is None {
            lemma_clean_segments_wf(segs);
        }
    }
}

impl ResolvedPath {
    /// Whether intermediate directories must be created before writing.
    pub fn needs_parent(&self) -> (r: bool)
        ensures
            r == (self.segments@.len() > 1),
    {
        self.segments.len() > 1
    }

    /// The target path under the destination root: the root and the
    /// segments, joined by separators.  Strictly contained in the root
    /// whenever there is at least one segment.
    pub fn absolute_target(&self, root: &str) -> (t: String)
        ensures
            t@ == join_under(root@, views_of(self.segments@)),
            self.segments@.len() > 0 ==> strictly_within(t@, root@),
    {
        let ghost all = views_of(self.segments@);
        let mut t = root.to_owned();
        let mut i: usize = 0;
        proof {
            assert(all.skip(0) =~~= all);
        }
        while i < self.segments.len()
            invariant
                i <= self.segments@.len(),
                all == views_of(self.segments@),
                join_under(root@, all) == join_under(t@, all.skip(i as int)),
            decreases self.segments@.len() - i,
        {
            t.append("/");
            t.append(self.segments[i].as_str());
            proof {
                reveal_strlit("/");
                assert("/"@ =~= seq!['/']);
                assert(all.skip(i as int)[0] == all[i as int]);
                assert(all.skip(i as int).drop_first() =~~= all.skip(i as int + 1));
            }
            i += 1;
        }
        proof {
            assert(all.skip(self.segments@.len() as int) =~~= Seq::<Seq<char>>::empty());
            if self.segments@.len() > 0 {
                lemma_target_within_root(root@, all);
            }
        }
        t
    }
}

fn split_path(s: &str) -> (segs: Vec<String>)
    ensures
        views_of(segs@) == split_segments(s@),
{
    let n = s.unicode_len();
    let mut segs: Vec<String> = Vec::new();
    let mut start: usize = 0;
    let mut i: usize = 0;
    proof {
        assert(s@.subrange(0, n as int) =~= s@);
        assert(views_of(segs@) + split_segments(s@) =~~= split_segments(s@));
    }
    while i < n
        invariant
            start <= i <= n,
            n == s@.len(),
            forall|k: int| start <= k < i ==> s@[k] != '/',
            split_segments(s@) == views_of(segs@) + split_segments(
                s@.subrange(start as int, n as int),
            ),
        decreases n - i,
    {
        let c = s.get_char(i);
        if c == '/' {
            let seg = s.substring_char(start, i).to_owned();
            proof {
                let head = s@.subrange(start as int, i as int);
                let tail = s@.subrange(i + 1 as int, n as int);
                assert(!head.contains('/')) by {
                    if head.contains('/') {
                        let k = choose|k: int| 0 <= k < head.len() && head[k] == '/';
                        assert(s@[start + k] == '/');
                    }
                }
                assert(s@.subrange(start as int, n as int) =~= head + seq!['/'] + tail);
                lemma_split_at_slash(head, tail);
                assert(views_of(segs@.push(seg)) =~~= views_of(segs@) + seq![head]);
                assert(split_segments(s@) =~~= views_of(segs@.push(seg)) + split_segments(tail));
            }
            segs.push(seg);
            start = i + 1;
        }
        i += 1;
    }
    let seg = s.substring_char(start, n).to_owned();
    proof {
        let last = s@.subrange(start as int, n as int);
        assert(!last.contains('/')) by {
            if last.contains('/') {
                let k = choose|k: int| 0 <= k < last.len() && last[k] == '/';
                assert(s@[start + k] == '/');
            }
        }
        lemma_split_no_slash(last);
        assert(views_of(segs@.push(seg)) =~~= views_of(segs@) + seq![last]);
        assert(views_of(segs@.push(seg)) =~~= split_segments(s@));
    }
    segs.push(seg);
    segs
}

fn check_segment(seg: &String) -> (r: Option<RejectReason>)
    ensures
        r == seg_verdict(seg@),
{
    let st = seg.as_str();
    let len = st.unicode_len();
    if len == 0 {
        return Some(RejectReason::EmptySegment);
    }
    let c0 = st.get_char(0);
    if len == 1 && c0 == '.' {
        proof {
            assert(seg@ =~= seq!['.']);
        }
        return Some(RejectReason::EmptySegment);
    }
    proof {
        assert(seg@ != seq!['.']);
    }
    if len == 2 && c0 == '.' && st.get_char(1) == '.' {
        proof {
            assert(seg@ =~= seq!['.', '.']);
        }
        return Some(RejectReason::TraversalAttempt);
    }
    proof {
        assert(seg@ != seq!['.', '.']);
    }
    if len >= 2 && st.get_char(1) == ':' {
        return Some(RejectReason::AbsolutePath);
    }
    None
}

/// Validate a declared archive name against the destination root.
///
/// Accepts only names made of well-formed relative segments; refuses empty
/// names, absolute markers, drive prefixes, empty and `.` segments, and
/// `..` traversal, each with its reason.  Pure: no side effect, and the
/// verdict is a function of the name alone.
pub fn sanitize(name: &str) -> (r: Result<ResolvedPath, RejectReason>)
    ensures
        match r {
            Ok(rp) => {
                &&& sanitize_verdict(name@) == Ok::<Seq<Seq<char>>, RejectReason>(
                    views_of(rp.segments@),
                )
                &&& rp.segments@.len() > 0
                &&& forall|k: int|
                    0 <= k < rp.segments@.len() ==> seg_wf(#[trigger] rp.segments@[k]@)
            },
            Err(e) => sanitize_verdict(name@) == Err::<Seq<Seq<char>>, RejectReason>(e),
        },
{
    let n = name.unicode_len();
    if n == 0 {
        return Err(RejectReason::EmptySegment);
    }
    if name.get_char(0) == '/' {
        return Err(RejectReason::AbsolutePath);
    }
    let body: &str = if name.get_char(n - 1) == '/' {
        name.substring_char(0, n - 1)
    } else {
        name
    };
    proof {
        assert(body@ =~= spec_name_body(name@));
    }
    let segs = split_path(body);
    let ghost all = views_of(segs@);
    let mut k: usize = 0;
    proof {
        assert(all.skip(0) =~~= all);
    }
    while k < segs.len()
        invariant
            k <= segs@.len(),
            all == views_of(segs@),
            all == split_segments(spec_name_body(name@)),
            segs_verdict(all) == segs_verdict(all.skip(k as int)),
            forall|j: int| 0 <= j < k ==> seg_verdict(#[trigger] all[j]) is None,
            n == name@.len(),
            n > 0,
            name@[0] != '/',
        decreases segs@.len() - k,
    {
        let v = check_segment(&segs[k]);
        proof {
            assert(all.skip(k as int)[0] == all[k as int]);
        }
        if let Some(reason) = v {
            return Err(reason);
        }
        proof {
            assert(all.skip(k as int).drop_first() =~~= all.skip(k as int + 1));
        }
        k += 1;
    }
    proof {
        assert(all.skip(segs@.len() as int) =~~= Seq::<Seq<char>>::empty());
        lemma_clean_segments_wf(all);
        lemma_split_nonempty(spec_name_body(name@));
        assert(forall|j: int| 0 <= j < segs@.len() ==> all[j] == #[trigger] segs@[j]@);
    }
    Ok(ResolvedPath { segments: segs })
}

} // verus!
