//! An in-memory model of the destination directory tree: the one artifact
//! extraction mutates.  Nodes are keyed by their segment path relative to
//! the destination root; the tree keeps every parent of a node present as a
//! directory, and every stored path well formed.

use vstd::prelude::*;

use crate::paths::seg_wf;
use crate::paths::views_of;

verus! {

/// What stands at one path of the destination tree.
#[derive(Debug, PartialEq)]
pub enum FsNodeKind {
    Directory,
    File { content: Vec<u8>, mode: Option<u32> },
}

/// The mathematical value of a node.
pub enum FsNodeV {
    Directory,
    File { content: Seq<u8>, mode: Option<u32> },
}

impl View for FsNodeKind {
    type V = FsNodeV;

    open spec fn view(&self) -> FsNodeV {
        match self {
            FsNodeKind::Directory => FsNodeV::Directory,
            FsNodeKind::File { content, mode } => FsNodeV::File {
                content: content@,
                mode: *mode,
            },
        }
    }
}

/// One node: its path below the destination root, and what it is.
#[derive(Debug, PartialEq)]
pub struct FsNode {
    pub segs: Vec<String>,
    pub kind: FsNodeKind,
}

/// The path of a node, as segment views.
pub open spec fn node_path(n: FsNode) -> Seq<Seq<char>> {
    views_of(n.segs@)
}

/// The nodes as a map from path to value; a later node wins a duplicate path.
pub open spec fn nodes_map(s: Seq<FsNode>) -> Map<Seq<Seq<char>>, FsNodeV>
    decreases s.len(),
{
    if s.len() == 0 {
        Map::empty()
    } else {
        nodes_map(s.drop_last()).insert(node_path(s.last()), s.last().kind@)
    }
}

/// A path the tree may hold: at least one segment, all well formed.
pub open spec fn wf_path(p: Seq<Seq<char>>) -> bool {
    p.len() > 0 && forall|i: int| 0 <= i < p.len() ==> seg_wf(#[trigger] p[i])
}

/// Tree shape: every path is well formed, and the parent of every deeper
/// node is present as a directory.
pub open spec fn fs_wf(m: Map<Seq<Seq<char>>, FsNodeV>) -> bool {
    &&& forall|p: Seq<Seq<char>>| #[trigger] m.contains_key(p) ==> wf_path(p)
    &&& forall|p: Seq<Seq<char>>|
        #[trigger] m.contains_key(p) && p.len() > 1 ==> m.contains_key(p.drop_last())
            && m[p.drop_last()] is Directory
}

/// Every prefix of `segs` up to length `upto` that already exists in `m` is
/// a directory.
pub open spec fn chain_free(
    m: Map<Seq<Seq<char>>, FsNodeV>,
    segs: Seq<Seq<char>>,
    upto: int,
) -> bool {
    forall|k: int|
        1 <= k <= upto ==> (#[trigger] m.contains_key(segs.take(k)) ==> m[segs.take(k)]
            is Directory)
}

/// `m` with a directory at every prefix of `segs` up to length `upto`.
pub open spec fn with_dirs(
    m: Map<Seq<Seq<char>>, FsNodeV>,
    segs: Seq<Seq<char>>,
    upto: int,
) -> Map<Seq<Seq<char>>, FsNodeV>
    decreases upto,
{
    if upto <= 0 {
        m
    } else {
        with_dirs(m, segs, upto - 1).insert(segs.take(upto), FsNodeV::Directory)
    }
}

/// A prefix covered by `with_dirs` is present as a directory.
pub proof fn lemma_with_dirs_prefix(
    m: Map<Seq<Seq<char>>, FsNodeV>,
    segs: Seq<Seq<char>>,
    upto: int,
    k: int,
)
    requires
        1 <= k <= upto,
    ensures
        with_dirs(m, segs, upto).contains_key(segs.take(k)),
        with_dirs(m, segs, upto)[segs.take(k)] is Directory,
    decreases upto,
{
    if k < upto {
        lemma_with_dirs_prefix(m, segs, upto - 1, k);
    }
}

/// A key that is none of the covered prefixes keeps its standing and value.
pub proof fn lemma_with_dirs_other(
    m: Map<Seq<Seq<char>>, FsNodeV>,
    segs: Seq<Seq<char>>,
    upto: int,
    q: Seq<Seq<char>>,
)
    requires
        forall|k: int| 1 <= k <= upto ==> q != #[trigger] segs.take(k),
    ensures
        with_dirs(m, segs, upto).contains_key(q) == m.contains_key(q),
        m.contains_key(q) ==> with_dirs(m, segs, upto)[q] == m[q],
    decreases upto,
{
    if upto > 0 {
        lemma_with_dirs_other(m, segs, upto - 1, q);
    }
}

/// Every key of `with_dirs` was a key of `m` or is a covered prefix.
pub proof fn lemma_with_dirs_contains(
    m: Map<Seq<Seq<char>>, FsNodeV>,
    segs: Seq<Seq<char>>,
    upto: int,
    q: Seq<Seq<char>>,
)
    requires
        with_dirs(m, segs, upto).contains_key(q),
    ensures
        m.contains_key(q) || exists|k: int| 1 <= k <= upto && q == #[trigger] segs.take(k),
    decreases upto,
{
    if upto > 0 && q != segs.take(upto) {
        lemma_with_dirs_contains(m, segs, upto - 1, q);
    }
}

/// Inserting a node whose parent is a directory keeps the tree shape, as
/// long as a file never lands where a directory stands.
pub proof fn lemma_insert_preserves_wf(
    m: Map<Seq<Seq<char>>, FsNodeV>,
    p: Seq<Seq<char>>,
    v: FsNodeV,
)
    requires
        fs_wf(m),
        wf_path(p),
        p.len() > 1 ==> m.contains_key(p.drop_last()) && m[p.drop_last()] is Directory,
        v is File ==> !(m.contains_key(p) && m[p] is Directory),
    ensures
        fs_wf(m.insert(p, v)),
{
    let m2 = m.insert(p, v);
    assert forall|q: Seq<Seq<char>>| #[trigger] m2.contains_key(q) && q.len() > 1 implies m2.contains_key(
        q.drop_last(),
    ) && m2[q.drop_last()] is Directory by {
        if q == p {
        } else {
            assert(m.contains_key(q));
            if q.drop_last() == p {
                assert(m[p] is Directory);
                assert(v is Directory);
            }
        }
    }
}

proof fn lemma_map_has_node(s: Seq<FsNode>, i: int)
    requires
        0 <= i < s.len(),
        forall|j: int| i < j < s.len() ==> node_path(#[trigger] s[j]) != node_path(s[i]),
    ensures
        nodes_map(s).contains_key(node_path(s[i])),
        nodes_map(s)[node_path(s[i])] == s[i].kind@,
    decreases s.len(),
{
    if i < s.len() - 1 {
        assert(s.drop_last()[i] == s[i]);
        lemma_map_has_node(s.drop_last(), i);
    }
}

proof fn lemma_map_no_node(s: Seq<FsNode>, p: Seq<Seq<char>>)
    requires
        forall|i: int| 0 <= i < s.len() ==> node_path(#[trigger] s[i]) != p,
    ensures
        !nodes_map(s).contains_key(p),
    decreases s.len(),
{
    if s.len() > 0 {
        lemma_map_no_node(s.drop_last(), p);
    }
}

/// Parents come first: every node with more than one segment has a
/// directory node with its parent path at a smaller index, so replaying the
/// nodes in order creates every directory before anything under it.
pub open spec fn parents_first(s: Seq<FsNode>) -> bool {
    forall|x: int|
        0 <= x < s.len() && node_path(#[trigger] s[x]).len() > 1 ==> exists|j: int|
            0 <= j < x && node_path(#[trigger] s[j]) == node_path(s[x]).drop_last() && s[j].kind
                is Directory
}

proof fn lemma_map_key_has_node(s: Seq<FsNode>, p: Seq<Seq<char>>)
    requires
        nodes_map(s).contains_key(p),
    ensures
        exists|i: int| 0 <= i < s.len() && node_path(#[trigger] s[i]) == p,
    decreases s.len(),
{
    if s.len() > 0 {
        if node_path(s.last()) == p {
            assert(node_path(s[s.len() - 1]) == p);
        } else {
            lemma_map_key_has_node(s.drop_last(), p);
            let i = choose|i: int|
                0 <= i < s.drop_last().len() && node_path(#[trigger] s.drop_last()[i]) == p;
            assert(node_path(s[i]) == p);
        }
    }
}

proof fn lemma_parents_first_push(s: Seq<FsNode>, n: FsNode)
    requires
        parents_first(s),
        forall|x: int, y: int|
            0 <= x < y < s.len() ==> node_path(#[trigger] s[x]) != node_path(#[trigger] s[y]),
        node_path(n).len() > 1 ==> nodes_map(s).contains_key(node_path(n).drop_last())
            && nodes_map(s)[node_path(n).drop_last()] is Directory,
    ensures
        parents_first(s.push(n)),
{
    let s2 = s.push(n);
    assert forall|x: int|
        0 <= x < s2.len() && node_path(#[trigger] s2[x]).len() > 1 implies exists|j: int|
        0 <= j < x && node_path(#[trigger] s2[j]) == node_path(s2[x]).drop_last() && s2[j].kind
            is Directory by {
        if x < s.len() {
            assert(s2[x] == s[x]);
            let j = choose|j: int|
                0 <= j < x && node_path(#[trigger] s[j]) == node_path(s[x]).drop_last()
                    && s[j].kind is Directory;
            assert(s2[j] == s[j]);
        } else {
            assert(s2[x] == n);
            lemma_map_key_has_node(s, node_path(n).drop_last());
            let j = choose|j: int|
                0 <= j < s.len() && node_path(#[trigger] s[j]) == node_path(n).drop_last();
            lemma_map_has_node(s, j);
            if !(s[j].kind is Directory) {
                assert(s[j].kind@ is File);
            }
            assert(s2[j] == s[j]);
        }
    }
}

proof fn lemma_parents_first_update(s: Seq<FsNode>, i: int, n: FsNode)
    requires
        parents_first(s),
        0 <= i < s.len(),
        node_path(n) == node_path(s[i]),
        !(s[i].kind is Directory),
    ensures
        parents_first(s.update(i, n)),
{
    let s2 = s.update(i, n);
    assert forall|x: int|
        0 <= x < s2.len() && node_path(#[trigger] s2[x]).len() > 1 implies exists|j: int|
        0 <= j < x && node_path(#[trigger] s2[j]) == node_path(s2[x]).drop_last() && s2[j].kind
            is Directory by {
        assert(node_path(s2[x]) == node_path(s[x]));
        let j = choose|j: int|
            0 <= j < x && node_path(#[trigger] s[j]) == node_path(s[x]).drop_last() && s[j].kind
                is Directory;
        assert(j != i);
        assert(s2[j] == s[j]);
    }
}

proof fn lemma_map_push(s: Seq<FsNode>, n: FsNode)
    ensures
        nodes_map(s.push(n)) == nodes_map(s).insert(node_path(n), n.kind@),
{
    assert(s.push(n).drop_last() =~= s);
    assert(s.push(n).last() == n);
}

proof fn lemma_map_update(s: Seq<FsNode>, i: int, n: FsNode)
    requires
        0 <= i < s.len(),
        node_path(n) == node_path(s[i]),
        forall|x: int, y: int|
            0 <= x < y < s.len() ==> node_path(#[trigger] s[x]) != node_path(#[trigger] s[y]),
    ensures
        nodes_map(s.update(i, n)) == nodes_map(s).insert(node_path(n), n.kind@),
    decreases s.len(),
{
    let su = s.update(i, n);
    if i == s.len() - 1 {
        assert(su.drop_last() =~= s.drop_last());
        assert(su.last() == n);
        assert(nodes_map(su) =~= nodes_map(s).insert(node_path(n), n.kind@));
    } else {
        assert(su.drop_last() =~= s.drop_last().update(i, n));
        assert(su.last() == s.last());
        assert forall|x: int, y: int|
            0 <= x < y < s.drop_last().len() implies node_path(#[trigger] s.drop_last()[x])
            != node_path(#[trigger] s.drop_last()[y]) by {
            assert(s.drop_last()[x] == s[x]);
            assert(s.drop_last()[y] == s[y]);
        }
        assert(s.drop_last()[i] == s[i]);
        lemma_map_update(s.drop_last(), i, n);
        assert(node_path(s[i]) != node_path(s.last()));
        assert(nodes_map(su) =~= nodes_map(s).insert(node_path(n), n.kind@));
    }
}

/// The destination tree.
#[derive(Debug, PartialEq)]
pub struct FsTree {
    pub nodes: Vec<FsNode>,
}

impl View for FsTree {
    type V = Map<Seq<Seq<char>>, FsNodeV>;

    open spec fn view(&self) -> Map<Seq<Seq<char>>, FsNodeV> {
        nodes_map(self.nodes@)
    }
}

fn segs_eq(a: &Vec<String>, b: &Vec<String>) -> (r: bool)
    ensures
        r == (views_of(a@) == views_of(b@)),
{
    if a.len() != b.len() {
        return false;
    }
    let mut i: usize = 0;
    while i < a.len()
        invariant
            i <= a@.len(),
            a@.len() == b@.len(),
            forall|j: int| 0 <= j < i ==> #[trigger] a@[j]@ == b@[j]@,
        decreases a@.len() - i,
    {
        if !(a[i] == b[i]) {
            proof {
                assert(views_of(a@)[i as int] != views_of(b@)[i as int]);
            }
            return false;
        }
        i += 1;
    }
    proof {
        assert(views_of(a@) =~~= views_of(b@));
    }
    true
}

/// The first `upto` segments, as owned strings.
fn prefix_of(segs: &Vec<String>, upto: usize) -> (r: Vec<String>)
    requires
        upto <= segs@.len(),
    ensures
        views_of(r@) == views_of(segs@).take(upto as int),
{
    let mut r: Vec<String> = Vec::new();
    let mut j: usize = 0;
    proof {
        assert(views_of(r@) =~~= views_of(segs@).take(0));
    }
    while j < upto
        invariant
            j <= upto <= segs@.len(),
            views_of(r@) == views_of(segs@).take(j as int),
        decreases upto - j,
    {
        let s = segs[j].clone();
        proof {
            let grown = r@.push(s);
            assert(s@ == segs@[j as int]@);
            assert(views_of(grown) =~= views_of(r@).push(s@));
            assert(views_of(segs@).take(j as int + 1) =~= views_of(segs@).take(j as int).push(
                segs@[j as int]@,
            ));
        }
        r.push(s);
        j += 1;
    }
    r
}

impl FsTree {
    /// No two nodes share a path.
    pub open spec fn unique(&self) -> bool {
        forall|i: int, j: int|
            0 <= i < j < self.nodes@.len() ==> node_path(#[trigger] self.nodes@[i]) != node_path(
                #[trigger] self.nodes@[j],
            )
    }

    /// The tree's invariant: distinct paths, parents stored before their
    /// children, and a well-shaped map.
    pub open spec fn inv(&self) -> bool {
        self.unique() && parents_first(self.nodes@) && fs_wf(self@)
    }

    /// An empty destination tree.
    pub fn new() -> (t: FsTree)
        ensures
            t.inv(),
            t@ == Map::<Seq<Seq<char>>, FsNodeV>::empty(),
    {
        FsTree { nodes: Vec::new() }
    }

    fn find(&self, segs: &Vec<String>) -> (r: Option<usize>)
        requires
            self.inv(),
        ensures
            match r {
                Some(i) => {
                    &&& i < self.nodes@.len()
                    &&& node_path(self.nodes@[i as int]) == views_of(segs@)
                    &&& self@.contains_key(views_of(segs@))
                    &&& self@[views_of(segs@)] == self.nodes@[i as int].kind@
                },
                None => !self@.contains_key(views_of(segs@)),
            },
    {
        let mut i: usize = 0;
        while i < self.nodes.len()
            invariant
                self.inv(),
                i <= self.nodes@.len(),
                forall|j: int|
                    0 <= j < i ==> node_path(#[trigger] self.nodes@[j]) != views_of(segs@),
            decreases self.nodes@.len() - i,
        {
            if segs_eq(&self.nodes[i].segs, segs) {
                proof {
                    lemma_map_has_node(self.nodes@, i as int);
                }
                return Some(i);
            }
            i += 1;
        }
        proof {
            lemma_map_no_node(self.nodes@, views_of(segs@));
        }
        None
    }

    /// What stands at a path, if anything.
    pub fn get(&self, segs: &Vec<String>) -> (r: Option<&FsNodeKind>)
        requires
            self.inv(),
        ensures
            match r {
                Some(k) => self@.contains_key(views_of(segs@)) && k@ == self@[views_of(segs@)],
                None => !self@.contains_key(views_of(segs@)),
            },
    {
        match self.find(segs) {
            Some(i) => Some(&self.nodes[i].kind),
            None => None,
        }
    }

    /// Create a directory at every prefix of `segs` up to length `upto`.
    /// Idempotent over existing directories; fails, changing nothing, when
    /// an existing non-directory stands in the chain.
    #[verifier::rlimit(60)]
    pub fn create_dir_all(&mut self, segs: &Vec<String>, upto: usize) -> (ok: bool)
        requires
            old(self).inv(),
            upto <= segs@.len(),
            forall|k: int| 0 <= k < upto ==> seg_wf(#[trigger] segs@[k]@),
        ensures
            final(self).inv(),
            ok == chain_free(old(self)@, views_of(segs@), upto as int),
            ok ==> final(self)@ == with_dirs(old(self)@, views_of(segs@), upto as int),
            !ok ==> final(self)@ == old(self)@,
    {
        let ghost m0 = self@;
        let ghost pviews = views_of(segs@);
        let mut k: usize = 0;
        while k < upto
            invariant
                self == old(self),
                self.inv(),
                m0 == self@,
                pviews == views_of(segs@),
                upto <= segs@.len(),
                chain_free(m0, pviews, k as int),
            decreases upto - k,
        {
            let pref = prefix_of(segs, k + 1);
            match self.find(&pref) {
                Some(i) => {
                    match &self.nodes[i].kind {
                        FsNodeKind::Directory => {},
                        _ => {
                            proof {
                                assert(m0.contains_key(pviews.take(k + 1 as int)));
                                assert(!(m0[pviews.take(k + 1 as int)] is Directory));
                            }
                            return false;
                        },
                    }
                },
                None => {},
            }
            k += 1;
        }
        let mut k: usize = 0;
        proof {
            assert(self@ =~= with_dirs(m0, pviews, 0));
        }
        while k < upto
            invariant
                k <= upto,
                self.inv(),
                self@ == with_dirs(m0, pviews, k as int),
                pviews == views_of(segs@),
                upto <= segs@.len(),
                chain_free(m0, pviews, upto as int),
                forall|j: int| 0 <= j < upto ==> seg_wf(#[trigger] segs@[j]@),
            decreases upto - k,
        {
            let pref = prefix_of(segs, k + 1);
            let ghost p = pviews.take(k + 1 as int);
            proof {
                assert(wf_path(p)) by {
                    assert(forall|j: int| 0 <= j < k + 1 ==> p[j] == #[trigger] segs@[j]@);
                }
                if k > 0 {
                    assert(p.drop_last() =~= pviews.take(k as int));
                    lemma_with_dirs_prefix(m0, pviews, k as int, k as int);
                }
            }
            match self.find(&pref) {
                Some(_i) => {
                    proof {
                        // already present: by the checking pass it is a directory
                        assert forall|j: int| 1 <= j <= k implies p != #[trigger] pviews.take(
                            j,
                        ) by {
                            assert(pviews.take(j).len() == j);
                        }
                        lemma_with_dirs_other(m0, pviews, k as int, p);
                        assert(m0.contains_key(p) && m0[p] is Directory);
                        assert(self@[p] is Directory);
                        assert(with_dirs(m0, pviews, k + 1 as int) == with_dirs(
                            m0,
                            pviews,
                            k as int,
                        ).insert(p, FsNodeV::Directory));
                        assert(self@ =~= with_dirs(m0, pviews, k + 1 as int));
                    }
                },
                None => {
                    let node = FsNode { segs: pref, kind: FsNodeKind::Directory };
                    proof {
                        lemma_map_push(self.nodes@, node);
                        assert forall|j: int|
                            0 <= j < self.nodes@.len() implies node_path(#[trigger] self.nodes@[j])
                            != p by {
                            if node_path(self.nodes@[j]) == p {
                                lemma_map_has_node(self.nodes@, j);
                            }
                        }
                        lemma_insert_preserves_wf(self@, p, FsNodeV::Directory);
                        lemma_parents_first_push(self.nodes@, node);
                    }
                    self.nodes.push(node);
                },
            }
            k += 1;
        }
        proof {
            assert(self@ == with_dirs(m0, pviews, upto as int));
        }
        true
    }

    /// Place a file node at `segs`: overwrite an existing file, refuse an
    /// existing directory, create nothing else.
    pub fn set_file(&mut self, segs: Vec<String>, content: Vec<u8>, mode: Option<u32>) -> (ok:
        bool)
        requires
            old(self).inv(),
            wf_path(views_of(segs@)),
            views_of(segs@).len() > 1 ==> old(self)@.contains_key(views_of(segs@).drop_last())
                && old(self)@[views_of(segs@).drop_last()] is Directory,
        ensures
            final(self).inv(),
            ok == !(old(self)@.contains_key(views_of(segs@)) && old(self)@[views_of(segs@)]
                is Directory),
            ok ==> final(self)@ == old(self)@.insert(
                views_of(segs@),
                FsNodeV::File { content: content@, mode },
            ),
            !ok ==> final(self)@ == old(self)@,
    {
        let ghost p = views_of(segs@);
        let found = self.find(&segs);
        match found {
            Some(i) => {
                match &self.nodes[i].kind {
                    FsNodeKind::Directory => {
                        return false;
                    },
                    _ => {},
                }
                let node = FsNode { segs, kind: FsNodeKind::File { content, mode } };
                proof {
                    assert(!(self.nodes@[i as int].kind is Directory));
                    lemma_map_update(self.nodes@, i as int, node);
                    lemma_insert_preserves_wf(self@, p, node.kind@);
                    lemma_parents_first_update(self.nodes@, i as int, node);
                    assert forall|x: int, y: int|
                        0 <= x < y < self.nodes@.update(i as int, node).len() implies node_path(
                        #[trigger] self.nodes@.update(i as int, node)[x],
                    ) != node_path(#[trigger] self.nodes@.update(i as int, node)[y]) by {
                        assert(node_path(self.nodes@.update(i as int, node)[x]) == node_path(
                            self.nodes@[x],
                        ));
                        assert(node_path(self.nodes@.update(i as int, node)[y]) == node_path(
                            self.nodes@[y],
                        ));
                    }
                }
                self.nodes[i] = node;
                true
            },
            None => {
                let node = FsNode { segs, kind: FsNodeKind::File { content, mode } };
                proof {
                    lemma_map_push(self.nodes@, node);
                    assert forall|j: int|
                        0 <= j < self.nodes@.len() implies node_path(#[trigger] self.nodes@[j])
                        != p by {
                        if node_path(self.nodes@[j]) == p {
                            lemma_map_has_node(self.nodes@, j);
                        }
                    }
                    lemma_insert_preserves_wf(self@, p, node.kind@);
                    lemma_parents_first_push(self.nodes@, node);
                }
                self.nodes.push(node);
                true
            },
        }
    }
}

} // verus!
