//! The filesystem model the engine reconciles.
//!
//! Two directory trees — the repository working tree and the home
//! directory — are held as one flat collection of entries keyed by
//! absolute path. An entry is a regular file with its bytes or a symlink
//! with its target; a directory exists exactly where some entry lives
//! beneath its path, so empty directories are not represented. The
//! well-formedness invariant keeps paths distinct and keeps no entry
//! below another entry's path, just as a real tree would.

use vstd::prelude::*;
use crate::paths::{wf_path, under, str_eq, is_under};

verus! {

/// What occupies a path: a regular file with its content, or a symlink
/// with its target path.
pub enum Node {
    File(Vec<u8>),
    Link(String),
}

pub struct FsEntry {
    pub path: String,
    pub node: Node,
}

/// A snapshot of every file and symlink the engine can see.
pub struct Fs {
    pub entries: Vec<FsEntry>,
}

/// The node recorded for path `p`, later entries taking precedence.
/// Under `fs_wf` the path occurs at most once, so this is simply lookup.
pub open spec fn find(s: Seq<FsEntry>, p: Seq<char>) -> Option<Node>
    decreases s.len(),
{
    if s.len() == 0 {
        None
    } else if s.last().path@ == p {
        Some(s.last().node)
    } else {
        find(s.drop_last(), p)
    }
}

pub open spec fn has_path(s: Seq<FsEntry>, p: Seq<char>) -> bool {
    find(s, p) is Some
}

/// The bytes of the regular file at `p`, if a regular file sits there.
pub open spec fn content_at(s: Seq<FsEntry>, p: Seq<char>) -> Option<Seq<u8>> {
    match find(s, p) {
        Some(Node::File(c)) => Some(c@),
        _ => None,
    }
}

/// The target of the symlink at `p`, if a symlink sits there.
pub open spec fn link_at(s: Seq<FsEntry>, p: Seq<char>) -> Option<Seq<char>> {
    match find(s, p) {
        Some(Node::Link(t)) => Some(t@),
        _ => None,
    }
}

/// The bytes read through `p`: a file's own content, or the content of
/// the file a symlink at `p` points to.
pub open spec fn read_at(s: Seq<FsEntry>, p: Seq<char>) -> Option<Seq<u8>> {
    match find(s, p) {
        Some(Node::File(c)) => Some(c@),
        Some(Node::Link(t)) => content_at(s, t@),
        None => None,
    }
}

/// A directory exists at `q`: some entry lives strictly below it.
pub open spec fn dir_at(s: Seq<FsEntry>, q: Seq<char>) -> bool {
    exists|i: int| 0 <= i < s.len() && under(s[i].path@, q)
}

/// Some entry occupies a strict ancestor of `p`, so nothing can be
/// created at `p`.
pub open spec fn blocked(s: Seq<FsEntry>, p: Seq<char>) -> bool {
    exists|i: int| 0 <= i < s.len() && under(p, s[i].path@)
}

pub open spec fn paths_distinct(s: Seq<FsEntry>) -> bool {
    forall|i: int, j: int| 0 <= i < j < s.len() ==> s[i].path@ != s[j].path@
}

pub open spec fn no_nesting(s: Seq<FsEntry>) -> bool {
    forall|i: int, j: int|
        0 <= i < s.len() && 0 <= j < s.len() ==> !under(s[i].path@, s[j].path@)
}

pub open spec fn paths_wf(s: Seq<FsEntry>) -> bool {
    forall|i: int| 0 <= i < s.len() ==> wf_path(s[i].path@)
}

/// The tree shape a real filesystem would have: one entry per path, no
/// entry below another, every path absolute.
pub open spec fn fs_wf(s: Seq<FsEntry>) -> bool {
    paths_distinct(s) && no_nesting(s) && paths_wf(s)
}

pub proof fn lemma_find_at_index(s: Seq<FsEntry>, i: int)
    requires
        paths_distinct(s),
        0 <= i < s.len(),
    ensures
        find(s, s[i].path@) == Some(s[i].node),
    decreases s.len(),
{
    if i == s.len() - 1 {
    } else {
        assert(s.last().path@ != s[i].path@);
        assert(s.drop_last()[i] == s[i]);
        lemma_find_at_index(s.drop_last(), i);
    }
}

pub proof fn lemma_find_index(s: Seq<FsEntry>, q: Seq<char>)
    requires
        find(s, q) is Some,
    ensures
        exists|i: int|
            0 <= i < s.len() && s[i].path@ == q && s[i].node == find(s, q).unwrap(),
    decreases s.len(),
{
    if s.len() > 0 {
        if s.last().path@ == q {
            assert(s[s.len() - 1].path@ == q);
        } else {
            lemma_find_index(s.drop_last(), q);
            let i = choose|i: int|
                0 <= i < s.drop_last().len() && s.drop_last()[i].path@ == q
                    && s.drop_last()[i].node == find(s.drop_last(), q).unwrap();
            assert(s[i] == s.drop_last()[i]);
        }
    }
}

/// `p` names the path `d` itself or a path below it: what removing the
/// tree at `d` takes away.
pub open spec fn covers(p: Seq<char>, d: Seq<char>) -> bool {
    p == d || under(p, d)
}

/// `s` with the entry at `d` and everything below `d` taken out.
pub open spec fn pruned(s: Seq<FsEntry>, d: Seq<char>) -> Seq<FsEntry>
    decreases s.len(),
{
    if s.len() == 0 {
        Seq::empty()
    } else {
        let rest = pruned(s.drop_last(), d);
        if covers(s.last().path@, d) {
            rest
        } else {
            rest.push(s.last())
        }
    }
}

pub open spec fn rev(s: Seq<FsEntry>) -> Seq<FsEntry>
    decreases s.len(),
{
    if s.len() == 0 {
        Seq::empty()
    } else {
        seq![s.last()] + rev(s.drop_last())
    }
}

pub proof fn lemma_pruned_membership(s: Seq<FsEntry>, d: Seq<char>)
    ensures
        forall|k: int|
            #![trigger pruned(s, d)[k]]
            0 <= k < pruned(s, d).len()
                ==> exists|i: int| 0 <= i < s.len() && pruned(s, d)[k] == s[i],
    decreases s.len(),
{
    if s.len() > 0 {
        lemma_pruned_membership(s.drop_last(), d);
        assert forall|k: int| #![trigger pruned(s, d)[k]] 0 <= k < pruned(s, d).len()
            implies exists|i: int| 0 <= i < s.len() && pruned(s, d)[k] == s[i] by {
            let rest = pruned(s.drop_last(), d);
            if k < rest.len() {
                let i = choose|i: int|
                    0 <= i < s.drop_last().len() && rest[k] == s.drop_last()[i];
                assert(s.drop_last()[i] == s[i]);
                assert(pruned(s, d)[k] == s[i]);
            } else {
                assert(pruned(s, d)[k] == s[s.len() - 1]);
            }
        }
    }
}

pub proof fn lemma_pruned_wf(s: Seq<FsEntry>, d: Seq<char>)
    requires
        fs_wf(s),
    ensures
        fs_wf(pruned(s, d)),
    decreases s.len(),
{
    if s.len() > 0 {
        assert(fs_wf(s.drop_last()));
        lemma_pruned_wf(s.drop_last(), d);
        if !covers(s.last().path@, d) {
            let rest = pruned(s.drop_last(), d);
            lemma_pruned_membership(s.drop_last(), d);
            let e = s.last();
            assert forall|k: int| 0 <= k < rest.len()
                implies rest[k].path@ != e.path@ && !under(rest[k].path@, e.path@)
                    && !under(e.path@, rest[k].path@) by {
                let i = choose|i: int|
                    0 <= i < s.drop_last().len() && rest[k] == s.drop_last()[i];
                assert(s[i] == s.drop_last()[i]);
            }
        }
    }
}

pub proof fn lemma_pruned_find(s: Seq<FsEntry>, d: Seq<char>, q: Seq<char>)
    ensures
        find(pruned(s, d), q) == if covers(q, d) {
            None::<Node>
        } else {
            find(s, q)
        },
    decreases s.len(),
{
    if s.len() > 0 {
        lemma_pruned_find(s.drop_last(), d, q);
        let rest = pruned(s.drop_last(), d);
        if !covers(s.last().path@, d) {
            assert(pruned(s, d) == rest.push(s.last()));
            assert(rest.push(s.last()).drop_last() =~= rest);
        }
    }
}

/// A write that touched only the path `w` and its subtree leaves every
/// query about a separate path `p` — lookup, directory existence,
/// ancestor occupancy — exactly as it was.
pub proof fn lemma_queries_frame(a: Seq<FsEntry>, b: Seq<FsEntry>, w: Seq<char>, p: Seq<char>)
    requires
        paths_distinct(a),
        paths_distinct(b),
        wf_path(w),
        wf_path(p),
        forall|q: Seq<char>| !covers(q, w) ==> find(b, q) == find(a, q),
        p != w,
        !under(p, w),
        !under(w, p),
    ensures
        find(b, p) == find(a, p),
        blocked(b, p) == blocked(a, p),
        dir_at(b, p) == dir_at(a, p),
{
    assert(!covers(p, w));
    if blocked(b, p) {
        let i = choose|i: int| 0 <= i < b.len() && under(p, b[i].path@);
        let x = b[i].path@;
        lemma_find_at_index(b, i);
        assert(!covers(x, w)) by {
            if under(x, w) {
                crate::paths::lemma_under_trans(p, x, w);
            }
        }
        assert(find(a, x) is Some);
        lemma_find_index(a, x);
        assert(blocked(a, p));
    }
    if blocked(a, p) {
        let i = choose|i: int| 0 <= i < a.len() && under(p, a[i].path@);
        let x = a[i].path@;
        lemma_find_at_index(a, i);
        assert(!covers(x, w)) by {
            if under(x, w) {
                crate::paths::lemma_under_trans(p, x, w);
            }
        }
        assert(find(b, x) is Some);
        lemma_find_index(b, x);
        assert(blocked(b, p));
    }
    if dir_at(b, p) {
        let i = choose|i: int| 0 <= i < b.len() && under(b[i].path@, p);
        let x = b[i].path@;
        lemma_find_at_index(b, i);
        assert(!covers(x, w)) by {
            if x == w {
                assert(under(w, p));
            }
            if under(x, w) {
                crate::paths::lemma_common_descendant(x, w, p);
            }
        }
        assert(find(a, x) is Some);
        lemma_find_index(a, x);
        assert(dir_at(a, p));
    }
    if dir_at(a, p) {
        let i = choose|i: int| 0 <= i < a.len() && under(a[i].path@, p);
        let x = a[i].path@;
        lemma_find_at_index(a, i);
        assert(!covers(x, w)) by {
            if x == w {
                assert(under(w, p));
            }
            if under(x, w) {
                crate::paths::lemma_common_descendant(x, w, p);
            }
        }
        assert(find(b, x) is Some);
        lemma_find_index(b, x);
        assert(dir_at(b, p));
    }
}

/// Writes confined to the subtree of `broot` leave every query about a
/// path separate from `broot` — lookup, directory existence, ancestor
/// occupancy — exactly as it was.
pub proof fn lemma_queries_frame_subtree(
    a: Seq<FsEntry>,
    b: Seq<FsEntry>,
    broot: Seq<char>,
    p: Seq<char>,
)
    requires
        paths_distinct(a),
        paths_distinct(b),
        wf_path(broot),
        wf_path(p),
        forall|q: Seq<char>| !under(q, broot) ==> find(b, q) == find(a, q),
        p != broot,
        !under(p, broot),
        !under(broot, p),
    ensures
        find(b, p) == find(a, p),
        blocked(b, p) == blocked(a, p),
        dir_at(b, p) == dir_at(a, p),
{
    if blocked(b, p) {
        let i = choose|i: int| 0 <= i < b.len() && under(p, b[i].path@);
        let x = b[i].path@;
        lemma_find_at_index(b, i);
        assert(!under(x, broot)) by {
            if under(x, broot) {
                crate::paths::lemma_under_trans(p, x, broot);
            }
        }
        assert(find(a, x) is Some);
        lemma_find_index(a, x);
        assert(blocked(a, p));
    }
    if blocked(a, p) {
        let i = choose|i: int| 0 <= i < a.len() && under(p, a[i].path@);
        let x = a[i].path@;
        lemma_find_at_index(a, i);
        assert(!under(x, broot)) by {
            if under(x, broot) {
                crate::paths::lemma_under_trans(p, x, broot);
            }
        }
        assert(find(b, x) is Some);
        lemma_find_index(b, x);
        assert(blocked(b, p));
    }
    if dir_at(b, p) {
        let i = choose|i: int| 0 <= i < b.len() && under(b[i].path@, p);
        let x = b[i].path@;
        lemma_find_at_index(b, i);
        assert(!under(x, broot)) by {
            if under(x, broot) {
                crate::paths::lemma_common_descendant(x, broot, p);
            }
        }
        assert(find(a, x) is Some);
        lemma_find_index(a, x);
        assert(dir_at(a, p));
    }
    if dir_at(a, p) {
        let i = choose|i: int| 0 <= i < a.len() && under(a[i].path@, p);
        let x = a[i].path@;
        lemma_find_at_index(a, i);
        assert(!under(x, broot)) by {
            if under(x, broot) {
                crate::paths::lemma_common_descendant(x, broot, p);
            }
        }
        assert(find(b, x) is Some);
        lemma_find_index(b, x);
        assert(dir_at(b, p));
    }
}

impl Fs {
    pub fn new() -> (r: Fs)
        ensures
            r.entries@.len() == 0,
            fs_wf(r.entries@),
    {
        Fs { entries: Vec::new() }
    }

    /// The position of the entry for `p`, scanning as `find` does.
    fn index_of(&self, p: &String) -> (r: Option<usize>)
        ensures
            match r {
                Some(i) => {
                    &&& i < self.entries@.len()
                    &&& self.entries@[i as int].path@ == p@
                    &&& find(self.entries@, p@) == Some(self.entries@[i as int].node)
                },
                None => {
                    &&& find(self.entries@, p@) is None
                    &&& forall|k: int| 0 <= k < self.entries@.len()
                        ==> self.entries@[k].path@ != p@
                },
            },
    {
        let s = &self.entries;
        let mut j: usize = s.len();
        proof {
            assert(s@.take(j as int) =~= s@);
        }
        while j > 0
            invariant
                s@ == self.entries@,
                0 <= j <= s@.len(),
                find(s@, p@) == find(s@.take(j as int), p@),
                forall|k: int| j <= k < s@.len() ==> s@[k].path@ != p@,
            decreases j,
        {
            j -= 1;
            proof {
                assert(s@.take(j + 1).len() == j + 1);
                assert(s@.take(j + 1).last() == s@[j as int]);
                assert(s@.take(j + 1).drop_last() =~= s@.take(j as int));
            }
            if str_eq(&s[j].path, p) {
                proof {
                    assert(find(s@.take(j + 1), p@) == Some(s@[j as int].node));
                    assert(find(s@, p@) == Some(s@[j as int].node));
                    assert(s@[j as int].path@ == p@);
                }
                return Some(j);
            }
        }
        proof {
            assert(s@.take(0) =~= Seq::<FsEntry>::empty());
        }
        None
    }

    /// Whether any entry occupies exactly `p`.
    pub fn exists_entry(&self, p: &String) -> (b: bool)
        ensures
            b == has_path(self.entries@, p@),
    {
        self.index_of(p).is_some()
    }

    /// Whether a symlink occupies `p`.
    pub fn is_link(&self, p: &String) -> (b: bool)
        ensures
            b == (link_at(self.entries@, p@) is Some),
    {
        match self.index_of(p) {
            Some(i) => match &self.entries[i].node {
                Node::Link(_) => true,
                Node::File(_) => false,
            },
            None => false,
        }
    }

    /// The target of the symlink at `p`, if a symlink sits there.
    pub fn link_target(&self, p: &String) -> (r: Option<String>)
        ensures
            r matches Some(t) ==> link_at(self.entries@, p@) == Some(t@),
            r is None ==> link_at(self.entries@, p@) is None,
    {
        match self.index_of(p) {
            Some(i) => match &self.entries[i].node {
                Node::Link(t) => Some(t.clone()),
                Node::File(_) => None,
            },
            None => None,
        }
    }

    /// Whether a regular file occupies `p` itself.
    pub fn is_file(&self, p: &String) -> (b: bool)
        ensures
            b == (content_at(self.entries@, p@) is Some),
    {
        match self.index_of(p) {
            Some(i) => match &self.entries[i].node {
                Node::File(_) => true,
                Node::Link(_) => false,
            },
            None => false,
        }
    }

    /// The bytes read through `p`, following one symlink as a copy would.
    pub fn read(&self, p: &String) -> (r: Option<Vec<u8>>)
        ensures
            r is Some <==> read_at(self.entries@, p@) is Some,
            r matches Some(v) ==> read_at(self.entries@, p@) == Some(v@),
    {
        match self.index_of(p) {
            Some(i) => match &self.entries[i].node {
                Node::File(c) => {
                    let v = c.clone();
                    proof {
                        assert(v@ =~= c@);
                    }
                    Some(v)
                },
                Node::Link(t) => {
                    let t = t.clone();
                    match self.index_of(&t) {
                        Some(k) => match &self.entries[k].node {
                            Node::File(c) => {
                                let v = c.clone();
                                proof {
                                    assert(v@ =~= c@);
                                }
                                Some(v)
                            },
                            Node::Link(_) => None,
                        },
                        None => None,
                    }
                },
            },
            None => None,
        }
    }

    /// Whether a directory exists at `q` (some entry lives below it).
    pub fn has_dir(&self, q: &String) -> (b: bool)
        ensures
            b == dir_at(self.entries@, q@),
    {
        let s = &self.entries;
        let n: usize = s.len();
        let mut i: usize = 0;
        while i < n
            invariant
                s@ == self.entries@,
                0 <= i <= n,
                n == s@.len(),
                forall|k: int| 0 <= k < i ==> !under(s@[k].path@, q@),
            decreases n - i,
        {
            if is_under(&s[i].path, q) {
                proof {
                    assert(under(s@[i as int].path@, q@));
                    assert(dir_at(s@, q@));
                }
                return true;
            }
            i += 1;
        }
        false
    }

    /// Whether an entry occupies a strict ancestor of `p`.
    pub fn is_blocked(&self, p: &String) -> (b: bool)
        ensures
            b == blocked(self.entries@, p@),
    {
        let s = &self.entries;
        let n: usize = s.len();
        let mut i: usize = 0;
        while i < n
            invariant
                s@ == self.entries@,
                0 <= i <= n,
                n == s@.len(),
                forall|k: int| 0 <= k < i ==> !under(p@, s@[k].path@),
            decreases n - i,
        {
            if is_under(p, &s[i].path) {
                proof {
                    assert(under(p@, s@[i as int].path@));
                    assert(blocked(s@, p@));
                }
                return true;
            }
            i += 1;
        }
        false
    }

    /// Whether the entries form the tree shape `fs_wf` asks for — the
    /// check a caller runs on a fresh snapshot before trusting it.
    pub fn check_wf(&self) -> (b: bool)
        ensures
            b == fs_wf(self.entries@),
    {
        let s = &self.entries;
        let n: usize = s.len();
        let mut i: usize = 0;
        while i < n
            invariant
                s@ == self.entries@,
                0 <= i <= n,
                n == s@.len(),
                forall|k: int| 0 <= k < i ==> wf_path(s@[k].path@),
            decreases n - i,
        {
            if !crate::paths::is_wf_path(&s[i].path) {
                return false;
            }
            i += 1;
        }
        let mut i: usize = 0;
        while i < n
            invariant
                s@ == self.entries@,
                0 <= i <= n,
                n == s@.len(),
                paths_wf(s@),
                forall|k1: int, k2: int|
                    #![trigger s@[k1], s@[k2]]
                    0 <= k1 < i && 0 <= k2 < n ==> (k1 != k2 ==> s@[k1].path@ != s@[k2].path@)
                        && !under(s@[k1].path@, s@[k2].path@) && !under(
                        s@[k2].path@,
                        s@[k1].path@,
                    ),
            decreases n - i,
        {
            let mut j: usize = 0;
            while j < n
                invariant
                    s@ == self.entries@,
                    0 <= i < n,
                    0 <= j <= n,
                    n == s@.len(),
                    forall|k1: int, k2: int|
                        #![trigger s@[k1], s@[k2]]
                        0 <= k1 < i && 0 <= k2 < n ==> (k1 != k2 ==> s@[k1].path@
                            != s@[k2].path@) && !under(s@[k1].path@, s@[k2].path@) && !under(
                            s@[k2].path@,
                            s@[k1].path@,
                        ),
                    forall|k2: int|
                        #![trigger s@[k2]]
                        0 <= k2 < j ==> (i != k2 ==> s@[i as int].path@ != s@[k2].path@)
                            && !under(s@[i as int].path@, s@[k2].path@) && !under(
                            s@[k2].path@,
                            s@[i as int].path@,
                        ),
                decreases n - j,
            {
                if i != j && str_eq(&s[i].path, &s[j].path) {
                    return false;
                }
                if is_under(&s[i].path, &s[j].path) || is_under(&s[j].path, &s[i].path) {
                    return false;
                }
                j += 1;
            }
            proof {
                assert forall|k1: int, k2: int|
                    #![trigger s@[k1], s@[k2]]
                    0 <= k1 < i + 1 && 0 <= k2 < n implies (k1 != k2 ==> s@[k1].path@
                    != s@[k2].path@) && !under(s@[k1].path@, s@[k2].path@) && !under(
                    s@[k2].path@,
                    s@[k1].path@,
                ) by {
                    if k1 == i {
                    }
                }
            }
            i += 1;
        }
        proof {
            assert(paths_distinct(s@)) by {
                assert forall|k1: int, k2: int| 0 <= k1 < k2 < s@.len() implies s@[k1].path@
                    != s@[k2].path@ by {
                    assert(k1 != k2);
                }
            }
        }
        true
    }

    /// Remove the entry at `p` and every entry below `p`, as deleting a
    /// file or a whole directory does.
    pub fn remove_subtree(&mut self, p: &String)
        requires
            fs_wf(old(self).entries@),
        ensures
            fs_wf(final(self).entries@),
            final(self).entries@ == pruned(old(self).entries@, p@),
            forall|q: Seq<char>|
                #![trigger find(final(self).entries@, q)]
                covers(q, p@) ==> find(final(self).entries@, q) is None,
            forall|q: Seq<char>|
                #![trigger find(final(self).entries@, q)]
                !covers(q, p@) ==> find(final(self).entries@, q) == find(old(self).entries@, q),
            !dir_at(final(self).entries@, p@),
            blocked(final(self).entries@, p@) == blocked(old(self).entries@, p@),
    {
        let ghost orig = self.entries@;
        let mut kept: Vec<FsEntry> = Vec::new();
        proof {
            assert(rev(kept@) =~= Seq::<FsEntry>::empty());
            assert(pruned(orig, p@) + rev(kept@) =~= pruned(orig, p@));
        }
        while self.entries.len() > 0
            invariant
                pruned(orig, p@) == pruned(self.entries@, p@) + rev(kept@),
            decreases self.entries@.len(),
        {
            let ghost pre = self.entries@;
            let ghost kpre = kept@;
            let e = self.entries.pop().unwrap();
            proof {
                assert(pre =~= self.entries@.push(e));
                assert(self.entries@.push(e).drop_last() =~= self.entries@);
            }
            if str_eq(&e.path, p) || is_under(&e.path, p) {
                proof {
                    assert(covers(e.path@, p@));
                    assert(pruned(pre, p@) == pruned(self.entries@, p@));
                }
            } else {
                kept.push(e);
                proof {
                    assert(pruned(pre, p@) == pruned(self.entries@, p@).push(e));
                    assert(kept@ =~= kpre.push(e));
                    assert(kpre.push(e).drop_last() =~= kpre);
                    assert(rev(kept@) == seq![e] + rev(kpre));
                    assert(pruned(self.entries@, p@).push(e) + rev(kpre) =~= pruned(
                        self.entries@,
                        p@,
                    ) + (seq![e] + rev(kpre)));
                }
            }
        }
        proof {
            assert(self.entries@ =~= Seq::<FsEntry>::empty());
            assert(pruned(self.entries@, p@) == Seq::<FsEntry>::empty());
            assert(pruned(orig, p@) =~= rev(kept@));
        }
        while kept.len() > 0
            invariant
                pruned(orig, p@) == self.entries@ + rev(kept@),
            decreases kept@.len(),
        {
            let ghost kpre = kept@;
            let ghost epre = self.entries@;
            let e = kept.pop().unwrap();
            proof {
                assert(kpre =~= kept@.push(e));
                assert(kept@.push(e).drop_last() =~= kept@);
                assert(rev(kpre) == seq![e] + rev(kept@));
            }
            self.entries.push(e);
            proof {
                assert(self.entries@ =~= epre.push(e));
                assert(epre + (seq![e] + rev(kept@)) =~= epre.push(e) + rev(kept@));
            }
        }
        proof {
            assert(rev(kept@) =~= Seq::<FsEntry>::empty());
            assert(self.entries@ =~= pruned(orig, p@));
            lemma_pruned_wf(orig, p@);
            assert forall|q: Seq<char>| true implies find(self.entries@, q) == if covers(
                q,
                p@,
            ) {
                None::<Node>
            } else {
                find(orig, q)
            } by {
                lemma_pruned_find(orig, p@, q);
            }
            if dir_at(self.entries@, p@) {
                let i = choose|i: int|
                    0 <= i < self.entries@.len() && under(self.entries@[i].path@, p@);
                lemma_find_at_index(self.entries@, i);
            }
            if blocked(self.entries@, p@) {
                let i = choose|i: int|
                    0 <= i < self.entries@.len() && under(p@, self.entries@[i].path@);
                lemma_find_at_index(self.entries@, i);
                let x = self.entries@[i].path@;
                assert(find(orig, x) is Some);
                lemma_find_index(orig, x);
            }
            if blocked(orig, p@) {
                let i = choose|i: int| 0 <= i < orig.len() && under(p@, orig[i].path@);
                lemma_find_at_index(orig, i);
                let x = orig[i].path@;
                assert(!covers(x, p@));
                assert(find(self.entries@, x) is Some);
                lemma_find_index(self.entries@, x);
            }
        }
    }

    /// Put a regular file with `content` at `p`, replacing whatever file
    /// or symlink sat there.
    pub fn set_file(&mut self, p: &String, content: Vec<u8>)
        requires
            fs_wf(old(self).entries@),
            wf_path(p@),
            !blocked(old(self).entries@, p@),
            !dir_at(old(self).entries@, p@),
        ensures
            fs_wf(final(self).entries@),
            find(final(self).entries@, p@) == Some(Node::File(content)),
            forall|q: Seq<char>|
                q != p@ ==> find(final(self).entries@, q) == find(old(self).entries@, q),
    {
        self.place(p, Node::File(content));
    }

    /// Put a symlink to `target` at `p`, replacing whatever file or
    /// symlink sat there.
    pub fn set_link(&mut self, p: &String, target: &String)
        requires
            fs_wf(old(self).entries@),
            wf_path(p@),
            !blocked(old(self).entries@, p@),
            !dir_at(old(self).entries@, p@),
        ensures
            fs_wf(final(self).entries@),
            link_at(final(self).entries@, p@) == Some(target@),
            forall|q: Seq<char>|
                q != p@ ==> find(final(self).entries@, q) == find(old(self).entries@, q),
    {
        self.place(p, Node::Link(target.clone()));
    }

    /// The shared body of `set_file` and `set_link`.
    fn place(&mut self, p: &String, node: Node)
        requires
            fs_wf(old(self).entries@),
            wf_path(p@),
            !blocked(old(self).entries@, p@),
            !dir_at(old(self).entries@, p@),
        ensures
            fs_wf(final(self).entries@),
            find(final(self).entries@, p@) == Some(node),
            forall|q: Seq<char>|
                q != p@ ==> find(final(self).entries@, q) == find(old(self).entries@, q),
    {
        let ghost orig = self.entries@;
        self.remove_subtree(p);
        let ghost mid = self.entries@;
        let entry = FsEntry { path: p.clone(), node };
        self.entries.push(entry);
        proof {
            assert(self.entries@ =~= mid.push(entry));
            assert(mid.push(entry).drop_last() =~= mid);
            assert(self.entries@.last() == entry);
            assert(find(self.entries@, p@) == Some(entry.node));
            // no old entry sits at, below, or above p
            assert forall|k: int| 0 <= k < mid.len()
                implies mid[k].path@ != p@ && !under(mid[k].path@, p@) && !under(
                    p@,
                    mid[k].path@,
                ) by {
                lemma_find_at_index(mid, k);
                assert(find(mid, mid[k].path@) is Some);
                if mid[k].path@ == p@ || under(mid[k].path@, p@) {
                    assert(covers(mid[k].path@, p@));
                    assert(find(mid, mid[k].path@) is None);
                }
                if under(p@, mid[k].path@) {
                    assert(blocked(mid, p@));
                }
            }
            assert forall|q: Seq<char>| q != p@ implies find(self.entries@, q) == find(
                orig,
                q,
            ) by {
                assert(find(self.entries@, q) == find(mid, q));
                if covers(q, p@) {
                    assert(under(q, p@));
                    assert(find(mid, q) is None);
                    if find(orig, q) is Some {
                        lemma_find_index(orig, q);
                        assert(dir_at(orig, p@));
                    }
                } else {
                    assert(find(mid, q) == find(orig, q));
                }
            }
            assert(paths_distinct(self.entries@));
            assert(no_nesting(self.entries@));
            assert(paths_wf(self.entries@));
        }
    }
}

} // verus!
