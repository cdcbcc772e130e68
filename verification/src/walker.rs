//! Walking two trees in lockstep.
//!
//! `walk_equal` enumerates every file under a source root that the
//! ignore set does not hide, pairing each with its mirror path under a
//! destination root. Its companion, the shared-directory view, picks out
//! the files sitting directly in a destination directory whose
//! counterpart exists under the source root — the way destination-only
//! files are discovered without assuming the trees mirror each other.

use vstd::prelude::*;
use crate::paths::{under, joined, rel_of, ignored, is_under, is_ignored, rel_part, join, str_eq};
use crate::fs::{Fs, FsEntry, Node, fs_wf, dir_at, read_at};
use vstd::string::StrSliceExecFns;

verus! {

/// One visit of the walk: a source file, its mirror under the
/// destination root, and the path relative to both roots.
pub struct Visit {
    pub src: String,
    pub dest: String,
    pub rel: String,
}

/// Whether the walk over `src_root` visits entry `e`: a regular file
/// below the root that the ignore set does not hide.
pub open spec fn selected(e: FsEntry, src_root: Seq<char>, igs: Seq<String>) -> bool {
    &&& e.node is File
    &&& under(e.path@, src_root)
    &&& !ignored(e.path@, igs)
}

/// The entries the walk visits, in recording order.
pub open spec fn walk_seq(s: Seq<FsEntry>, src_root: Seq<char>, igs: Seq<String>) -> Seq<
    FsEntry,
>
    decreases s.len(),
{
    if s.len() == 0 {
        Seq::empty()
    } else {
        let rest = walk_seq(s.drop_last(), src_root, igs);
        if selected(s.last(), src_root, igs) {
            rest.push(s.last())
        } else {
            rest
        }
    }
}

pub proof fn lemma_walk_membership(s: Seq<FsEntry>, src_root: Seq<char>, igs: Seq<String>)
    ensures
        forall|k: int|
            #![trigger walk_seq(s, src_root, igs)[k]]
            0 <= k < walk_seq(s, src_root, igs).len() ==> selected(
                walk_seq(s, src_root, igs)[k],
                src_root,
                igs,
            ) && exists|i: int| 0 <= i < s.len() && walk_seq(s, src_root, igs)[k] == s[i],
    decreases s.len(),
{
    if s.len() > 0 {
        lemma_walk_membership(s.drop_last(), src_root, igs);
        let w = walk_seq(s, src_root, igs);
        let rest = walk_seq(s.drop_last(), src_root, igs);
        assert forall|k: int| #![trigger w[k]] 0 <= k < w.len() implies selected(
            w[k],
            src_root,
            igs,
        ) && exists|i: int| 0 <= i < s.len() && w[k] == s[i] by {
            if k < rest.len() {
                assert(w[k] == rest[k]);
                let i = choose|i: int|
                    0 <= i < s.drop_last().len() && rest[k] == s.drop_last()[i];
                assert(s.drop_last()[i] == s[i]);
            } else {
                assert(w[k] == s[s.len() - 1]);
            }
        }
    }
}

/// Every file the walk should visit is visited: an unignored file below
/// the source root appears in the walk.
pub proof fn lemma_walk_complete(
    s: Seq<FsEntry>,
    src_root: Seq<char>,
    igs: Seq<String>,
    i: int,
)
    requires
        0 <= i < s.len(),
        selected(s[i], src_root, igs),
    ensures
        exists|k: int|
            0 <= k < walk_seq(s, src_root, igs).len() && walk_seq(s, src_root, igs)[k] == s[i],
    decreases s.len(),
{
    let w = walk_seq(s, src_root, igs);
    if i == s.len() - 1 {
        let rest = walk_seq(s.drop_last(), src_root, igs);
        assert(w[rest.len() as int] == s[i]);
    } else {
        assert(s.drop_last()[i] == s[i]);
        lemma_walk_complete(s.drop_last(), src_root, igs, i);
        let rest = walk_seq(s.drop_last(), src_root, igs);
        let k = choose|k: int| 0 <= k < rest.len() && rest[k] == s[i];
        assert(w[k] == s[i]);
    }
}

/// The ignore guarantee: no visit of the walk falls on an ignored path,
/// nor on any path below an ignored path.
pub proof fn lemma_walk_skips_ignored(s: Seq<FsEntry>, src_root: Seq<char>, igs: Seq<String>)
    ensures
        forall|k: int|
            #![trigger walk_seq(s, src_root, igs)[k]]
            0 <= k < walk_seq(s, src_root, igs).len() ==> !ignored(
                walk_seq(s, src_root, igs)[k].path@,
                igs,
            ),
{
    lemma_walk_membership(s, src_root, igs);
}

/// In a well-formed tree the visited source paths are pairwise distinct
/// and none lies below another, so their destination mirrors are too.
pub proof fn lemma_walk_wf(s: Seq<FsEntry>, src_root: Seq<char>, igs: Seq<String>)
    requires
        fs_wf(s),
    ensures
        forall|k1: int, k2: int|
            #![trigger walk_seq(s, src_root, igs)[k1], walk_seq(s, src_root, igs)[k2]]
            0 <= k1 < walk_seq(s, src_root, igs).len() && 0 <= k2 < walk_seq(
                s,
                src_root,
                igs,
            ).len() && k1 != k2 ==> walk_seq(s, src_root, igs)[k1].path@ != walk_seq(
                s,
                src_root,
                igs,
            )[k2].path@ && !under(
                walk_seq(s, src_root, igs)[k1].path@,
                walk_seq(s, src_root, igs)[k2].path@,
            ),
    decreases s.len(),
{
    if s.len() > 0 {
        assert(fs_wf(s.drop_last()));
        lemma_walk_wf(s.drop_last(), src_root, igs);
        lemma_walk_membership(s.drop_last(), src_root, igs);
        let w = walk_seq(s, src_root, igs);
        let rest = walk_seq(s.drop_last(), src_root, igs);
        assert forall|k1: int, k2: int|
            #![trigger w[k1], w[k2]]
            0 <= k1 < w.len() && 0 <= k2 < w.len() && k1 != k2 implies w[k1].path@
            != w[k2].path@ && !under(w[k1].path@, w[k2].path@) by {
            if selected(s.last(), src_root, igs) {
                if k1 < rest.len() && k2 < rest.len() {
                    assert(w[k1] == rest[k1] && w[k2] == rest[k2]);
                } else if k1 < rest.len() {
                    assert(w[k2] == s[s.len() - 1] && w[k1] == rest[k1]);
                    let i = choose|i: int|
                        0 <= i < s.drop_last().len() && rest[k1] == s.drop_last()[i];
                    assert(s.drop_last()[i] == s[i]);
                } else {
                    assert(w[k1] == s[s.len() - 1] && w[k2] == rest[k2]);
                    let i = choose|i: int|
                        0 <= i < s.drop_last().len() && rest[k2] == s.drop_last()[i];
                    assert(s.drop_last()[i] == s[i]);
                }
            } else {
                assert(w[k1] == rest[k1] && w[k2] == rest[k2]);
            }
        }
    }
}

/// Enumerate every unignored file below `src_root`, pairing each with
/// its mirror below `dest_root`. A source root with nothing beneath it
/// yields no visits.
pub fn walk_equal(fs: &Fs, src_root: &String, dest_root: &String, igs: &Vec<String>) -> (r:
    Vec<Visit>)
    ensures
        r@.len() == walk_seq(fs.entries@, src_root@, igs@).len(),
        forall|k: int|
            #![trigger r@[k]]
            0 <= k < r@.len() ==> {
                let e = walk_seq(fs.entries@, src_root@, igs@)[k];
                &&& r@[k].src@ == e.path@
                &&& r@[k].rel@ == rel_of(e.path@, src_root@)
                &&& r@[k].dest@ == joined(dest_root@, rel_of(e.path@, src_root@))
            },
{
    let mut r: Vec<Visit> = Vec::new();
    let n: usize = fs.entries.len();
    let mut i: usize = 0;
    proof {
        assert(fs.entries@.take(0) =~= Seq::<FsEntry>::empty());
    }
    while i < n
        invariant
            0 <= i <= n,
            n == fs.entries@.len(),
            r@.len() == walk_seq(fs.entries@.take(i as int), src_root@, igs@).len(),
            forall|k: int|
                #![trigger r@[k]]
                0 <= k < r@.len() ==> {
                    let e = walk_seq(fs.entries@.take(i as int), src_root@, igs@)[k];
                    &&& r@[k].src@ == e.path@
                    &&& r@[k].rel@ == rel_of(e.path@, src_root@)
                    &&& r@[k].dest@ == joined(dest_root@, rel_of(e.path@, src_root@))
                },
        decreases n - i,
    {
        let ghost pre = fs.entries@.take(i as int);
        proof {
            assert(fs.entries@.take(i + 1).drop_last() =~= pre);
            assert(fs.entries@.take(i + 1).last() == fs.entries@[i as int]);
        }
        let e = &fs.entries[i];
        let is_file = match &e.node {
            Node::File(_) => true,
            Node::Link(_) => false,
        };
        if is_file && is_under(&e.path, src_root) && !is_ignored(&e.path, igs) {
            let rel = rel_part(&e.path, src_root);
            let dest = join(dest_root, &rel);
            let src = e.path.clone();
            r.push(Visit { src, dest, rel });
            proof {
                let wt = walk_seq(fs.entries@.take(i + 1), src_root@, igs@);
                assert(wt == walk_seq(pre, src_root@, igs@).push(fs.entries@[i as int]));
            }
        } else {
            proof {
                assert(walk_seq(fs.entries@.take(i + 1), src_root@, igs@) == walk_seq(
                    pre,
                    src_root@,
                    igs@,
                ));
            }
        }
        i += 1;
    }
    proof {
        assert(fs.entries@.take(n as int) =~= fs.entries@);
    }
    r
}

/// The position of the last `/` in `p`, or -1 when there is none.
pub open spec fn last_slash(p: Seq<char>) -> int
    decreases p.len(),
{
    if p.len() == 0 {
        -1
    } else if p.last() == '/' {
        p.len() - 1
    } else {
        last_slash(p.drop_last())
    }
}

/// Everything before the last `/` of `p`: the directory holding `p`.
pub open spec fn parent_dir(p: Seq<char>) -> Seq<char> {
    p.take(last_slash(p))
}

pub proof fn lemma_last_slash(p: Seq<char>)
    ensures
        last_slash(p) < p.len(),
        last_slash(p) >= -1,
        last_slash(p) >= 0 ==> p[last_slash(p)] == '/',
        forall|k: int| last_slash(p) < k < p.len() ==> p[k] != '/',
        forall|k: int| 0 <= k < p.len() && p[k] == '/' ==> k <= last_slash(p),
    decreases p.len(),
{
    if p.len() > 0 && p.last() != '/' {
        lemma_last_slash(p.drop_last());
        assert(forall|k: int| 0 <= k < p.len() - 1 ==> p[k] == p.drop_last()[k]);
    }
}

/// A destination-only discovery: a file (by following a symlink if one
/// sits there) directly inside a directory below `home` whose
/// counterpart below `repo` also exists — the directories the shared
/// walk visits. A file directly in `home` itself always counts, since
/// both roots exist.
pub open spec fn shared_dir_file(
    s: Seq<FsEntry>,
    repo: Seq<char>,
    home: Seq<char>,
    p: Seq<char>,
) -> bool {
    &&& read_at(s, p) is Some
    &&& under(p, home)
    &&& (parent_dir(p) == home || (under(parent_dir(p), home) && dir_at(
        s,
        joined(repo, rel_of(parent_dir(p), home)),
    )))
}

/// The directory holding `p`: the executable form of `parent_dir`.
pub fn parent_of(p: &String) -> (r: String)
    requires
        last_slash(p@) >= 0,
    ensures
        r@ == parent_dir(p@),
{
    proof {
        lemma_last_slash(p@);
    }
    let n: usize = p.as_str().unicode_len();
    let mut j: usize = n;
    while j > 0
        invariant
            0 <= j <= n,
            n == p@.len(),
            last_slash(p@) >= 0,
            forall|k: int| j <= k < n ==> p@[k] != '/',
        decreases j,
    {
        j -= 1;
        if p.as_str().get_char(j) == '/' {
            proof {
                lemma_last_slash(p@);
                assert(j <= last_slash(p@));
                assert(last_slash(p@) <= j);
            }
            return p.as_str().substring_char(0, j).to_owned();
        }
    }
    proof {
        lemma_last_slash(p@);
        assert(p@[last_slash(p@)] == '/');
        assert(false);
    }
    String::new()
}

/// Whether `p` is a file sitting directly in a shared destination
/// directory: the executable form of `shared_dir_file`.
pub fn is_shared_dir_file(fs: &Fs, repo: &String, home: &String, p: &String) -> (b: bool)
    ensures
        b == shared_dir_file(fs.entries@, repo@, home@, p@),
{
    if fs.read(p).is_none() {
        return false;
    }
    if !is_under(p, home) {
        return false;
    }
    proof {
        lemma_last_slash(p@);
        assert(p@[home@.len() as int] == '/');
    }
    let parent = parent_of(p);
    if str_eq(&parent, home) {
        return true;
    }
    if is_under(&parent, home) {
        let rd = rel_part(&parent, home);
        let q = join(repo, &rd);
        fs.has_dir(&q)
    } else {
        false
    }
}

} // verus!
