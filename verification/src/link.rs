//! Symlink lifecycle between the repository tree and the home tree.
//!
//! `link` replaces whatever occupies a home path — a file, a symlink, or
//! a whole directory — with a symlink to the repository file at the same
//! relative path, and `link_all` does so for every file the walker
//! visits. Each operation records the real-filesystem actions it stands
//! for, so the surrounding daemon can replay them.

use vstd::prelude::*;
use crate::paths::{
    wf_path, wf_rel, under, joined, rel_of, join, lemma_joined_wf, lemma_rel_of_wf,
    lemma_under_join_rel, lemma_join_injective, lemma_join_under_iff, lemma_under_trans,
};
use crate::fs::{
    Fs, FsEntry, fs_wf, find, link_at, blocked, dir_at, covers, lemma_queries_frame,
    lemma_find_index,
};
use crate::walker::{walk_equal, walk_seq, selected, lemma_walk_membership, lemma_walk_wf,
    lemma_walk_complete};

verus! {

/// Where the engine's three trees stand and which absolute paths the
/// walk must ignore.
pub struct Settings {
    pub repo_dir: String,
    pub home_dir: String,
    pub backup_dir: String,
    pub ignore_files: Vec<String>,
}

/// Neither root names the other nor lies inside it.
pub open spec fn roots_separate(a: Seq<char>, b: Seq<char>) -> bool {
    a != b && !under(a, b) && !under(b, a)
}

/// Well-formed settings: three well-formed, pairwise separate roots.
pub open spec fn settings_wf(c: Settings) -> bool {
    &&& wf_path(c.repo_dir@)
    &&& wf_path(c.home_dir@)
    &&& wf_path(c.backup_dir@)
    &&& roots_separate(c.repo_dir@, c.home_dir@)
    &&& roots_separate(c.repo_dir@, c.backup_dir@)
    &&& roots_separate(c.home_dir@, c.backup_dir@)
}

/// One step the daemon must replay on the real filesystem, in order.
/// Creating parent directories is part of `CopyFile` and `Symlink`.
pub enum Action {
    CopyFile { from: String, to: String },
    RemoveFile { path: String },
    RemoveTree { path: String },
    Symlink { target: String, link: String },
}

/// A structural conflict the real filesystem would report as an error.
#[derive(Debug)]
pub enum FsError {
    /// A file occupies an ancestor of `path`, so nothing can be created
    /// below it.
    NotADirectory { path: String },
    /// A directory occupies `path` where a file was to be read.
    IsADirectory { path: String },
    /// No readable file sits at `path` where one was to be copied from.
    NotAFile { path: String },
}

/// The home mirror of the repository file at `rel`.
pub open spec fn dest_of(c: Settings, rel: Seq<char>) -> Seq<char> {
    joined(c.home_dir@, rel)
}

/// The home mirror of a repository file entry.
pub open spec fn mirror_of(c: Settings, p: Seq<char>) -> Seq<char> {
    joined(c.home_dir@, rel_of(p, c.repo_dir@))
}

/// Replace whatever occupies the home mirror of `rel` — a file, a
/// symlink, or an entire directory — with a symlink to the repository
/// file, creating parent directories as needed. Fails exactly when a
/// file occupies an ancestor of the destination.
pub fn link(fs: &mut Fs, cfg: &Settings, rel: &String, acts: &mut Vec<Action>) -> (r: Result<
    (),
    FsError,
>)
    requires
        fs_wf(old(fs).entries@),
        settings_wf(*cfg),
        wf_rel(rel@),
    ensures
        fs_wf(final(fs).entries@),
        r is Ok <==> !blocked(old(fs).entries@, dest_of(*cfg, rel@)),
        r is Ok ==> {
            &&& link_at(final(fs).entries@, dest_of(*cfg, rel@)) == Some(
                joined(cfg.repo_dir@, rel@),
            )
            &&& forall|q: Seq<char>|
                #![trigger find(final(fs).entries@, q)]
                !covers(q, dest_of(*cfg, rel@)) ==> find(final(fs).entries@, q) == find(
                    old(fs).entries@,
                    q,
                )
            &&& forall|q: Seq<char>|
                #![trigger find(final(fs).entries@, q)]
                under(q, dest_of(*cfg, rel@)) ==> find(final(fs).entries@, q) is None
        },
        r matches Err(e) ==> {
            &&& final(fs).entries@ == old(fs).entries@
            &&& (e matches FsError::NotADirectory { path } && path@ == dest_of(*cfg, rel@))
        },
{
    let dest = join(&cfg.home_dir, rel);
    let src = join(&cfg.repo_dir, rel);
    proof {
        lemma_joined_wf(cfg.home_dir@, rel@);
        lemma_joined_wf(cfg.repo_dir@, rel@);
    }
    if fs.is_blocked(&dest) {
        return Err(FsError::NotADirectory { path: dest });
    }
    if fs.is_link(&dest) || fs.is_file(&dest) {
        acts.push(Action::RemoveFile { path: dest.clone() });
    } else if fs.has_dir(&dest) {
        acts.push(Action::RemoveTree { path: dest.clone() });
    }
    fs.remove_subtree(&dest);
    acts.push(Action::Symlink { target: src.clone(), link: dest.clone() });
    fs.set_link(&dest, &src);
    Ok(())
}

/// Linking the same relative path a second time is idempotent: with
/// `s1` the tree after one `link` of `rel` and `s2` the tree after
/// linking `rel` once more, the symlink resolves to the same repository
/// file and every path reads as it did after the first call.
pub proof fn lemma_link_idempotent(
    s1: Seq<FsEntry>,
    s2: Seq<FsEntry>,
    home: Seq<char>,
    repo: Seq<char>,
    rel: Seq<char>,
)
    requires
        link_at(s1, joined(home, rel)) == Some(joined(repo, rel)),
        forall|q: Seq<char>|
            #![trigger find(s1, q)]
            under(q, joined(home, rel)) ==> find(s1, q) is None,
        link_at(s2, joined(home, rel)) == Some(joined(repo, rel)),
        forall|q: Seq<char>|
            #![trigger find(s2, q)]
            !covers(q, joined(home, rel)) ==> find(s2, q) == find(s1, q),
        forall|q: Seq<char>|
            #![trigger find(s2, q)]
            under(q, joined(home, rel)) ==> find(s2, q) is None,
    ensures
        link_at(s2, joined(home, rel)) == link_at(s1, joined(home, rel)),
        forall|q: Seq<char>|
            #![trigger find(s2, q)]
            q != joined(home, rel) ==> find(s2, q) == find(s1, q),
{
    let dest = joined(home, rel);
    assert forall|q: Seq<char>| q != dest implies #[trigger] find(s2, q) == find(s1, q) by {
        if under(q, dest) {
            assert(find(s2, q) is None);
            assert(find(s1, q) is None);
        }
    }
}

/// Apply `link` to every unignored file under the repository root: the
/// first-time-setup pass that mirrors the whole tree into home. On
/// success every such file's home mirror is a symlink resolving to it.
/// Fails exactly when a file occupies an ancestor of some mirror path,
/// and stops at the first such conflict.
pub fn link_all(fs: &mut Fs, cfg: &Settings, acts: &mut Vec<Action>) -> (r: Result<
    (),
    FsError,
>)
    requires
        fs_wf(old(fs).entries@),
        settings_wf(*cfg),
    ensures
        fs_wf(final(fs).entries@),
        forall|q: Seq<char>|
            #![trigger find(final(fs).entries@, q)]
            !under(q, cfg.home_dir@) ==> find(final(fs).entries@, q) == find(
                old(fs).entries@,
                q,
            ),
        r is Ok <==> (forall|i: int|
            #![trigger old(fs).entries@[i]]
            0 <= i < old(fs).entries@.len() && selected(
                old(fs).entries@[i],
                cfg.repo_dir@,
                cfg.ignore_files@,
            ) ==> !blocked(old(fs).entries@, mirror_of(*cfg, old(fs).entries@[i].path@))),
        r is Ok ==> forall|i: int|
            #![trigger old(fs).entries@[i]]
            0 <= i < old(fs).entries@.len() && selected(
                old(fs).entries@[i],
                cfg.repo_dir@,
                cfg.ignore_files@,
            ) ==> link_at(final(fs).entries@, mirror_of(*cfg, old(fs).entries@[i].path@))
                == Some(old(fs).entries@[i].path@),
{
    let ghost s0 = fs.entries@;
    let ghost repo = cfg.repo_dir@;
    let ghost home = cfg.home_dir@;
    let ghost igs = cfg.ignore_files@;
    let ghost w = walk_seq(s0, repo, igs);
    let visits = walk_equal(fs, &cfg.repo_dir, &cfg.home_dir, &cfg.ignore_files);
    proof {
        lemma_walk_membership(s0, repo, igs);
        lemma_walk_wf(s0, repo, igs);
        assert forall|k: int| #![trigger w[k]] 0 <= k < w.len() implies wf_path(w[k].path@)
            && under(w[k].path@, repo) && wf_rel(rel_of(w[k].path@, repo)) && wf_path(
            joined(home, rel_of(w[k].path@, repo)),
        ) && under(joined(home, rel_of(w[k].path@, repo)), home) by {
            let i = choose|i: int| 0 <= i < s0.len() && w[k] == s0[i];
            lemma_rel_of_wf(w[k].path@, repo);
            lemma_joined_wf(home, rel_of(w[k].path@, repo));
        }
        assert forall|k1: int, k2: int|
            #![trigger w[k1], w[k2]]
            0 <= k1 < w.len() && 0 <= k2 < w.len() && k1 != k2 implies joined(
            home,
            rel_of(w[k1].path@, repo),
        ) != joined(home, rel_of(w[k2].path@, repo)) && !under(
            joined(home, rel_of(w[k1].path@, repo)),
            joined(home, rel_of(w[k2].path@, repo)),
        ) by {
            let r1 = rel_of(w[k1].path@, repo);
            let r2 = rel_of(w[k2].path@, repo);
            lemma_under_join_rel(w[k1].path@, repo);
            lemma_under_join_rel(w[k2].path@, repo);
            lemma_join_injective(home, r1, r2);
            lemma_join_under_iff(home, r1, r2);
            lemma_join_under_iff(repo, r1, r2);
        }
    }
    let n: usize = visits.len();
    let mut i: usize = 0;
    while i < n
        invariant
            0 <= i <= n,
            s0 == old(fs).entries@,
            fs_wf(s0),
            fs_wf(fs.entries@),
            settings_wf(*cfg),
            repo == cfg.repo_dir@,
            home == cfg.home_dir@,
            igs == cfg.ignore_files@,
            w == walk_seq(s0, repo, igs),
            n == w.len(),
            visits@.len() == n,
            forall|k: int|
                #![trigger visits@[k]]
                0 <= k < n ==> visits@[k].src@ == w[k].path@ && visits@[k].rel@ == rel_of(
                    w[k].path@,
                    repo,
                ) && visits@[k].dest@ == joined(home, rel_of(w[k].path@, repo)),
            forall|k: int|
                #![trigger w[k]]
                0 <= k < n ==> wf_path(w[k].path@) && under(w[k].path@, repo) && wf_rel(
                    rel_of(w[k].path@, repo),
                ) && wf_path(joined(home, rel_of(w[k].path@, repo))) && under(
                    joined(home, rel_of(w[k].path@, repo)),
                    home,
                ),
            forall|k1: int, k2: int|
                #![trigger w[k1], w[k2]]
                0 <= k1 < n && 0 <= k2 < n && k1 != k2 ==> joined(
                    home,
                    rel_of(w[k1].path@, repo),
                ) != joined(home, rel_of(w[k2].path@, repo)) && !under(
                    joined(home, rel_of(w[k1].path@, repo)),
                    joined(home, rel_of(w[k2].path@, repo)),
                ),
            forall|q: Seq<char>|
                #![trigger find(fs.entries@, q)]
                !under(q, home) ==> find(fs.entries@, q) == find(s0, q),
            forall|k: int|
                #![trigger w[k]]
                i <= k < n ==> blocked(fs.entries@, joined(home, rel_of(w[k].path@, repo)))
                    == blocked(s0, joined(home, rel_of(w[k].path@, repo))),
            forall|k: int|
                #![trigger w[k]]
                0 <= k < i ==> !blocked(s0, joined(home, rel_of(w[k].path@, repo)))
                    && link_at(fs.entries@, joined(home, rel_of(w[k].path@, repo))) == Some(
                    w[k].path@,
                ),
        decreases n - i,
    {
        let ghost pre = fs.entries@;
        let res = link(fs, cfg, &visits[i].rel, acts);
        proof {
            let ghost di = joined(home, rel_of(w[i as int].path@, repo));
            assert(visits@[i as int].rel@ == rel_of(w[i as int].path@, repo));
            assert(dest_of(*cfg, visits@[i as int].rel@) == di);
        }
        match res {
            Ok(()) => {
                proof {
                    let di = joined(home, rel_of(w[i as int].path@, repo));
                    lemma_under_join_rel(w[i as int].path@, repo);
                    assert(link_at(fs.entries@, di) == Some(w[i as int].path@));
                    assert(!blocked(pre, di));
                    assert(!blocked(s0, di));
                    // every other mirror path is untouched by this link
                    assert forall|q: Seq<char>| !under(q, home) implies #[trigger] find(
                        fs.entries@,
                        q,
                    ) == find(s0, q) by {
                        if covers(q, di) {
                            if q == di {
                                assert(under(q, home));
                            } else {
                                lemma_under_trans(q, di, home);
                            }
                        } else {
                            assert(find(fs.entries@, q) == find(pre, q));
                        }
                    }
                    assert forall|k: int| #![trigger w[k]] 0 <= k < n && k != i
                        implies blocked(fs.entries@, joined(home, rel_of(w[k].path@, repo)))
                        == blocked(pre, joined(home, rel_of(w[k].path@, repo))) && link_at(
                        fs.entries@,
                        joined(home, rel_of(w[k].path@, repo)),
                    ) == link_at(pre, joined(home, rel_of(w[k].path@, repo))) by {
                        let dk = joined(home, rel_of(w[k].path@, repo));
                        lemma_queries_frame(pre, fs.entries@, di, dk);
                    }
                }
            },
            Err(e) => {
                proof {
                    lemma_walk_membership(s0, repo, igs);
                    let di = joined(home, rel_of(w[i as int].path@, repo));
                    assert(blocked(pre, di));
                    assert(blocked(s0, di));
                    let x = choose|x: int| 0 <= x < s0.len() && w[i as int] == s0[x];
                    assert(selected(s0[x], repo, igs));
                    assert(mirror_of(*cfg, s0[x].path@) == di);
                }
                return Err(e);
            },
        }
        i += 1;
    }
    proof {
        assert forall|i2: int|
            0 <= i2 < s0.len() && selected(#[trigger] s0[i2], repo, igs) implies !blocked(
            s0,
            mirror_of(*cfg, s0[i2].path@),
        ) && link_at(fs.entries@, mirror_of(*cfg, s0[i2].path@)) == Some(s0[i2].path@) by {
            lemma_walk_complete(s0, repo, igs, i2);
            let k = choose|k: int| 0 <= k < w.len() && w[k] == s0[i2];
            assert(joined(home, rel_of(w[k].path@, repo)) == mirror_of(*cfg, s0[i2].path@));
        }
    }
    Ok(())
}

} // verus!
