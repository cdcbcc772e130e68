//! The backup vault: pre-link copies of conflicting home files.
//!
//! Before first-time linking, `backup` walks the repository and home
//! trees and copies every home file that a repository file would
//! displace into a mirror of the repository layout under the backup
//! root, overwriting prior backups. `restore` copies them back, the
//! rollback path of setup and of repointing the repository or the home
//! directory.

use vstd::prelude::*;
use crate::paths::{
    wf_path, wf_rel, under, joined, rel_of, ignored, join, lemma_joined_wf, lemma_rel_of_wf,
    lemma_under_join_rel, lemma_join_injective, lemma_join_under_iff, lemma_separate_roots,
    is_under,
};
use crate::fs::{
    Fs, FsEntry, Node, fs_wf, find, content_at, link_at, read_at, has_path, blocked, dir_at,
    covers, lemma_queries_frame, lemma_queries_frame_subtree, lemma_find_index,
    lemma_find_at_index,
};
use crate::walker::{walk_equal, walk_seq, selected, lemma_walk_membership, lemma_walk_wf,
    lemma_walk_complete};
use crate::link::{Settings, settings_wf, Action, FsError, mirror_of};

verus! {

/// Where the backup copy of the repository file at `p` lives.
pub open spec fn bpath_of(c: Settings, p: Seq<char>) -> Seq<char> {
    joined(c.backup_dir@, rel_of(p, c.repo_dir@))
}

/// `p` is a repository file the walk visits: a regular file below the
/// repository root that the ignore set does not hide.
pub open spec fn repo_file(s: Seq<FsEntry>, c: Settings, p: Seq<char>) -> bool {
    &&& content_at(s, p) is Some
    &&& under(p, c.repo_dir@)
    &&& !ignored(p, c.ignore_files@)
}

/// What a backup of the home path `dest` would copy: a regular file's
/// own bytes, or the bytes behind a symlink whose target lies outside
/// the backup tree. Nothing is copied through a symlink into the backup
/// tree itself, nor from a dangling one.
pub open spec fn backup_read(s: Seq<FsEntry>, dest: Seq<char>, broot: Seq<char>) -> Option<
    Seq<u8>,
> {
    match find(s, dest) {
        Some(Node::File(c)) => Some(c@),
        Some(Node::Link(t)) => if under(t@, broot) {
            None
        } else {
            content_at(s, t@)
        },
        None => None,
    }
}

/// What a completed backup guarantees: only the backup tree changed,
/// and it now mirrors every readable conflicting home file.
pub open spec fn backup_post(s0: Seq<FsEntry>, s1: Seq<FsEntry>, c: Settings) -> bool {
    &&& forall|q: Seq<char>|
        #![trigger find(s1, q)]
        !under(q, c.backup_dir@) ==> find(s1, q) == find(s0, q)
    &&& forall|p: Seq<char>|
        #![trigger repo_file(s0, c, p)]
        repo_file(s0, c, p) ==> (backup_read(s0, mirror_of(c, p), c.backup_dir@) matches Some(b)
            ==> content_at(s1, bpath_of(c, p)) == Some(b))
}

/// When a backup succeeds: no visited home path is a bare directory,
/// and no copy target is blocked by stale entries in the backup tree.
pub open spec fn backup_ok(s0: Seq<FsEntry>, c: Settings) -> bool {
    forall|p: Seq<char>|
        #![trigger repo_file(s0, c, p)]
        repo_file(s0, c, p) ==> {
            &&& !(dir_at(s0, mirror_of(c, p)) && !has_path(s0, mirror_of(c, p)))
            &&& (backup_read(s0, mirror_of(c, p), c.backup_dir@) is Some ==> !blocked(
                s0,
                bpath_of(c, p),
            ) && !dir_at(s0, bpath_of(c, p)))
        }
}

/// Every difference between `cur` and the tree `s0` the walk `w` was
/// taken from lies at the backup copy of some visited conflicting file.
#[verifier::opaque]
pub open spec fn changes_are_copies(
    cur: Seq<FsEntry>,
    s0: Seq<FsEntry>,
    w: Seq<FsEntry>,
    c: Settings,
    n: int,
) -> bool {
    forall|q: Seq<char>|
        #![trigger find(cur, q)]
        find(cur, q) != find(s0, q) ==> exists|k: int|
            0 <= k < n && q == joined(c.backup_dir@, rel_of(w[k].path@, c.repo_dir@))
                && backup_read(
                s0,
                joined(c.home_dir@, rel_of(w[k].path@, c.repo_dir@)),
                c.backup_dir@,
            ) is Some
}

/// Entry-level reading of `changes_are_copies`: every change lies at
/// the backup copy of some conflicting repository file.
proof fn lemma_changes_entrywise(
    cur: Seq<FsEntry>,
    s0: Seq<FsEntry>,
    c: Settings,
    n: int,
)
    requires
        fs_wf(s0),
        n == walk_seq(s0, c.repo_dir@, c.ignore_files@).len(),
        changes_are_copies(cur, s0, walk_seq(s0, c.repo_dir@, c.ignore_files@), c, n),
    ensures
        forall|q: Seq<char>|
            #![trigger find(cur, q)]
            find(cur, q) != find(s0, q) ==> exists|p: Seq<char>|
                repo_file(s0, c, p) && q == bpath_of(c, p) && backup_read(
                    s0,
                    mirror_of(c, p),
                    c.backup_dir@,
                ) is Some,
{
    let w = walk_seq(s0, c.repo_dir@, c.ignore_files@);
    lemma_walk_membership(s0, c.repo_dir@, c.ignore_files@);
    reveal(changes_are_copies);
    assert forall|q: Seq<char>| #[trigger] find(cur, q) != find(s0, q) implies (exists|
        p: Seq<char>,
    |
        repo_file(s0, c, p) && q == bpath_of(c, p) && backup_read(
            s0,
            mirror_of(c, p),
            c.backup_dir@,
        ) is Some) by {
        let k = choose|k: int|
            0 <= k < n && q == joined(c.backup_dir@, rel_of(w[k].path@, c.repo_dir@))
                && backup_read(
                s0,
                joined(c.home_dir@, rel_of(w[k].path@, c.repo_dir@)),
                c.backup_dir@,
            ) is Some;
        let x = choose|x: int| 0 <= x < s0.len() && w[k] == s0[x];
        lemma_find_at_index(s0, x);
        let p = s0[x].path@;
        assert(repo_file(s0, c, p));
        assert(q == bpath_of(c, p) && backup_read(s0, mirror_of(c, p), c.backup_dir@)
            is Some);
    }
}

/// How many files the backup copies, counted in walk order.
pub open spec fn backed_count(w: Seq<FsEntry>, s0: Seq<FsEntry>, c: Settings) -> int
    decreases w.len(),
{
    if w.len() == 0 {
        0
    } else {
        backed_count(w.drop_last(), s0, c) + if backup_read(
            s0,
            mirror_of(c, w.last().path@),
            c.backup_dir@,
        ) is Some {
            1int
        } else {
            0int
        }
    }
}

/// Copy every readable conflicting home file into the backup tree,
/// overwriting prior backups, and report how many files were copied.
/// Fails exactly when a visited home path is a bare directory or a copy
/// target is blocked or shadowed inside the backup tree.
#[verifier::rlimit(60)]
pub fn backup(fs: &mut Fs, cfg: &Settings, acts: &mut Vec<Action>) -> (r: Result<
    usize,
    FsError,
>)
    requires
        fs_wf(old(fs).entries@),
        settings_wf(*cfg),
    ensures
        fs_wf(final(fs).entries@),
        forall|q: Seq<char>|
            #![trigger find(final(fs).entries@, q)]
            !under(q, cfg.backup_dir@) ==> find(final(fs).entries@, q) == find(
                old(fs).entries@,
                q,
            ),
        forall|q: Seq<char>|
            #![trigger find(final(fs).entries@, q)]
            find(final(fs).entries@, q) != find(old(fs).entries@, q) ==> exists|p: Seq<char>|
                repo_file(old(fs).entries@, *cfg, p) && q == bpath_of(*cfg, p) && backup_read(
                    old(fs).entries@,
                    mirror_of(*cfg, p),
                    cfg.backup_dir@,
                ) is Some,
        r is Ok <==> backup_ok(old(fs).entries@, *cfg),
        r is Ok ==> backup_post(old(fs).entries@, final(fs).entries@, *cfg),
        r matches Ok(c) ==> c == backed_count(
            walk_seq(old(fs).entries@, cfg.repo_dir@, cfg.ignore_files@),
            old(fs).entries@,
            *cfg,
        ),
{
    let ghost s0 = fs.entries@;
    let ghost repo = cfg.repo_dir@;
    let ghost home = cfg.home_dir@;
    let ghost broot = cfg.backup_dir@;
    let ghost igs = cfg.ignore_files@;
    let ghost w = walk_seq(s0, repo, igs);
    let visits = walk_equal(fs, &cfg.repo_dir, &cfg.home_dir, &cfg.ignore_files);
    proof {
        lemma_walk_membership(s0, repo, igs);
        lemma_walk_wf(s0, repo, igs);
        assert forall|k: int| #![trigger w[k]] 0 <= k < w.len() implies wf_path(w[k].path@)
            && under(w[k].path@, repo) && wf_rel(rel_of(w[k].path@, repo)) && wf_path(
            joined(home, rel_of(w[k].path@, repo)),
        ) && under(joined(home, rel_of(w[k].path@, repo)), home) && wf_path(
            joined(broot, rel_of(w[k].path@, repo)),
        ) && under(joined(broot, rel_of(w[k].path@, repo)), broot) && !under(
            joined(home, rel_of(w[k].path@, repo)),
            broot,
        ) && joined(home, rel_of(w[k].path@, repo)) != broot && !under(
            broot,
            joined(home, rel_of(w[k].path@, repo)),
        ) by {
            let i = choose|i: int| 0 <= i < s0.len() && w[k] == s0[i];
            lemma_rel_of_wf(w[k].path@, repo);
            lemma_joined_wf(home, rel_of(w[k].path@, repo));
            lemma_joined_wf(broot, rel_of(w[k].path@, repo));
            lemma_separate_roots(home, broot, joined(home, rel_of(w[k].path@, repo)));
            if under(broot, joined(home, rel_of(w[k].path@, repo))) {
                crate::paths::lemma_under_trans(broot, joined(home, rel_of(w[k].path@, repo)), home);
            }
        }
        assert forall|k1: int, k2: int|
            #![trigger w[k1], w[k2]]
            0 <= k1 < w.len() && 0 <= k2 < w.len() && k1 != k2 implies joined(
            broot,
            rel_of(w[k1].path@, repo),
        ) != joined(broot, rel_of(w[k2].path@, repo)) && !under(
            joined(broot, rel_of(w[k1].path@, repo)),
            joined(broot, rel_of(w[k2].path@, repo)),
        ) by {
            let r1 = rel_of(w[k1].path@, repo);
            let r2 = rel_of(w[k2].path@, repo);
            lemma_under_join_rel(w[k1].path@, repo);
            lemma_under_join_rel(w[k2].path@, repo);
            lemma_join_injective(broot, r1, r2);
            lemma_join_under_iff(broot, r1, r2);
            lemma_join_under_iff(repo, r1, r2);
        }
        assert(w.take(0) =~= Seq::<FsEntry>::empty());
    }
    let n: usize = visits.len();
    proof {
        assert(changes_are_copies(fs.entries@, s0, w, *cfg, n as int)) by {
            reveal(changes_are_copies);
        }
    }
    let mut count: usize = 0;
    let mut i: usize = 0;
    while i < n
        invariant
            0 <= i <= n,
            s0 == old(fs).entries@,
            fs_wf(s0),
            fs_wf(fs.entries@),
            settings_wf(*cfg),
            repo == cfg.repo_dir@,
            home == cfg.home_dir@,
            broot == cfg.backup_dir@,
            igs == cfg.ignore_files@,
            w == walk_seq(s0, repo, igs),
            n == w.len(),
            visits@.len() == n,
            count <= i,
            count == backed_count(w.take(i as int), s0, *cfg),
            forall|k: int|
                #![trigger visits@[k]]
                0 <= k < n ==> visits@[k].src@ == w[k].path@ && visits@[k].rel@ == rel_of(
                    w[k].path@,
                    repo,
                ) && visits@[k].dest@ == joined(home, rel_of(w[k].path@, repo)),
            forall|k: int|
                #![trigger w[k]]
                0 <= k < n ==> wf_path(w[k].path@) && under(w[k].path@, repo) && wf_rel(
                    rel_of(w[k].path@, repo),
                ) && wf_path(joined(home, rel_of(w[k].path@, repo))) && under(
                    joined(home, rel_of(w[k].path@, repo)),
                    home,
                ) && wf_path(joined(broot, rel_of(w[k].path@, repo))) && under(
                    joined(broot, rel_of(w[k].path@, repo)),
                    broot,
                ) && !under(joined(home, rel_of(w[k].path@, repo)), broot) && joined(
                    home,
                    rel_of(w[k].path@, repo),
                ) != broot && !under(broot, joined(home, rel_of(w[k].path@, repo))),
            forall|k1: int, k2: int|
                #![trigger w[k1], w[k2]]
                0 <= k1 < n && 0 <= k2 < n && k1 != k2 ==> joined(
                    broot,
                    rel_of(w[k1].path@, repo),
                ) != joined(broot, rel_of(w[k2].path@, repo)) && !under(
                    joined(broot, rel_of(w[k1].path@, repo)),
                    joined(broot, rel_of(w[k2].path@, repo)),
                ),
            forall|q: Seq<char>|
                #![trigger find(fs.entries@, q)]
                !under(q, broot) ==> find(fs.entries@, q) == find(s0, q),
            changes_are_copies(fs.entries@, s0, w, *cfg, n as int),
            forall|k: int|
                #![trigger w[k]]
                i <= k < n ==> blocked(fs.entries@, joined(broot, rel_of(w[k].path@, repo)))
                    == blocked(s0, joined(broot, rel_of(w[k].path@, repo))) && dir_at(
                    fs.entries@,
                    joined(broot, rel_of(w[k].path@, repo)),
                ) == dir_at(s0, joined(broot, rel_of(w[k].path@, repo))),
            forall|k: int|
                #![trigger w[k]]
                0 <= k < i ==> {
                    let dk = joined(home, rel_of(w[k].path@, repo));
                    let bk = joined(broot, rel_of(w[k].path@, repo));
                    &&& !(dir_at(s0, dk) && !has_path(s0, dk))
                    &&& (backup_read(s0, dk, broot) is Some ==> !blocked(s0, bk) && !dir_at(
                        s0,
                        bk,
                    ))
                    &&& (backup_read(s0, dk, broot) matches Some(b) ==> content_at(
                        fs.entries@,
                        bk,
                    ) == Some(b))
                },
        decreases n - i,
    {
        let v = &visits[i];
        let ghost dk = joined(home, rel_of(w[i as int].path@, repo));
        let ghost bk = joined(broot, rel_of(w[i as int].path@, repo));
        proof {
            lemma_queries_frame_subtree(s0, fs.entries@, broot, dk);
            assert(find(fs.entries@, dk) == find(s0, dk));
            assert(dir_at(fs.entries@, dk) == dir_at(s0, dk));
        }
        let mut to_copy: Option<Vec<u8>> = None;
        if fs.is_file(&v.dest) {
            to_copy = fs.read(&v.dest);
            proof {
                assert(read_at(fs.entries@, dk) is Some);
                assert(to_copy matches Some(c) ==> backup_read(s0, dk, broot) == Some(c@));
            }
        } else if fs.is_link(&v.dest) {
            let t = match fs.link_target(&v.dest) {
                Some(t) => t,
                None => {
                    proof {
                        assert(false);
                    }
                    String::new()
                },
            };
            if !is_under(&t, &cfg.backup_dir) {
                to_copy = fs.read(&v.dest);
                proof {
                    assert(find(s0, dk) matches Some(n2) && n2 == find(
                        fs.entries@,
                        dk,
                    ).unwrap());
                    assert(content_at(fs.entries@, t@) == content_at(s0, t@)) by {
                        if t@ == broot || !under(t@, broot) {
                            assert(find(fs.entries@, t@) == find(s0, t@));
                        }
                    }
                    assert(to_copy matches Some(c) ==> backup_read(s0, dk, broot) == Some(
                        c@,
                    ));
                    assert(to_copy is None ==> backup_read(s0, dk, broot) is None);
                }
            } else {
                proof {
                    assert(backup_read(s0, dk, broot) is None);
                }
            }
        } else if fs.has_dir(&v.dest) {
            proof {
                lemma_walk_membership(s0, repo, igs);
                let x = choose|x: int| 0 <= x < s0.len() && w[i as int] == s0[x];
                lemma_find_at_index(s0, x);
                assert(repo_file(s0, *cfg, w[i as int].path@));
                assert(dir_at(s0, dk) && !has_path(s0, dk));
                assert(mirror_of(*cfg, w[i as int].path@) == dk);
                assert(!backup_ok(s0, *cfg));
                lemma_changes_entrywise(fs.entries@, s0, *cfg, n as int);
            }
            return Err(FsError::IsADirectory { path: v.dest.clone() });
        } else {
            proof {
                assert(backup_read(s0, dk, broot) is None);
            }
        }
        proof {
            assert(w.take(i + 1).drop_last() =~= w.take(i as int));
            assert(w.take(i + 1).last() == w[i as int]);
        }
        match to_copy {
            Some(content) => {
                let bp = join(&cfg.backup_dir, &v.rel);
                proof {
                    assert(bp@ == bk);
                }
                if fs.is_blocked(&bp) {
                    proof {
                        lemma_walk_membership(s0, repo, igs);
                        let x = choose|x: int| 0 <= x < s0.len() && w[i as int] == s0[x];
                        lemma_find_at_index(s0, x);
                        assert(repo_file(s0, *cfg, w[i as int].path@));
                        assert(blocked(s0, bk));
                        assert(!backup_ok(s0, *cfg));
                        lemma_changes_entrywise(fs.entries@, s0, *cfg, n as int);
                    }
                    return Err(FsError::NotADirectory { path: bp });
                }
                if fs.has_dir(&bp) {
                    proof {
                        lemma_walk_membership(s0, repo, igs);
                        let x = choose|x: int| 0 <= x < s0.len() && w[i as int] == s0[x];
                        lemma_find_at_index(s0, x);
                        assert(repo_file(s0, *cfg, w[i as int].path@));
                        assert(dir_at(s0, bk));
                        assert(!backup_ok(s0, *cfg));
                        lemma_changes_entrywise(fs.entries@, s0, *cfg, n as int);
                    }
                    return Err(FsError::IsADirectory { path: bp });
                }
                acts.push(Action::CopyFile { from: v.dest.clone(), to: bp.clone() });
                let ghost pre = fs.entries@;
                fs.set_file(&bp, content);
                count += 1;
                proof {
                    assert forall|q: Seq<char>| !under(q, broot) implies #[trigger] find(
                        fs.entries@,
                        q,
                    ) == find(s0, q) by {
                        assert(q != bk);
                        assert(find(fs.entries@, q) == find(pre, q));
                    }
                    assert(changes_are_copies(fs.entries@, s0, w, *cfg, n as int)) by {
                        reveal(changes_are_copies);
                        assert forall|q: Seq<char>| #[trigger] find(fs.entries@, q) != find(
                            s0,
                            q,
                        ) implies (exists|k: int|
                            0 <= k < n && q == joined(broot, rel_of(w[k].path@, repo))
                                && backup_read(
                                s0,
                                joined(home, rel_of(w[k].path@, repo)),
                                broot,
                            ) is Some) by {
                            if q != bk {
                                assert(find(fs.entries@, q) == find(pre, q));
                            } else {
                                assert(0 <= i < n && q == joined(
                                    broot,
                                    rel_of(w[i as int].path@, repo),
                                ) && backup_read(
                                    s0,
                                    joined(home, rel_of(w[i as int].path@, repo)),
                                    broot,
                                ) is Some);
                            }
                        }
                    }
                    assert forall|k: int| #![trigger w[k]] 0 <= k < n && k != i implies {
                        let bk2 = joined(broot, rel_of(w[k].path@, repo));
                        blocked(fs.entries@, bk2) == blocked(pre, bk2) && dir_at(
                            fs.entries@,
                            bk2,
                        ) == dir_at(pre, bk2) && find(fs.entries@, bk2) == find(pre, bk2)
                    } by {
                        let bk2 = joined(broot, rel_of(w[k].path@, repo));
                        assert forall|q: Seq<char>| !covers(q, bk) implies #[trigger] find(
                            fs.entries@,
                            q,
                        ) == find(pre, q) by {
                            assert(q != bk);
                        }
                        lemma_queries_frame(pre, fs.entries@, bk, bk2);
                    }
                }
            },
            None => {
            },
        }
        i += 1;
    }
    proof {
        assert(w.take(n as int) =~= w);
        assert forall|p: Seq<char>| #[trigger] repo_file(s0, *cfg, p) implies {
            &&& !(dir_at(s0, mirror_of(*cfg, p)) && !has_path(s0, mirror_of(*cfg, p)))
            &&& (backup_read(s0, mirror_of(*cfg, p), broot) is Some ==> !blocked(
                s0,
                bpath_of(*cfg, p),
            ) && !dir_at(s0, bpath_of(*cfg, p)))
            &&& (backup_read(s0, mirror_of(*cfg, p), broot) matches Some(b) ==> content_at(
                fs.entries@,
                bpath_of(*cfg, p),
            ) == Some(b))
        } by {
            lemma_find_index(s0, p);
            let x = choose|x: int|
                0 <= x < s0.len() && s0[x].path@ == p && s0[x].node == find(s0, p).unwrap();
            assert(selected(s0[x], repo, igs));
            lemma_walk_complete(s0, repo, igs, x);
            let k = choose|k: int| 0 <= k < w.len() && w[k] == s0[x];
            assert(joined(home, rel_of(w[k].path@, repo)) == mirror_of(*cfg, p));
            assert(joined(broot, rel_of(w[k].path@, repo)) == bpath_of(*cfg, p));
        }
        lemma_changes_entrywise(fs.entries@, s0, *cfg, n as int);
    }
    Ok(count)
}

/// No visited home mirror is currently a symlink — the shape the home
/// tree has before any linking, and the shape under which `restore`
/// gives per-file guarantees.
pub open spec fn no_mirror_links(s: Seq<FsEntry>, c: Settings) -> bool {
    forall|p: Seq<char>|
        #![trigger repo_file(s, c, p)]
        repo_file(s, c, p) ==> link_at(s, mirror_of(c, p)) is None
}

/// What a completed restore guarantees: only the home tree changed,
/// and — when no mirror was a symlink — every backed-up conflicting
/// file is back at its home path with its backed-up bytes.
pub open spec fn restore_post(s1: Seq<FsEntry>, s2: Seq<FsEntry>, c: Settings) -> bool {
    &&& forall|q: Seq<char>|
        #![trigger find(s2, q)]
        !under(q, c.home_dir@) ==> find(s2, q) == find(s1, q)
    &&& no_mirror_links(s1, c) ==> forall|p: Seq<char>|
        #![trigger repo_file(s1, c, p)]
        repo_file(s1, c, p) ==> (content_at(s1, bpath_of(c, p)) matches Some(b)
            ==> content_at(s2, mirror_of(c, p)) == Some(b))
}

/// When a restore without symlinked mirrors succeeds: every copy back
/// to home lands on a path that is neither blocked nor a directory.
pub open spec fn restore_ok(s1: Seq<FsEntry>, c: Settings) -> bool {
    forall|p: Seq<char>|
        #![trigger repo_file(s1, c, p)]
        repo_file(s1, c, p) ==> (content_at(s1, bpath_of(c, p)) is Some ==> !blocked(
            s1,
            mirror_of(c, p),
        ) && !dir_at(s1, mirror_of(c, p)))
}

/// The whole backup tree has been copied into home: every unignored
/// backup file's bytes sit at its home mirror.
#[verifier::opaque]
pub open spec fn tree_restored(cur: Seq<FsEntry>, s1: Seq<FsEntry>, c: Settings) -> bool {
    forall|q: Seq<char>|
        #![trigger content_at(s1, q)]
        under(q, c.backup_dir@) && content_at(s1, q) is Some && !ignored(q, c.ignore_files@)
            ==> content_at(cur, joined(c.home_dir@, rel_of(q, c.backup_dir@))) == Some(
            content_at(s1, q).unwrap(),
        )
}

/// Copy backed-up files back into the home tree. For a home mirror that
/// is not a symlink, the single corresponding backup file (if any) is
/// copied back over it. A mirror that is a symlink is removed, and the
/// entire backup tree is copied into home — the broad catastrophic
/// fallback, deliberately not per-file: one missing or replaced link is
/// taken as a sign the whole home tree needs its pre-link files back.
#[verifier::rlimit(100)]
pub fn restore(fs: &mut Fs, cfg: &Settings, acts: &mut Vec<Action>) -> (r: Result<
    (),
    FsError,
>)
    requires
        fs_wf(old(fs).entries@),
        settings_wf(*cfg),
    ensures
        fs_wf(final(fs).entries@),
        forall|q: Seq<char>|
            #![trigger find(final(fs).entries@, q)]
            !under(q, cfg.home_dir@) ==> find(final(fs).entries@, q) == find(
                old(fs).entries@,
                q,
            ),
        no_mirror_links(old(fs).entries@, *cfg) ==> (r is Ok <==> restore_ok(
            old(fs).entries@,
            *cfg,
        )),
        r is Ok ==> restore_post(old(fs).entries@, final(fs).entries@, *cfg),
        r is Ok ==> forall|p: Seq<char>|
            #![trigger repo_file(old(fs).entries@, *cfg, p)]
            repo_file(old(fs).entries@, *cfg, p) ==> {
                &&& (link_at(old(fs).entries@, mirror_of(*cfg, p)) is Some ==> link_at(
                    final(fs).entries@,
                    mirror_of(*cfg, p),
                ) is None)
                &&& (content_at(old(fs).entries@, bpath_of(*cfg, p)) is Some && (link_at(
                    old(fs).entries@,
                    mirror_of(*cfg, p),
                ) is None || !ignored(bpath_of(*cfg, p), cfg.ignore_files@)) ==> content_at(
                    final(fs).entries@,
                    mirror_of(*cfg, p),
                ) == content_at(old(fs).entries@, bpath_of(*cfg, p)))
            },
        r is Ok && (exists|p: Seq<char>|
            repo_file(old(fs).entries@, *cfg, p) && link_at(
                old(fs).entries@,
                mirror_of(*cfg, p),
            ) is Some) ==> tree_restored(final(fs).entries@, old(fs).entries@, *cfg),
{
    let ghost s1 = fs.entries@;
    let ghost repo = cfg.repo_dir@;
    let ghost home = cfg.home_dir@;
    let ghost broot = cfg.backup_dir@;
    let ghost igs = cfg.ignore_files@;
    let ghost w = walk_seq(s1, repo, igs);
    let ghost nml = no_mirror_links(s1, *cfg);
    let visits = walk_equal(fs, &cfg.repo_dir, &cfg.home_dir, &cfg.ignore_files);
    proof {
        lemma_walk_membership(s1, repo, igs);
        lemma_walk_wf(s1, repo, igs);
        assert forall|k: int| #![trigger w[k]] 0 <= k < w.len() implies wf_path(w[k].path@)
            && under(w[k].path@, repo) && wf_rel(rel_of(w[k].path@, repo)) && wf_path(
            joined(home, rel_of(w[k].path@, repo)),
        ) && under(joined(home, rel_of(w[k].path@, repo)), home) && wf_path(
            joined(broot, rel_of(w[k].path@, repo)),
        ) && under(joined(broot, rel_of(w[k].path@, repo)), broot) && repo_file(
            s1,
            *cfg,
            w[k].path@,
        ) by {
            let i = choose|i: int| 0 <= i < s1.len() && w[k] == s1[i];
            lemma_find_at_index(s1, i);
            lemma_rel_of_wf(w[k].path@, repo);
            lemma_joined_wf(home, rel_of(w[k].path@, repo));
            lemma_joined_wf(broot, rel_of(w[k].path@, repo));
        }
        assert forall|k1: int, k2: int|
            #![trigger w[k1], w[k2]]
            0 <= k1 < w.len() && 0 <= k2 < w.len() && k1 != k2 implies joined(
            home,
            rel_of(w[k1].path@, repo),
        ) != joined(home, rel_of(w[k2].path@, repo)) && !under(
            joined(home, rel_of(w[k1].path@, repo)),
            joined(home, rel_of(w[k2].path@, repo)),
        ) by {
            let r1 = rel_of(w[k1].path@, repo);
            let r2 = rel_of(w[k2].path@, repo);
            lemma_under_join_rel(w[k1].path@, repo);
            lemma_under_join_rel(w[k2].path@, repo);
            lemma_join_injective(home, r1, r2);
            lemma_join_under_iff(home, r1, r2);
            lemma_join_under_iff(repo, r1, r2);
        }
    }
    let n: usize = visits.len();
    let mut i: usize = 0;
    while i < n
        invariant
            0 <= i <= n,
            s1 == old(fs).entries@,
            nml == no_mirror_links(s1, *cfg),
            fs_wf(s1),
            fs_wf(fs.entries@),
            settings_wf(*cfg),
            repo == cfg.repo_dir@,
            home == cfg.home_dir@,
            broot == cfg.backup_dir@,
            igs == cfg.ignore_files@,
            w == walk_seq(s1, repo, igs),
            n == w.len(),
            visits@.len() == n,
            forall|k: int|
                #![trigger visits@[k]]
                0 <= k < n ==> visits@[k].src@ == w[k].path@ && visits@[k].rel@ == rel_of(
                    w[k].path@,
                    repo,
                ) && visits@[k].dest@ == joined(home, rel_of(w[k].path@, repo)),
            forall|k: int|
                #![trigger w[k]]
                0 <= k < n ==> wf_path(w[k].path@) && under(w[k].path@, repo) && wf_rel(
                    rel_of(w[k].path@, repo),
                ) && wf_path(joined(home, rel_of(w[k].path@, repo))) && under(
                    joined(home, rel_of(w[k].path@, repo)),
                    home,
                ) && wf_path(joined(broot, rel_of(w[k].path@, repo))) && under(
                    joined(broot, rel_of(w[k].path@, repo)),
                    broot,
                ) && repo_file(s1, *cfg, w[k].path@),
            forall|k1: int, k2: int|
                #![trigger w[k1], w[k2]]
                0 <= k1 < n && 0 <= k2 < n && k1 != k2 ==> joined(
                    home,
                    rel_of(w[k1].path@, repo),
                ) != joined(home, rel_of(w[k2].path@, repo)) && !under(
                    joined(home, rel_of(w[k1].path@, repo)),
                    joined(home, rel_of(w[k2].path@, repo)),
                ),
            forall|q: Seq<char>|
                #![trigger find(fs.entries@, q)]
                !under(q, home) ==> find(fs.entries@, q) == find(s1, q),
            forall|q: Seq<char>|
                #![trigger link_at(fs.entries@, q)]
                link_at(fs.entries@, q) is Some ==> link_at(s1, q) == link_at(fs.entries@, q),
            nml ==> forall|k: int|
                #![trigger w[k]]
                i <= k < n ==> {
                    let dk = joined(home, rel_of(w[k].path@, repo));
                    blocked(fs.entries@, dk) == blocked(s1, dk) && dir_at(fs.entries@, dk)
                        == dir_at(s1, dk) && find(fs.entries@, dk) == find(s1, dk)
                },
            nml ==> forall|k: int|
                #![trigger w[k]]
                0 <= k < i ==> {
                    let bk = joined(broot, rel_of(w[k].path@, repo));
                    content_at(s1, bk) is Some ==> !blocked(
                        s1,
                        joined(home, rel_of(w[k].path@, repo)),
                    ) && !dir_at(s1, joined(home, rel_of(w[k].path@, repo)))
                },
            forall|k: int|
                #![trigger w[k]]
                0 <= k < i ==> {
                    let dk = joined(home, rel_of(w[k].path@, repo));
                    let bk = joined(broot, rel_of(w[k].path@, repo));
                    &&& (link_at(s1, dk) is None && content_at(s1, bk) is Some
                        ==> content_at(fs.entries@, dk) == content_at(s1, bk))
                    &&& (link_at(s1, dk) is Some ==> link_at(fs.entries@, dk) is None)
                    &&& (link_at(s1, dk) is Some && !ignored(bk, igs) && content_at(
                        s1,
                        bk,
                    ) is Some ==> content_at(fs.entries@, dk) == content_at(s1, bk))
                },
            (exists|k: int| 0 <= k < i && link_at(s1, joined(home, rel_of(w[k].path@, repo)))
                is Some) ==> tree_restored(fs.entries@, s1, *cfg),
            (forall|k: int|
                0 <= k < i ==> link_at(s1, joined(home, rel_of(w[k].path@, repo))) is None)
                ==> forall|k: int|
                #![trigger w[k]]
                i <= k < n ==> find(fs.entries@, joined(home, rel_of(w[k].path@, repo)))
                    == find(s1, joined(home, rel_of(w[k].path@, repo))),
        decreases n - i,
    {
        let v = &visits[i];
        let ghost dk = joined(home, rel_of(w[i as int].path@, repo));
        let ghost bk = joined(broot, rel_of(w[i as int].path@, repo));
        let ghost fired_before = exists|k: int|
            0 <= k < i && link_at(s1, joined(home, rel_of(w[k].path@, repo))) is Some;
        if fs.is_link(&v.dest) {
            proof {
                assert(link_at(s1, dk) == link_at(fs.entries@, dk));
                assert(link_at(s1, dk) is Some);
                assert(repo_file(s1, *cfg, w[i as int].path@));
                assert(!nml);
            }
            acts.push(Action::RemoveFile { path: v.dest.clone() });
            let ghost pre2 = fs.entries@;
            fs.remove_subtree(&v.dest);
            proof {
                assert forall|q: Seq<char>| !under(q, home) implies #[trigger] find(
                    fs.entries@,
                    q,
                ) == find(s1, q) by {
                    if covers(q, dk) {
                        if q == dk {
                            assert(under(q, home));
                        } else {
                            crate::paths::lemma_under_trans(q, dk, home);
                        }
                    }
                }
                assert forall|q: Seq<char>| link_at(
                    #[trigger] fs.entries@,
                    q,
                ) is Some implies link_at(s1, q) == link_at(fs.entries@, q) by {
                    if covers(q, dk) {
                        assert(find(fs.entries@, q) is None);
                    } else {
                        assert(find(fs.entries@, q) == find(pre2, q));
                        assert(link_at(pre2, q) == link_at(fs.entries@, q));
                    }
                }
                // processed per-file facts survive the removal: their
                // destinations are separate from this one
                assert forall|k: int| #![trigger w[k]] 0 <= k < i implies {
                    let dk2 = joined(home, rel_of(w[k].path@, repo));
                    find(fs.entries@, dk2) == find(pre2, dk2)
                } by {
                    let dk2 = joined(home, rel_of(w[k].path@, repo));
                    assert(!covers(dk2, dk));
                }
                if fired_before {
                    assert(tree_restored(fs.entries@, s1, *cfg)) by {
                        reveal(tree_restored);
                        assert forall|q: Seq<char>|
                            under(q, broot) && #[trigger] content_at(s1, q) is Some
                                && !ignored(q, igs) implies content_at(
                            fs.entries@,
                            joined(home, rel_of(q, broot)),
                        ) == Some(content_at(s1, q).unwrap()) by {
                            let t = joined(home, rel_of(q, broot));
                            assert(content_at(pre2, t) == Some(content_at(s1, q).unwrap()));
                            if covers(t, dk) {
                                if t == dk {
                                    assert(find(pre2, dk) matches Some(nn) && nn is File);
                                    assert(link_at(pre2, dk) is None);
                                    assert(link_at(pre2, dk) == link_at(s1, dk));
                                } else {
                                    // a file strictly below the removed
                                    // path would nest under its entry
                                    assert(under(t, dk));
                                    lemma_find_index(pre2, t);
                                    lemma_find_index(pre2, dk);
                                    let a = choose|a: int|
                                        0 <= a < pre2.len() && pre2[a].path@ == t;
                                    let b2 = choose|b2: int|
                                        0 <= b2 < pre2.len() && pre2[b2].path@ == dk;
                                    assert(!under(pre2[a].path@, pre2[b2].path@));
                                }
                            } else {
                                assert(find(fs.entries@, t) == find(pre2, t));
                            }
                        }
                    }
                }
            }
            let visits2 = walk_equal(fs, &cfg.backup_dir, &cfg.home_dir, &cfg.ignore_files);
            let ghost smid = fs.entries@;
            let ghost w2 = walk_seq(smid, broot, igs);
            proof {
                lemma_walk_membership(smid, broot, igs);
                lemma_walk_wf(smid, broot, igs);
                assert forall|k: int| #![trigger w2[k]] 0 <= k < w2.len() implies wf_path(
                    w2[k].path@,
                ) && under(w2[k].path@, broot) && wf_rel(rel_of(w2[k].path@, broot))
                    && wf_path(joined(home, rel_of(w2[k].path@, broot))) && under(
                    joined(home, rel_of(w2[k].path@, broot)),
                    home,
                ) && find(s1, w2[k].path@) == find(smid, w2[k].path@) && !under(
                    w2[k].path@,
                    home,
                ) && content_at(smid, w2[k].path@) is Some by {
                    let x = choose|x: int| 0 <= x < smid.len() && w2[k] == smid[x];
                    lemma_rel_of_wf(w2[k].path@, broot);
                    lemma_joined_wf(home, rel_of(w2[k].path@, broot));
                    crate::paths::lemma_separate_roots(broot, home, w2[k].path@);
                    lemma_find_at_index(smid, x);
                }
                assert forall|k1: int, k2: int|
                    #![trigger w2[k1], w2[k2]]
                    0 <= k1 < w2.len() && 0 <= k2 < w2.len() && k1 != k2 implies joined(
                    home,
                    rel_of(w2[k1].path@, broot),
                ) != joined(home, rel_of(w2[k2].path@, broot)) && !under(
                    joined(home, rel_of(w2[k1].path@, broot)),
                    joined(home, rel_of(w2[k2].path@, broot)),
                ) by {
                    let r1 = rel_of(w2[k1].path@, broot);
                    let r2 = rel_of(w2[k2].path@, broot);
                    lemma_under_join_rel(w2[k1].path@, broot);
                    lemma_under_join_rel(w2[k2].path@, broot);
                    lemma_join_injective(home, r1, r2);
                    lemma_join_under_iff(home, r1, r2);
                    lemma_join_under_iff(broot, r1, r2);
                }
            }
            let n2: usize = visits2.len();
            let mut j: usize = 0;
            while j < n2
                invariant
                    0 <= j <= n2,
                    s1 == old(fs).entries@,
                    nml == no_mirror_links(s1, *cfg),
                    !nml,
                    fs_wf(s1),
                    fs_wf(smid),
                    fs_wf(fs.entries@),
                    settings_wf(*cfg),
                    repo == cfg.repo_dir@,
                    home == cfg.home_dir@,
                    broot == cfg.backup_dir@,
                    igs == cfg.ignore_files@,
                    w == walk_seq(s1, repo, igs),
                    n == w.len(),
                    0 <= i < n,
                    dk == joined(home, rel_of(w[i as int].path@, repo)),
                    w2 == walk_seq(smid, broot, igs),
                    n2 == w2.len(),
                    visits2@.len() == n2,
                    forall|k: int|
                        #![trigger visits2@[k]]
                        0 <= k < n2 ==> visits2@[k].src@ == w2[k].path@ && visits2@[k].dest@
                            == joined(home, rel_of(w2[k].path@, broot)),
                    forall|k: int|
                        #![trigger w2[k]]
                        0 <= k < n2 ==> wf_path(w2[k].path@) && under(w2[k].path@, broot)
                            && wf_path(joined(home, rel_of(w2[k].path@, broot))) && under(
                            joined(home, rel_of(w2[k].path@, broot)),
                            home,
                        ) && find(s1, w2[k].path@) == find(smid, w2[k].path@) && !under(
                            w2[k].path@,
                            home,
                        ) && content_at(smid, w2[k].path@) is Some,
                    forall|k1: int, k2: int|
                        #![trigger w2[k1], w2[k2]]
                        0 <= k1 < n2 && 0 <= k2 < n2 && k1 != k2 ==> joined(
                            home,
                            rel_of(w2[k1].path@, broot),
                        ) != joined(home, rel_of(w2[k2].path@, broot)) && !under(
                            joined(home, rel_of(w2[k1].path@, broot)),
                            joined(home, rel_of(w2[k2].path@, broot)),
                        ),
                    forall|k: int|
                        #![trigger w[k]]
                        0 <= k < n ==> wf_path(joined(home, rel_of(w[k].path@, repo)))
                            && wf_rel(rel_of(w[k].path@, repo)) && under(
                            joined(home, rel_of(w[k].path@, repo)),
                            home,
                        ),
                    forall|q: Seq<char>|
                        #![trigger find(fs.entries@, q)]
                        !under(q, home) ==> find(fs.entries@, q) == find(s1, q),
                    forall|q: Seq<char>|
                        #![trigger link_at(fs.entries@, q)]
                        link_at(fs.entries@, q) is Some ==> link_at(s1, q) == link_at(
                            fs.entries@,
                            q,
                        ),
                    link_at(fs.entries@, dk) is None,
                    forall|k: int|
                        #![trigger w2[k]]
                        0 <= k < j ==> content_at(
                            fs.entries@,
                            joined(home, rel_of(w2[k].path@, broot)),
                        ) == content_at(s1, w2[k].path@),
                    forall|k: int|
                        #![trigger w[k]]
                        0 <= k < i ==> {
                            let dk2 = joined(home, rel_of(w[k].path@, repo));
                            let bk2 = joined(broot, rel_of(w[k].path@, repo));
                            &&& (link_at(s1, dk2) is None && content_at(s1, bk2) is Some
                                ==> content_at(fs.entries@, dk2) == content_at(s1, bk2))
                            &&& (link_at(s1, dk2) is Some ==> link_at(fs.entries@, dk2)
                                is None)
                            &&& (link_at(s1, dk2) is Some && !ignored(bk2, igs) && content_at(
                                s1,
                                bk2,
                            ) is Some ==> content_at(fs.entries@, dk2) == content_at(s1, bk2))
                        },
                decreases n2 - j,
            {
                let u = &visits2[j];
                let ghost t = joined(home, rel_of(w2[j as int].path@, broot));
                match fs.read(&u.src) {
                    None => {
                        return Err(FsError::NotAFile { path: u.src.clone() });
                    },
                    Some(content) => {
                        proof {
                            assert(find(fs.entries@, w2[j as int].path@) == find(
                                s1,
                                w2[j as int].path@,
                            ));
                            assert(content_at(s1, w2[j as int].path@) == Some(content@));
                        }
                        if fs.is_blocked(&u.dest) {
                            return Err(FsError::NotADirectory { path: u.dest.clone() });
                        }
                        if fs.has_dir(&u.dest) {
                            return Err(FsError::IsADirectory { path: u.dest.clone() });
                        }
                        acts.push(Action::CopyFile {
                            from: u.src.clone(),
                            to: u.dest.clone(),
                        });
                        let ghost pre = fs.entries@;
                        fs.set_file(&u.dest, content);
                        proof {
                            assert forall|q: Seq<char>| !under(q, home) implies #[trigger]
                                find(fs.entries@, q) == find(s1, q) by {
                                assert(q != t);
                                assert(find(fs.entries@, q) == find(pre, q));
                            }
                            assert forall|q: Seq<char>| link_at(
                                #[trigger] fs.entries@,
                                q,
                            ) is Some implies link_at(s1, q) == link_at(fs.entries@, q) by {
                                if q != t {
                                    assert(find(fs.entries@, q) == find(pre, q));
                                    assert(link_at(pre, q) == link_at(fs.entries@, q));
                                } else {
                                    assert(link_at(fs.entries@, q) is None);
                                }
                            }
                            assert(link_at(fs.entries@, dk) is None) by {
                                if dk != t {
                                    assert(find(fs.entries@, dk) == find(pre, dk));
                                }
                            }
                            assert forall|k: int| #![trigger w2[k]] 0 <= k < j + 1
                                implies content_at(
                                fs.entries@,
                                joined(home, rel_of(w2[k].path@, broot)),
                            ) == content_at(s1, w2[k].path@) by {
                                let tk = joined(home, rel_of(w2[k].path@, broot));
                                if k < j {
                                    assert(tk != t);
                                    assert(find(fs.entries@, tk) == find(pre, tk));
                                }
                            }
                            assert forall|k: int| #![trigger w[k]] 0 <= k < i implies {
                                let dk2 = joined(home, rel_of(w[k].path@, repo));
                                let bk2 = joined(broot, rel_of(w[k].path@, repo));
                                &&& (link_at(s1, dk2) is None && content_at(s1, bk2) is Some
                                    ==> content_at(fs.entries@, dk2) == content_at(s1, bk2))
                                &&& (link_at(s1, dk2) is Some ==> link_at(fs.entries@, dk2)
                                    is None)
                                &&& (link_at(s1, dk2) is Some && !ignored(bk2, igs)
                                    && content_at(s1, bk2) is Some ==> content_at(
                                    fs.entries@,
                                    dk2,
                                ) == content_at(s1, bk2))
                            } by {
                                let dk2 = joined(home, rel_of(w[k].path@, repo));
                                let bk2 = joined(broot, rel_of(w[k].path@, repo));
                                if dk2 == t {
                                    // the copy lands exactly on this
                                    // processed mirror: it carries the
                                    // same backup bytes
                                    assert(rel_of(w[k].path@, repo) == rel_of(
                                        w2[j as int].path@,
                                        broot,
                                    )) by {
                                        lemma_join_injective(
                                            home,
                                            rel_of(w[k].path@, repo),
                                            rel_of(w2[j as int].path@, broot),
                                        );
                                    }
                                    assert(w2[j as int].path@ == bk2) by {
                                        lemma_under_join_rel(w2[j as int].path@, broot);
                                    }
                                    assert(content_at(fs.entries@, dk2) == content_at(
                                        s1,
                                        bk2,
                                    ));
                                } else {
                                    assert(find(fs.entries@, dk2) == find(pre, dk2));
                                }
                            }
                        }
                    },
                }
                j += 1;
            }
            proof {
                // every backup file of the original tree has now been
                // copied to its home mirror
                assert(tree_restored(fs.entries@, s1, *cfg)) by {
                    reveal(tree_restored);
                    assert forall|q: Seq<char>|
                        under(q, broot) && #[trigger] content_at(s1, q) is Some && !ignored(
                            q,
                            igs,
                        ) implies content_at(fs.entries@, joined(home, rel_of(q, broot)))
                        == Some(content_at(s1, q).unwrap()) by {
                        crate::paths::lemma_separate_roots(broot, home, q);
                        assert(find(smid, q) == find(s1, q));
                        lemma_find_index(smid, q);
                        let x = choose|x: int|
                            0 <= x < smid.len() && smid[x].path@ == q && smid[x].node
                                == find(smid, q).unwrap();
                        assert(selected(smid[x], broot, igs));
                        lemma_walk_complete(smid, broot, igs, x);
                        let k = choose|k: int| 0 <= k < w2.len() && w2[k] == smid[x];
                        assert(content_at(
                            fs.entries@,
                            joined(home, rel_of(w2[k].path@, broot)),
                        ) == content_at(s1, w2[k].path@));
                    }
                }
                // the freshly emptied mirror got its own backup bytes
                // back whenever the backup holds them and is unignored
                assert((link_at(s1, dk) is Some && !ignored(bk, igs) && content_at(
                    s1,
                    bk,
                ) is Some) ==> content_at(fs.entries@, dk) == content_at(s1, bk)) by {
                    if content_at(s1, bk) is Some && !ignored(bk, igs) {
                        reveal(tree_restored);
                        assert(content_at(fs.entries@, joined(home, rel_of(bk, broot)))
                            == Some(content_at(s1, bk).unwrap()));
                        assert(rel_of(bk, broot) == rel_of(w[i as int].path@, repo)) by {
                            crate::paths::lemma_join_under_root(
                                broot,
                                rel_of(w[i as int].path@, repo),
                            );
                        }
                    }
                }
            }
        } else {
            let bp = join(&cfg.backup_dir, &v.rel);
            proof {
                assert(bp@ == bk);
                assert(find(fs.entries@, bk) == find(s1, bk)) by {
                    if under(bk, home) {
                        crate::paths::lemma_separate_roots(broot, home, bk);
                    }
                }
                assert(link_at(fs.entries@, dk) is None);
            }
            if fs.is_file(&bp) {
                let content = match fs.read(&bp) {
                    Some(c) => c,
                    None => {
                        proof {
                            assert(false);
                        }
                        Vec::new()
                    },
                };
                proof {
                    assert(content_at(s1, bk) == Some(content@));
                }
                if fs.is_blocked(&v.dest) {
                    proof {
                        if nml {
                            assert(blocked(s1, dk));
                            assert(repo_file(s1, *cfg, w[i as int].path@));
                            assert(!restore_ok(s1, *cfg));
                        }
                    }
                    return Err(FsError::NotADirectory { path: v.dest.clone() });
                }
                if fs.has_dir(&v.dest) {
                    proof {
                        if nml {
                            assert(dir_at(s1, dk));
                            assert(repo_file(s1, *cfg, w[i as int].path@));
                            assert(!restore_ok(s1, *cfg));
                        }
                    }
                    return Err(FsError::IsADirectory { path: v.dest.clone() });
                }
                acts.push(Action::CopyFile { from: bp.clone(), to: v.dest.clone() });
                let ghost pre = fs.entries@;
                fs.set_file(&v.dest, content);
                proof {
                    assert forall|q: Seq<char>| !under(q, home) implies #[trigger] find(
                        fs.entries@,
                        q,
                    ) == find(s1, q) by {
                        assert(q != dk);
                        assert(find(fs.entries@, q) == find(pre, q));
                    }
                    assert forall|q: Seq<char>| link_at(
                        #[trigger] fs.entries@,
                        q,
                    ) is Some implies link_at(s1, q) == link_at(fs.entries@, q) by {
                        if q != dk {
                            assert(find(fs.entries@, q) == find(pre, q));
                            assert(link_at(pre, q) == link_at(fs.entries@, q));
                        } else {
                            assert(link_at(fs.entries@, q) is None);
                        }
                    }
                    if nml {
                        assert forall|k: int| #![trigger w[k]] 0 <= k < n && k != i implies {
                            let dk2 = joined(home, rel_of(w[k].path@, repo));
                            blocked(fs.entries@, dk2) == blocked(pre, dk2) && dir_at(
                                fs.entries@,
                                dk2,
                            ) == dir_at(pre, dk2) && find(fs.entries@, dk2) == find(pre, dk2)
                        } by {
                            let dk2 = joined(home, rel_of(w[k].path@, repo));
                            assert forall|q: Seq<char>| !covers(q, dk) implies #[trigger]
                                find(fs.entries@, q) == find(pre, q) by {
                                assert(q != dk);
                            }
                            lemma_queries_frame(pre, fs.entries@, dk, dk2);
                        }
                    }
                    assert forall|k: int| #![trigger w[k]] 0 <= k < i implies {
                        let dk2 = joined(home, rel_of(w[k].path@, repo));
                        find(fs.entries@, dk2) == find(pre, dk2)
                    } by {
                        let dk2 = joined(home, rel_of(w[k].path@, repo));
                        assert(dk2 != dk);
                    }
                    if fired_before {
                        assert(tree_restored(fs.entries@, s1, *cfg)) by {
                            reveal(tree_restored);
                            assert forall|q: Seq<char>|
                                under(q, broot) && #[trigger] content_at(s1, q) is Some
                                    && !ignored(q, igs) implies content_at(
                                fs.entries@,
                                joined(home, rel_of(q, broot)),
                            ) == Some(content_at(s1, q).unwrap()) by {
                                let t = joined(home, rel_of(q, broot));
                                if t == dk {
                                    assert(rel_of(q, broot) == rel_of(
                                        w[i as int].path@,
                                        repo,
                                    )) by {
                                        lemma_join_injective(
                                            home,
                                            rel_of(q, broot),
                                            rel_of(w[i as int].path@, repo),
                                        );
                                    }
                                    assert(q == bk) by {
                                        lemma_under_join_rel(q, broot);
                                    }
                                } else {
                                    assert(find(fs.entries@, t) == find(pre, t));
                                }
                            }
                        }
                    }
                }
            } else {
                proof {
                    assert(content_at(s1, bk) is None);
                }
            }
        }
        proof {
            // after this visit, a mirror that was a symlink is fired:
            // if it still read as one, the branch above removed it
            if link_at(s1, dk) is Some && !fired_before {
                assert(find(fs.entries@, dk) == find(s1, dk) || link_at(
                    fs.entries@,
                    dk,
                ) is None);
            }
        }
        i += 1;
    }
    proof {
        assert forall|p: Seq<char>| #[trigger] repo_file(s1, *cfg, p) implies {
            &&& (link_at(s1, mirror_of(*cfg, p)) is Some ==> link_at(
                fs.entries@,
                mirror_of(*cfg, p),
            ) is None)
            &&& (content_at(s1, bpath_of(*cfg, p)) is Some && (link_at(
                s1,
                mirror_of(*cfg, p),
            ) is None || !ignored(bpath_of(*cfg, p), igs)) ==> content_at(
                fs.entries@,
                mirror_of(*cfg, p),
            ) == content_at(s1, bpath_of(*cfg, p)))
        } by {
            lemma_find_index(s1, p);
            let x = choose|x: int|
                0 <= x < s1.len() && s1[x].path@ == p && s1[x].node == find(s1, p).unwrap();
            assert(selected(s1[x], repo, igs));
            lemma_walk_complete(s1, repo, igs, x);
            let k = choose|k: int| 0 <= k < w.len() && w[k] == s1[x];
            assert(joined(home, rel_of(w[k].path@, repo)) == mirror_of(*cfg, p));
            assert(joined(broot, rel_of(w[k].path@, repo)) == bpath_of(*cfg, p));
        }
        if nml {
            assert forall|p: Seq<char>| #[trigger] repo_file(s1, *cfg, p) implies (
            content_at(s1, bpath_of(*cfg, p)) is Some ==> !blocked(s1, mirror_of(*cfg, p))
                && !dir_at(s1, mirror_of(*cfg, p))) by {
                lemma_find_index(s1, p);
                let x = choose|x: int|
                    0 <= x < s1.len() && s1[x].path@ == p && s1[x].node == find(
                        s1,
                        p,
                    ).unwrap();
                assert(selected(s1[x], repo, igs));
                lemma_walk_complete(s1, repo, igs, x);
                let k = choose|k: int| 0 <= k < w.len() && w[k] == s1[x];
                assert(joined(home, rel_of(w[k].path@, repo)) == mirror_of(*cfg, p));
                assert(joined(broot, rel_of(w[k].path@, repo)) == bpath_of(*cfg, p));
            }
        }
        if exists|p: Seq<char>| repo_file(s1, *cfg, p) && link_at(s1, mirror_of(*cfg, p))
            is Some {
            let p = choose|p: Seq<char>|
                repo_file(s1, *cfg, p) && link_at(s1, mirror_of(*cfg, p)) is Some;
            lemma_find_index(s1, p);
            let x = choose|x: int|
                0 <= x < s1.len() && s1[x].path@ == p && s1[x].node == find(s1, p).unwrap();
            assert(selected(s1[x], repo, igs));
            lemma_walk_complete(s1, repo, igs, x);
            let k = choose|k: int| 0 <= k < w.len() && w[k] == s1[x];
            assert(link_at(s1, joined(home, rel_of(w[k].path@, repo))) is Some);
            assert(tree_restored(fs.entries@, s1, *cfg));
        }
    }
    Ok(())
}

/// Backing up twice is idempotent: with `s1` the tree after a
/// successful backup of `s0`, and home and repository unchanged since,
/// a second backup also succeeds, and — with `s2` the tree it leaves —
/// every path reads exactly as it did after the first run: repeated
/// backups overwrite byte-identically.
pub proof fn lemma_backup_idempotent(
    s0: Seq<FsEntry>,
    s1: Seq<FsEntry>,
    s2: Seq<FsEntry>,
    c: Settings,
)
    requires
        fs_wf(s0),
        fs_wf(s1),
        settings_wf(c),
        backup_ok(s0, c),
        backup_post(s0, s1, c),
        forall|q: Seq<char>|
            #![trigger find(s1, q)]
            find(s1, q) != find(s0, q) ==> exists|p: Seq<char>|
                repo_file(s0, c, p) && q == bpath_of(c, p) && backup_read(
                    s0,
                    mirror_of(c, p),
                    c.backup_dir@,
                ) is Some,
        backup_post(s1, s2, c),
        forall|q: Seq<char>|
            #![trigger find(s2, q)]
            find(s2, q) != find(s1, q) ==> exists|p: Seq<char>|
                repo_file(s1, c, p) && q == bpath_of(c, p) && backup_read(
                    s1,
                    mirror_of(c, p),
                    c.backup_dir@,
                ) is Some,
    ensures
        backup_ok(s1, c),
        forall|q: Seq<char>| #![trigger content_at(s2, q)] content_at(s2, q) == content_at(s1, q),
        forall|q: Seq<char>| #![trigger link_at(s2, q)] link_at(s2, q) == link_at(s1, q),
        forall|q: Seq<char>| #![trigger has_path(s2, q)] has_path(s2, q) == has_path(s1, q),
{
    let repo = c.repo_dir@;
    let home = c.home_dir@;
    let broot = c.backup_dir@;
    // the repository files and their mirrors read the same after the
    // first backup, which touched only the backup tree
    assert forall|p: Seq<char>| #[trigger] repo_file(s1, c, p) == repo_file(s0, c, p) by {
        if repo_file(s1, c, p) {
            lemma_find_index(s1, p);
            lemma_separate_roots(repo, broot, p);
            assert(find(s1, p) == find(s0, p));
        }
        if repo_file(s0, c, p) {
            lemma_find_index(s0, p);
            lemma_separate_roots(repo, broot, p);
            assert(find(s1, p) == find(s0, p));
        }
    }
    assert forall|p: Seq<char>| #[trigger] repo_file(s0, c, p) implies wf_path(p) && wf_rel(
        rel_of(p, repo),
    ) && wf_path(mirror_of(c, p)) && under(mirror_of(c, p), home) && wf_path(bpath_of(c, p))
        && under(bpath_of(c, p), broot) && backup_read(s1, mirror_of(c, p), broot)
        == backup_read(s0, mirror_of(c, p), broot) && (backup_read(
        s0,
        mirror_of(c, p),
        broot,
    ) is Some ==> !blocked(s1, bpath_of(c, p)) && !dir_at(s1, bpath_of(c, p))) && blocked(
        s1,
        mirror_of(c, p),
    ) == blocked(s0, mirror_of(c, p)) && dir_at(
        s1,
        mirror_of(c, p),
    ) == dir_at(s0, mirror_of(c, p)) && find(s1, mirror_of(c, p)) == find(
        s0,
        mirror_of(c, p),
    ) by {
        lemma_find_index(s0, p);
        lemma_rel_of_wf(p, repo);
        lemma_joined_wf(home, rel_of(p, repo));
        lemma_joined_wf(broot, rel_of(p, repo));
        let dk = mirror_of(c, p);
        let bk = bpath_of(c, p);
        lemma_separate_roots(home, broot, dk);
        if under(broot, dk) {
            crate::paths::lemma_under_trans(broot, dk, home);
        }
        lemma_queries_frame_subtree(s0, s1, broot, dk);
        // the mirror's read is a function of paths outside the backup
        assert(backup_read(s1, dk, broot) == backup_read(s0, dk, broot)) by {
            match find(s0, dk) {
                Some(Node::Link(t)) => {
                    if !under(t@, broot) {
                        assert(find(s1, t@) == find(s0, t@));
                    }
                },
                _ => {},
            }
        }
        // nothing inside the backup tree blocks or shadows the copy:
        // the first run wrote only non-nested copy paths
        if backup_read(s0, dk, broot) is Some {
        assert(!blocked(s1, bk)) by {
            if blocked(s1, bk) {
                let x = choose|x: int| 0 <= x < s1.len() && under(bk, s1[x].path@);
                let xp = s1[x].path@;
                lemma_find_at_index(s1, x);
                if find(s1, xp) == find(s0, xp) {
                    lemma_find_index(s0, xp);
                    assert(blocked(s0, bk));
                } else {
                    let p2 = choose|p2: Seq<char>|
                        repo_file(s0, c, p2) && xp == bpath_of(c, p2) && backup_read(
                            s0,
                            mirror_of(c, p2),
                            broot,
                        ) is Some;
                    lemma_find_index(s0, p2);
                    lemma_rel_of_wf(p2, repo);
                    lemma_under_join_rel(p, repo);
                    lemma_under_join_rel(p2, repo);
                    crate::paths::lemma_join_under_iff(
                        broot,
                        rel_of(p, repo),
                        rel_of(p2, repo),
                    );
                    crate::paths::lemma_join_under_iff(
                        repo,
                        rel_of(p, repo),
                        rel_of(p2, repo),
                    );
                    assert(under(p, p2));
                    let a = choose|a: int| 0 <= a < s0.len() && s0[a].path@ == p;
                    let b2 = choose|b2: int| 0 <= b2 < s0.len() && s0[b2].path@ == p2;
                    assert(!under(s0[a].path@, s0[b2].path@));
                }
            }
        }
        assert(!dir_at(s1, bk)) by {
            if dir_at(s1, bk) {
                let x = choose|x: int| 0 <= x < s1.len() && under(s1[x].path@, bk);
                let xp = s1[x].path@;
                lemma_find_at_index(s1, x);
                if find(s1, xp) == find(s0, xp) {
                    lemma_find_index(s0, xp);
                    assert(dir_at(s0, bk));
                } else {
                    let p2 = choose|p2: Seq<char>|
                        repo_file(s0, c, p2) && xp == bpath_of(c, p2) && backup_read(
                            s0,
                            mirror_of(c, p2),
                            broot,
                        ) is Some;
                    lemma_find_index(s0, p2);
                    lemma_rel_of_wf(p2, repo);
                    lemma_under_join_rel(p, repo);
                    lemma_under_join_rel(p2, repo);
                    crate::paths::lemma_join_under_iff(
                        broot,
                        rel_of(p2, repo),
                        rel_of(p, repo),
                    );
                    crate::paths::lemma_join_under_iff(
                        repo,
                        rel_of(p2, repo),
                        rel_of(p, repo),
                    );
                    assert(under(p2, p));
                    let a = choose|a: int| 0 <= a < s0.len() && s0[a].path@ == p2;
                    let b2 = choose|b2: int| 0 <= b2 < s0.len() && s0[b2].path@ == p;
                    assert(!under(s0[a].path@, s0[b2].path@));
                }
            }
        }
        }
    }
    assert(backup_ok(s1, c));
    // the second run rewrites each copy with the bytes it already holds
    assert forall|q: Seq<char>|
        #![trigger find(s2, q)]
        content_at(s2, q) == content_at(s1, q) && link_at(s2, q) == link_at(s1, q)
            && has_path(s2, q) == has_path(s1, q) by {
        if find(s2, q) != find(s1, q) {
            let p = choose|p: Seq<char>|
                repo_file(s1, c, p) && q == bpath_of(c, p) && backup_read(
                    s1,
                    mirror_of(c, p),
                    broot,
                ) is Some;
            assert(repo_file(s0, c, p));
            assert(backup_read(s0, mirror_of(c, p), broot) is Some);
            assert(content_at(s1, q) == Some(backup_read(s0, mirror_of(c, p), broot).unwrap()));
            assert(content_at(s2, q) == Some(backup_read(s1, mirror_of(c, p), broot).unwrap()));
        }
    }
    assert forall|q: Seq<char>| #[trigger] content_at(s2, q) == content_at(s1, q) by {
        assert(find(s2, q) == find(s2, q));
    }
    assert forall|q: Seq<char>| #[trigger] link_at(s2, q) == link_at(s1, q) by {
        assert(find(s2, q) == find(s2, q));
    }
    assert forall|q: Seq<char>| #[trigger] has_path(s2, q) == has_path(s1, q) by {
        assert(find(s2, q) == find(s2, q));
    }
}

/// Round trip: a backup followed by a restore, with no link changes in
/// between, leaves every conflicting home file — a regular file that a
/// repository file would displace — byte-identical to its pre-backup
/// content.
pub proof fn lemma_backup_restore_round_trip(
    s0: Seq<FsEntry>,
    s1: Seq<FsEntry>,
    s2: Seq<FsEntry>,
    c: Settings,
    p: Seq<char>,
)
    requires
        fs_wf(s0),
        settings_wf(c),
        backup_post(s0, s1, c),
        restore_post(s1, s2, c),
        no_mirror_links(s0, c),
        repo_file(s0, c, p),
        content_at(s0, mirror_of(c, p)) is Some,
    ensures
        content_at(s2, mirror_of(c, p)) == content_at(s0, mirror_of(c, p)),
{
    let dk = mirror_of(c, p);
    let bk = bpath_of(c, p);
    assert(under(p, c.repo_dir@));
    lemma_rel_of_wf_helper(s0, c, p);
    // the conflicting file is a regular file, so the backup copied its bytes
    assert(backup_read(s0, dk, c.backup_dir@) == content_at(s0, dk));
    assert(content_at(s1, bk) == content_at(s0, dk));
    // the repository tree and the home tree read the same after the backup
    assert forall|q: Seq<char>| #[trigger] repo_file(s1, c, q) == repo_file(s0, c, q)
        && (under(q, c.repo_dir@) ==> find(s1, q) == find(s0, q)) by {
        if under(q, c.repo_dir@) {
            lemma_separate_roots(c.repo_dir@, c.backup_dir@, q);
        }
    }
    assert forall|q: Seq<char>| #[trigger] repo_file(s0, c, q) implies link_at(
        s1,
        mirror_of(c, q),
    ) is None && mirror_of(c, q) == joined(c.home_dir@, rel_of(q, c.repo_dir@)) by {
        lemma_find_index(s0, q);
        let x = choose|x: int|
            0 <= x < s0.len() && s0[x].path@ == q && s0[x].node == find(s0, q).unwrap();
        lemma_rel_of_wf(q, c.repo_dir@);
        lemma_joined_wf(c.home_dir@, rel_of(q, c.repo_dir@));
        lemma_separate_roots(c.home_dir@, c.backup_dir@, mirror_of(c, q));
        assert(find(s1, mirror_of(c, q)) == find(s0, mirror_of(c, q)));
    }
    assert(no_mirror_links(s1, c));
    assert(repo_file(s1, c, p));
    assert(content_at(s2, dk) == Some(content_at(s1, bk).unwrap()));
    assert(content_at(s2, dk) == content_at(s0, dk));
}

/// The mirror and backup paths of a repository file are well-formed and
/// lie under their roots, with the home mirror outside the backup tree.
proof fn lemma_rel_of_wf_helper(s0: Seq<FsEntry>, c: Settings, p: Seq<char>)
    requires
        fs_wf(s0),
        settings_wf(c),
        repo_file(s0, c, p),
    ensures
        wf_path(p),
        wf_rel(rel_of(p, c.repo_dir@)),
        wf_path(mirror_of(c, p)),
        under(mirror_of(c, p), c.home_dir@),
        wf_path(bpath_of(c, p)),
        under(bpath_of(c, p), c.backup_dir@),
        !under(mirror_of(c, p), c.backup_dir@),
        mirror_of(c, p) != c.backup_dir@,
{
    lemma_find_index(s0, p);
    let x = choose|x: int|
        0 <= x < s0.len() && s0[x].path@ == p && s0[x].node == find(s0, p).unwrap();
    lemma_rel_of_wf(p, c.repo_dir@);
    lemma_joined_wf(c.home_dir@, rel_of(p, c.repo_dir@));
    lemma_joined_wf(c.backup_dir@, rel_of(p, c.repo_dir@));
    lemma_separate_roots(c.home_dir@, c.backup_dir@, mirror_of(c, p));
}

} // verus!
