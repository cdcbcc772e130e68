//! First-time initialization, gated by the `initialized` flag.
//!
//! One sequence: back up conflicting home files, link the whole
//! repository tree, classify the files now present in shared
//! directories as mapped, clear suggestions and differences, and mark
//! the installation initialized. If linking fails the backup is
//! restored, and the rollback error — or, if rollback worked, the link
//! error — is surfaced. Running setup again once initialized does
//! nothing and succeeds.

use vstd::prelude::*;
use crate::paths::{under, ignored, lemma_joined_wf, lemma_rel_of_wf, lemma_separate_roots};
use crate::fs::{
    Fs, fs_wf, find, link_at, content_at, blocked, lemma_queries_frame_subtree,
    lemma_find_index, lemma_find_at_index,
};
use crate::walker::{selected, shared_dir_file};
use crate::link::{Settings, settings_wf, Action, FsError, mirror_of, link_all};
use crate::backup::{
    backup, restore, backup_ok, backup_post, backup_read, bpath_of, repo_file,
};
use crate::state::{State, state_wf, in_list};

verus! {

/// Which step of setup failed, carrying the filesystem conflict.
#[derive(Debug)]
pub enum SetupError {
    Backup(FsError),
    Linking(FsError),
    Rollback(FsError),
}

/// Every repository file can be mirrored: no file occupies an ancestor
/// of any mirror path.
pub open spec fn all_mirrors_free(s: Seq<crate::fs::FsEntry>, c: Settings) -> bool {
    forall|p: Seq<char>|
        #![trigger repo_file(s, c, p)]
        repo_file(s, c, p) ==> !blocked(s, mirror_of(c, p))
}

/// First-time setup: backup, link-all, classify, mark initialized —
/// with restore as the rollback when linking fails. Succeeds exactly
/// when already initialized, or when the backup and every link can be
/// placed.
pub fn setup(fs: &mut Fs, cfg: &Settings, st: &mut State, acts: &mut Vec<Action>) -> (r:
    Result<(), SetupError>)
    requires
        fs_wf(old(fs).entries@),
        settings_wf(*cfg),
        state_wf(*old(st)),
    ensures
        fs_wf(final(fs).entries@),
        state_wf(*final(st)),
        forall|q: Seq<char>|
            #![trigger find(final(fs).entries@, q)]
            !under(q, cfg.home_dir@) && !under(q, cfg.backup_dir@) ==> find(
                final(fs).entries@,
                q,
            ) == find(old(fs).entries@, q),
        old(st).initialized ==> {
            &&& r is Ok
            &&& final(fs).entries@ == old(fs).entries@
            &&& *final(st) == *old(st)
        },
        !old(st).initialized ==> {
            &&& (r is Ok <==> backup_ok(old(fs).entries@, *cfg) && all_mirrors_free(
                old(fs).entries@,
                *cfg,
            ))
            &&& (r is Ok ==> {
                &&& final(st).initialized
                &&& final(st).suggested_files@.len() == 0
                &&& final(st).differences@.len() == 0
                &&& (forall|p: Seq<char>|
                    in_list(final(st).mapped_files@, p) <==> shared_dir_file(
                        final(fs).entries@,
                        cfg.repo_dir@,
                        cfg.home_dir@,
                        p,
                    ))
                &&& (forall|p: Seq<char>|
                    #![trigger repo_file(old(fs).entries@, *cfg, p)]
                    repo_file(old(fs).entries@, *cfg, p) ==> link_at(
                        final(fs).entries@,
                        mirror_of(*cfg, p),
                    ) == Some(p))
                &&& (forall|p: Seq<char>|
                    #![trigger repo_file(old(fs).entries@, *cfg, p)]
                    repo_file(old(fs).entries@, *cfg, p) ==> (backup_read(
                        old(fs).entries@,
                        mirror_of(*cfg, p),
                        cfg.backup_dir@,
                    ) matches Some(b) ==> content_at(final(fs).entries@, bpath_of(*cfg, p))
                        == Some(b)))
            })
            &&& (r is Err ==> *final(st) == *old(st))
            &&& (r matches Err(e) ==> (e is Backup <==> !backup_ok(old(fs).entries@, *cfg)))
            &&& (r matches Err(e) ==> ((e is Linking || e is Rollback) <==> backup_ok(
                old(fs).entries@,
                *cfg,
            ) && !all_mirrors_free(old(fs).entries@, *cfg)))
            &&& (r matches Err(e) ==> (e is Linking ==> forall|p: Seq<char>|
                #![trigger repo_file(old(fs).entries@, *cfg, p)]
                repo_file(old(fs).entries@, *cfg, p) ==> (backup_read(
                    old(fs).entries@,
                    mirror_of(*cfg, p),
                    cfg.backup_dir@,
                ) is Some && !ignored(bpath_of(*cfg, p), cfg.ignore_files@) ==> content_at(
                    final(fs).entries@,
                    mirror_of(*cfg, p),
                ) == backup_read(old(fs).entries@, mirror_of(*cfg, p), cfg.backup_dir@))))
        },
{
    if st.initialized {
        return Ok(());
    }
    let ghost s0 = fs.entries@;
    let ghost repo = cfg.repo_dir@;
    let ghost home = cfg.home_dir@;
    let ghost broot = cfg.backup_dir@;
    match backup(fs, cfg, acts) {
        Err(e) => {
            proof {
                assert(!backup_ok(s0, *cfg));
            }
            return Err(SetupError::Backup(e));
        },
        Ok(_) => {},
    }
    let ghost smid = fs.entries@;
    proof {
        // the backup touched only the backup tree, so the repository
        // files and their mirrors read as before
        assert forall|p: Seq<char>| #[trigger] repo_file(smid, *cfg, p) == repo_file(
            s0,
            *cfg,
            p,
        ) by {
            if repo_file(smid, *cfg, p) {
                lemma_find_index(smid, p);
                lemma_separate_roots(repo, broot, p);
                assert(find(smid, p) == find(s0, p));
            }
            if repo_file(s0, *cfg, p) {
                lemma_find_index(s0, p);
                lemma_separate_roots(repo, broot, p);
                assert(find(smid, p) == find(s0, p));
            }
        }
        assert forall|p: Seq<char>| #[trigger] repo_file(s0, *cfg, p) implies blocked(
            smid,
            mirror_of(*cfg, p),
        ) == blocked(s0, mirror_of(*cfg, p)) && mirror_of(*cfg, p) != broot && !under(
            mirror_of(*cfg, p),
            broot,
        ) by {
            lemma_find_index(s0, p);
            lemma_rel_of_wf(p, repo);
            lemma_joined_wf(home, crate::paths::rel_of(p, repo));
            lemma_separate_roots(home, broot, mirror_of(*cfg, p));
            if under(broot, mirror_of(*cfg, p)) {
                crate::paths::lemma_under_trans(broot, mirror_of(*cfg, p), home);
            }
            lemma_queries_frame_subtree(s0, smid, broot, mirror_of(*cfg, p));
        }
    }
    match link_all(fs, cfg, acts) {
        Err(e) => {
            proof {
                // some mirror was blocked: setup cannot succeed
                assert(!(forall|i: int|
                    #![trigger smid[i]]
                    0 <= i < smid.len() && selected(smid[i], repo, cfg.ignore_files@)
                        ==> !blocked(smid, mirror_of(*cfg, smid[i].path@))));
                let i = choose|i: int|
                    !(0 <= i < smid.len() && selected(smid[i], repo, cfg.ignore_files@)
                        ==> !blocked(smid, mirror_of(*cfg, smid[i].path@)));
                lemma_find_at_index(smid, i);
                assert(repo_file(smid, *cfg, smid[i].path@));
                assert(!all_mirrors_free(s0, *cfg));
            }
            let ghost s2 = fs.entries@;
            match restore(fs, cfg, acts) {
                Err(e2) => {
                    proof {
                        assert forall|q: Seq<char>| !under(q, home) && !under(q, broot)
                            implies #[trigger] find(fs.entries@, q) == find(s0, q) by {
                            assert(find(fs.entries@, q) == find(s2, q));
                            assert(find(s2, q) == find(smid, q));
                            assert(find(smid, q) == find(s0, q));
                        }
                    }
                    return Err(SetupError::Rollback(e2));
                },
                Ok(()) => {
                    proof {
                        assert forall|q: Seq<char>| !under(q, home) && !under(q, broot)
                            implies #[trigger] find(fs.entries@, q) == find(s0, q) by {
                            assert(find(fs.entries@, q) == find(s2, q));
                            assert(find(s2, q) == find(smid, q));
                            assert(find(smid, q) == find(s0, q));
                        }
                        // the rollback put every backed-up conflicting
                        // file back at its home path
                        assert forall|p: Seq<char>|
                            #[trigger] repo_file(s0, *cfg, p) implies (backup_read(
                            s0,
                            mirror_of(*cfg, p),
                            broot,
                        ) is Some && !ignored(bpath_of(*cfg, p), cfg.ignore_files@)
                            ==> content_at(fs.entries@, mirror_of(*cfg, p)) == backup_read(
                            s0,
                            mirror_of(*cfg, p),
                            broot,
                        )) by {
                            lemma_find_index(s0, p);
                            lemma_separate_roots(repo, broot, p);
                            lemma_separate_roots(repo, home, p);
                            assert(find(smid, p) == find(s0, p));
                            assert(find(s2, p) == find(smid, p));
                            assert(repo_file(s2, *cfg, p));
                            lemma_rel_of_wf(p, repo);
                            lemma_joined_wf(broot, crate::paths::rel_of(p, repo));
                            lemma_separate_roots(broot, home, bpath_of(*cfg, p));
                            assert(find(s2, bpath_of(*cfg, p)) == find(
                                smid,
                                bpath_of(*cfg, p),
                            ));
                        }
                    }
                    return Err(SetupError::Linking(e));
                },
            }
        },
        Ok(()) => {
            proof {
                assert forall|i: int|
                    0 <= i < smid.len() && selected(
                        #[trigger] smid[i],
                        repo,
                        cfg.ignore_files@,
                    ) implies !blocked(smid, mirror_of(*cfg, smid[i].path@)) by {
                    lemma_find_at_index(smid, i);
                    assert(repo_file(smid, *cfg, smid[i].path@));
                }
            }
        },
    }
    let ghost sfin = fs.entries@;
    proof {
        assert(all_mirrors_free(s0, *cfg)) by {
            assert forall|p: Seq<char>| #[trigger] repo_file(s0, *cfg, p) implies !blocked(
                s0,
                mirror_of(*cfg, p),
            ) by {
                assert(repo_file(smid, *cfg, p) == repo_file(s0, *cfg, p));
                lemma_find_index(smid, p);
                let i = choose|i: int|
                    0 <= i < smid.len() && smid[i].path@ == p && smid[i].node == find(
                        smid,
                        p,
                    ).unwrap();
                assert(selected(smid[i], repo, cfg.ignore_files@));
                assert(!blocked(smid, mirror_of(*cfg, smid[i].path@)));
            }
        }
        assert forall|p: Seq<char>| #[trigger] repo_file(s0, *cfg, p) implies link_at(
            sfin,
            mirror_of(*cfg, p),
        ) == Some(p) && (backup_read(s0, mirror_of(*cfg, p), broot) matches Some(b)
            ==> content_at(sfin, bpath_of(*cfg, p)) == Some(b)) by {
            assert(repo_file(smid, *cfg, p) == repo_file(s0, *cfg, p));
            lemma_find_index(smid, p);
            let i = choose|i: int|
                0 <= i < smid.len() && smid[i].path@ == p && smid[i].node == find(
                    smid,
                    p,
                ).unwrap();
            assert(selected(smid[i], repo, cfg.ignore_files@));
            assert(link_at(sfin, mirror_of(*cfg, smid[i].path@)) == Some(smid[i].path@));
            lemma_rel_of_wf(p, repo);
            lemma_joined_wf(broot, crate::paths::rel_of(p, repo));
            lemma_separate_roots(broot, home, bpath_of(*cfg, p));
            assert(find(sfin, bpath_of(*cfg, p)) == find(smid, bpath_of(*cfg, p)));
        }
    }
    crate::sync::intitialize_mapped(fs, cfg, st);
    st.suggested_files = Vec::new();
    st.differences = Vec::new();
    st.initialized = true;
    Ok(())
}

} // verus!
