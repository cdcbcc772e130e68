//! One synchronization pass, split at the fetch.
//!
//! A pass runs in two halves around the backend fetch, which only the
//! daemon can perform. `sync_prepare` untracks every repository file
//! whose home symlink the user removed — destructive, and deliberately
//! before the fetch. After the fetch and a fresh snapshot,
//! `sync_finish` discovers destination-only files, links newly added
//! repository files, and replaces the difference list wholesale with
//! the classified status results.

use vstd::prelude::*;
use crate::paths::{
    wf_path, wf_rel, under, joined, rel_of, lemma_joined_wf, lemma_rel_of_wf,
    lemma_under_join_rel, lemma_join_injective, lemma_join_under_iff, lemma_separate_roots,
};
use crate::fs::{
    Fs, FsEntry, fs_wf, find, link_at, has_path, dir_at, blocked, covers, lemma_queries_frame,
    lemma_find_index, lemma_find_at_index,
};
use crate::walker::{
    walk_equal, walk_seq, selected, lemma_walk_membership, lemma_walk_wf, lemma_walk_complete,
    shared_dir_file, is_shared_dir_file,
};
use crate::link::{Settings, settings_wf, Action, FsError, mirror_of};
use crate::state::{
    State, state_wf, in_list, distinct_list, Difference, StatusDelta, diff_kind_of,
    list_contains,
};

verus! {

/// Untrack removed links: for every visited repository file whose home
/// mirror is not currently a symlink — the user deleted the link or put
/// a real file there — delete the repository file. Destructive and
/// irreversible; runs before every fetch.
pub fn link_removed(fs: &mut Fs, cfg: &Settings, acts: &mut Vec<Action>)
    requires
        fs_wf(old(fs).entries@),
        settings_wf(*cfg),
    ensures
        fs_wf(final(fs).entries@),
        forall|q: Seq<char>|
            #![trigger find(final(fs).entries@, q)]
            !under(q, cfg.repo_dir@) ==> find(final(fs).entries@, q) == find(
                old(fs).entries@,
                q,
            ),
        forall|i: int|
            #![trigger old(fs).entries@[i]]
            0 <= i < old(fs).entries@.len() && selected(
                old(fs).entries@[i],
                cfg.repo_dir@,
                cfg.ignore_files@,
            ) ==> {
                &&& (link_at(old(fs).entries@, mirror_of(*cfg, old(fs).entries@[i].path@))
                    is Some ==> find(final(fs).entries@, old(fs).entries@[i].path@) == find(
                    old(fs).entries@,
                    old(fs).entries@[i].path@,
                ))
                &&& (link_at(old(fs).entries@, mirror_of(*cfg, old(fs).entries@[i].path@))
                    is None ==> find(final(fs).entries@, old(fs).entries@[i].path@) is None)
            },
{
    let ghost s0 = fs.entries@;
    let ghost repo = cfg.repo_dir@;
    let ghost home = cfg.home_dir@;
    let ghost igs = cfg.ignore_files@;
    let ghost w = walk_seq(s0, repo, igs);
    let visits = walk_equal(fs, &cfg.repo_dir, &cfg.home_dir, &cfg.ignore_files);
    proof {
        lemma_walk_membership(s0, repo, igs);
        lemma_walk_wf(s0, repo, igs);
        assert forall|k: int| #![trigger w[k]] 0 <= k < w.len() implies wf_path(w[k].path@)
            && under(w[k].path@, repo) && wf_rel(rel_of(w[k].path@, repo)) && wf_path(
            joined(home, rel_of(w[k].path@, repo)),
        ) && !under(joined(home, rel_of(w[k].path@, repo)), repo) by {
            let i = choose|i: int| 0 <= i < s0.len() && w[k] == s0[i];
            lemma_rel_of_wf(w[k].path@, repo);
            lemma_joined_wf(home, rel_of(w[k].path@, repo));
            lemma_separate_roots(home, repo, joined(home, rel_of(w[k].path@, repo)));
        }
    }
    let n: usize = visits.len();
    let mut i: usize = 0;
    while i < n
        invariant
            0 <= i <= n,
            s0 == old(fs).entries@,
            fs_wf(s0),
            fs_wf(fs.entries@),
            settings_wf(*cfg),
            repo == cfg.repo_dir@,
            home == cfg.home_dir@,
            igs == cfg.ignore_files@,
            w == walk_seq(s0, repo, igs),
            n == w.len(),
            visits@.len() == n,
            forall|k: int|
                #![trigger visits@[k]]
                0 <= k < n ==> visits@[k].src@ == w[k].path@ && visits@[k].dest@ == joined(
                    home,
                    rel_of(w[k].path@, repo),
                ),
            forall|k: int|
                #![trigger w[k]]
                0 <= k < n ==> wf_path(w[k].path@) && under(w[k].path@, repo) && wf_path(
                    joined(home, rel_of(w[k].path@, repo)),
                ) && !under(joined(home, rel_of(w[k].path@, repo)), repo),
            forall|k1: int, k2: int|
                #![trigger w[k1], w[k2]]
                0 <= k1 < n && 0 <= k2 < n && k1 != k2 ==> w[k1].path@ != w[k2].path@
                    && !under(w[k1].path@, w[k2].path@),
            forall|q: Seq<char>|
                #![trigger find(fs.entries@, q)]
                !under(q, repo) ==> find(fs.entries@, q) == find(s0, q),
            forall|k: int|
                #![trigger w[k]]
                i <= k < n ==> find(fs.entries@, w[k].path@) == find(s0, w[k].path@),
            forall|k: int|
                #![trigger w[k]]
                0 <= k < i ==> {
                    let dk = joined(home, rel_of(w[k].path@, repo));
                    &&& (link_at(s0, dk) is Some ==> find(fs.entries@, w[k].path@) == find(
                        s0,
                        w[k].path@,
                    ))
                    &&& (link_at(s0, dk) is None ==> find(fs.entries@, w[k].path@) is None)
                },
        decreases n - i,
    {
        let v = &visits[i];
        let ghost dk = joined(home, rel_of(w[i as int].path@, repo));
        let ghost pk = w[i as int].path@;
        proof {
            assert(find(fs.entries@, dk) == find(s0, dk));
        }
        if !fs.is_link(&v.dest) {
            acts.push(Action::RemoveFile { path: v.src.clone() });
            let ghost pre = fs.entries@;
            fs.remove_subtree(&v.src);
            proof {
                assert forall|q: Seq<char>| !under(q, repo) implies #[trigger] find(
                    fs.entries@,
                    q,
                ) == find(s0, q) by {
                    if covers(q, pk) {
                        if q == pk {
                            assert(under(q, repo));
                        } else {
                            crate::paths::lemma_under_trans(q, pk, repo);
                        }
                    } else {
                        assert(find(fs.entries@, q) == find(pre, q));
                    }
                }
                assert forall|k: int| #![trigger w[k]] 0 <= k < n && k != i implies find(
                    fs.entries@,
                    w[k].path@,
                ) == find(pre, w[k].path@) by {
                    assert(!covers(w[k].path@, pk));
                }
            }
        }
        i += 1;
    }
    proof {
        assert forall|i2: int|
            0 <= i2 < s0.len() && selected(#[trigger] s0[i2], repo, igs) implies {
            let dk = mirror_of(*cfg, s0[i2].path@);
            &&& (link_at(s0, dk) is Some ==> find(fs.entries@, s0[i2].path@) == find(
                s0,
                s0[i2].path@,
            ))
            &&& (link_at(s0, dk) is None ==> find(fs.entries@, s0[i2].path@) is None)
        } by {
            lemma_walk_complete(s0, repo, igs, i2);
            let k = choose|k: int| 0 <= k < w.len() && w[k] == s0[i2];
            assert(joined(home, rel_of(w[k].path@, repo)) == mirror_of(*cfg, s0[i2].path@));
        }
    }
}

/// Link repository files that are newly added: for every visited
/// repository file whose home mirror does not exist at all, create the
/// symlink. An existing file, symlink (dangling or not) or directory at
/// the mirror is left alone, so an already-backed-up conflict is never
/// clobbered. Fails exactly when some absent mirror is blocked by a
/// file at an ancestor path.
pub fn link_newly_added(fs: &mut Fs, cfg: &Settings, acts: &mut Vec<Action>) -> (r: Result<
    (),
    FsError,
>)
    requires
        fs_wf(old(fs).entries@),
        settings_wf(*cfg),
    ensures
        fs_wf(final(fs).entries@),
        forall|q: Seq<char>|
            #![trigger find(final(fs).entries@, q)]
            !under(q, cfg.home_dir@) ==> find(final(fs).entries@, q) == find(
                old(fs).entries@,
                q,
            ),
        forall|q: Seq<char>|
            #![trigger find(final(fs).entries@, q)]
            find(final(fs).entries@, q) != find(old(fs).entries@, q) ==> exists|i: int|
                0 <= i < old(fs).entries@.len() && selected(
                    old(fs).entries@[i],
                    cfg.repo_dir@,
                    cfg.ignore_files@,
                ) && q == mirror_of(*cfg, old(fs).entries@[i].path@) && !has_path(
                    old(fs).entries@,
                    q,
                ) && !dir_at(old(fs).entries@, q),
        r is Ok <==> (forall|i: int|
            #![trigger old(fs).entries@[i]]
            0 <= i < old(fs).entries@.len() && selected(
                old(fs).entries@[i],
                cfg.repo_dir@,
                cfg.ignore_files@,
            ) && !has_path(old(fs).entries@, mirror_of(*cfg, old(fs).entries@[i].path@))
                && !dir_at(old(fs).entries@, mirror_of(*cfg, old(fs).entries@[i].path@))
                ==> !blocked(old(fs).entries@, mirror_of(*cfg, old(fs).entries@[i].path@))),
        r is Ok ==> forall|i: int|
            #![trigger old(fs).entries@[i]]
            0 <= i < old(fs).entries@.len() && selected(
                old(fs).entries@[i],
                cfg.repo_dir@,
                cfg.ignore_files@,
            ) ==> {
                &&& (!has_path(old(fs).entries@, mirror_of(*cfg, old(fs).entries@[i].path@))
                    && !dir_at(old(fs).entries@, mirror_of(*cfg, old(fs).entries@[i].path@))
                    ==> link_at(final(fs).entries@, mirror_of(*cfg, old(fs).entries@[i].path@))
                    == Some(old(fs).entries@[i].path@))
                &&& (has_path(old(fs).entries@, mirror_of(*cfg, old(fs).entries@[i].path@))
                    ==> find(final(fs).entries@, mirror_of(*cfg, old(fs).entries@[i].path@))
                    == find(old(fs).entries@, mirror_of(*cfg, old(fs).entries@[i].path@)))
            },
{
    let ghost s0 = fs.entries@;
    let ghost repo = cfg.repo_dir@;
    let ghost home = cfg.home_dir@;
    let ghost igs = cfg.ignore_files@;
    let ghost w = walk_seq(s0, repo, igs);
    let visits = walk_equal(fs, &cfg.repo_dir, &cfg.home_dir, &cfg.ignore_files);
    proof {
        lemma_walk_membership(s0, repo, igs);
        lemma_walk_wf(s0, repo, igs);
        assert forall|k: int| #![trigger w[k]] 0 <= k < w.len() implies wf_path(w[k].path@)
            && under(w[k].path@, repo) && wf_rel(rel_of(w[k].path@, repo)) && wf_path(
            joined(home, rel_of(w[k].path@, repo)),
        ) && under(joined(home, rel_of(w[k].path@, repo)), home) by {
            let i = choose|i: int| 0 <= i < s0.len() && w[k] == s0[i];
            lemma_rel_of_wf(w[k].path@, repo);
            lemma_joined_wf(home, rel_of(w[k].path@, repo));
        }
        assert forall|k1: int, k2: int|
            #![trigger w[k1], w[k2]]
            0 <= k1 < w.len() && 0 <= k2 < w.len() && k1 != k2 implies joined(
            home,
            rel_of(w[k1].path@, repo),
        ) != joined(home, rel_of(w[k2].path@, repo)) && !under(
            joined(home, rel_of(w[k1].path@, repo)),
            joined(home, rel_of(w[k2].path@, repo)),
        ) by {
            let r1 = rel_of(w[k1].path@, repo);
            let r2 = rel_of(w[k2].path@, repo);
            lemma_under_join_rel(w[k1].path@, repo);
            lemma_under_join_rel(w[k2].path@, repo);
            lemma_join_injective(home, r1, r2);
            lemma_join_under_iff(home, r1, r2);
            lemma_join_under_iff(repo, r1, r2);
        }
    }
    let n: usize = visits.len();
    let mut i: usize = 0;
    while i < n
        invariant
            0 <= i <= n,
            s0 == old(fs).entries@,
            fs_wf(s0),
            fs_wf(fs.entries@),
            settings_wf(*cfg),
            repo == cfg.repo_dir@,
            home == cfg.home_dir@,
            igs == cfg.ignore_files@,
            w == walk_seq(s0, repo, igs),
            n == w.len(),
            visits@.len() == n,
            forall|k: int|
                #![trigger visits@[k]]
                0 <= k < n ==> visits@[k].src@ == w[k].path@ && visits@[k].dest@ == joined(
                    home,
                    rel_of(w[k].path@, repo),
                ),
            forall|k: int|
                #![trigger w[k]]
                0 <= k < n ==> wf_path(w[k].path@) && under(w[k].path@, repo) && wf_rel(
                    rel_of(w[k].path@, repo),
                ) && wf_path(joined(home, rel_of(w[k].path@, repo))) && under(
                    joined(home, rel_of(w[k].path@, repo)),
                    home,
                ),
            forall|k1: int, k2: int|
                #![trigger w[k1], w[k2]]
                0 <= k1 < n && 0 <= k2 < n && k1 != k2 ==> joined(
                    home,
                    rel_of(w[k1].path@, repo),
                ) != joined(home, rel_of(w[k2].path@, repo)) && !under(
                    joined(home, rel_of(w[k1].path@, repo)),
                    joined(home, rel_of(w[k2].path@, repo)),
                ),
            forall|q: Seq<char>|
                #![trigger find(fs.entries@, q)]
                !under(q, home) ==> find(fs.entries@, q) == find(s0, q),
            forall|q: Seq<char>|
                #![trigger find(fs.entries@, q)]
                find(fs.entries@, q) != find(s0, q) ==> exists|k: int|
                    0 <= k < n && q == joined(home, rel_of(w[k].path@, repo)) && !has_path(
                        s0,
                        q,
                    ) && !dir_at(s0, q),
            forall|k: int|
                #![trigger w[k]]
                i <= k < n ==> {
                    let dk = joined(home, rel_of(w[k].path@, repo));
                    blocked(fs.entries@, dk) == blocked(s0, dk) && dir_at(fs.entries@, dk)
                        == dir_at(s0, dk) && find(fs.entries@, dk) == find(s0, dk)
                },
            forall|k: int|
                #![trigger w[k]]
                0 <= k < i ==> {
                    let dk = joined(home, rel_of(w[k].path@, repo));
                    &&& (!has_path(s0, dk) && !dir_at(s0, dk) ==> !blocked(s0, dk) && link_at(
                        fs.entries@,
                        dk,
                    ) == Some(w[k].path@))
                    &&& (has_path(s0, dk) ==> find(fs.entries@, dk) == find(s0, dk))
                },
        decreases n - i,
    {
        let v = &visits[i];
        let ghost dk = joined(home, rel_of(w[i as int].path@, repo));
        let ghost pre = fs.entries@;
        if !fs.exists_entry(&v.dest) && !fs.has_dir(&v.dest) {
            if fs.is_blocked(&v.dest) {
                proof {
                    lemma_walk_membership(s0, repo, igs);
                    let x = choose|x: int| 0 <= x < s0.len() && w[i as int] == s0[x];
                    assert(selected(s0[x], repo, igs));
                    assert(mirror_of(*cfg, s0[x].path@) == dk);
                    assert(!has_path(s0, dk) && !dir_at(s0, dk) && blocked(s0, dk));
                }
                return Err(FsError::NotADirectory { path: v.dest.clone() });
            }
            acts.push(Action::Symlink { target: v.src.clone(), link: v.dest.clone() });
            fs.set_link(&v.dest, &v.src);
            proof {
                assert(link_at(fs.entries@, dk) == Some(w[i as int].path@));
                assert forall|q: Seq<char>| !under(q, home) implies #[trigger] find(
                    fs.entries@,
                    q,
                ) == find(s0, q) by {
                    assert(q != dk);
                    assert(find(fs.entries@, q) == find(pre, q));
                }
                assert forall|q: Seq<char>| #[trigger] find(fs.entries@, q) != find(
                    s0,
                    q,
                ) implies (exists|k: int|
                    0 <= k < n && q == joined(home, rel_of(w[k].path@, repo)) && !has_path(
                        s0,
                        q,
                    ) && !dir_at(s0, q)) by {
                    if q != dk {
                        assert(find(fs.entries@, q) == find(pre, q));
                    } else {
                        assert(0 <= i < n && q == joined(home, rel_of(w[i as int].path@, repo))
                            && !has_path(s0, q) && !dir_at(s0, q));
                    }
                }
                assert forall|k: int| #![trigger w[k]] 0 <= k < n && k != i implies {
                    let dk2 = joined(home, rel_of(w[k].path@, repo));
                    blocked(fs.entries@, dk2) == blocked(pre, dk2) && dir_at(
                        fs.entries@,
                        dk2,
                    ) == dir_at(pre, dk2) && find(fs.entries@, dk2) == find(pre, dk2)
                } by {
                    let dk2 = joined(home, rel_of(w[k].path@, repo));
                    assert forall|q: Seq<char>| !covers(q, dk) implies #[trigger] find(
                        fs.entries@,
                        q,
                    ) == find(pre, q) by {
                        assert(q != dk);
                    }
                    lemma_queries_frame(pre, fs.entries@, dk, dk2);
                }
            }
        }
        i += 1;
    }
    proof {
        assert forall|i2: int|
            0 <= i2 < s0.len() && selected(#[trigger] s0[i2], repo, igs) implies {
            let dk = mirror_of(*cfg, s0[i2].path@);
            &&& (!has_path(s0, dk) && !dir_at(s0, dk) ==> !blocked(s0, dk) && link_at(
                fs.entries@,
                dk,
            ) == Some(s0[i2].path@))
            &&& (has_path(s0, dk) ==> find(fs.entries@, dk) == find(s0, dk))
        } by {
            lemma_walk_complete(s0, repo, igs, i2);
            let k = choose|k: int| 0 <= k < w.len() && w[k] == s0[i2];
            assert(joined(home, rel_of(w[k].path@, repo)) == mirror_of(*cfg, s0[i2].path@));
        }
        lemma_walk_membership(s0, repo, igs);
        assert forall|q: Seq<char>| #[trigger] find(fs.entries@, q) != find(s0, q)
            implies (exists|i2: int|
            0 <= i2 < s0.len() && selected(s0[i2], repo, igs) && q == mirror_of(
                *cfg,
                s0[i2].path@,
            ) && !has_path(s0, q) && !dir_at(s0, q)) by {
            let k = choose|k: int|
                0 <= k < n && q == joined(home, rel_of(w[k].path@, repo)) && !has_path(
                    s0,
                    q,
                ) && !dir_at(s0, q);
            let x = choose|x: int| 0 <= x < s0.len() && w[k] == s0[x];
            assert(selected(s0[x], repo, igs));
            assert(q == mirror_of(*cfg, s0[x].path@));
        }
    }
    Ok(())
}

/// Record every newly discovered destination-only file: a file sitting
/// directly in a shared destination directory that is neither mapped
/// nor already suggested is appended to the suggested list. First seen,
/// never removed automatically.
pub fn update_suggested(fs: &Fs, cfg: &Settings, st: &mut State)
    requires
        fs_wf(fs.entries@),
        state_wf(*old(st)),
    ensures
        state_wf(*final(st)),
        final(st).mapped_files == old(st).mapped_files,
        final(st).differences == old(st).differences,
        final(st).initialized == old(st).initialized,
        forall|q: Seq<char>|
            in_list(final(st).suggested_files@, q) <==> (in_list(old(st).suggested_files@, q)
                || (shared_dir_file(fs.entries@, cfg.repo_dir@, cfg.home_dir@, q) && !in_list(
                old(st).mapped_files@,
                q,
            ))),
{
    let n: usize = fs.entries.len();
    let mut i: usize = 0;
    while i < n
        invariant
            0 <= i <= n,
            n == fs.entries@.len(),
            fs_wf(fs.entries@),
            state_wf(*st),
            st.mapped_files == old(st).mapped_files,
            st.differences == old(st).differences,
            st.initialized == old(st).initialized,
            forall|q: Seq<char>|
                in_list(st.suggested_files@, q) <==> (in_list(old(st).suggested_files@, q) || (
                exists|k: int|
                    0 <= k < i && fs.entries@[k].path@ == q && shared_dir_file(
                        fs.entries@,
                        cfg.repo_dir@,
                        cfg.home_dir@,
                        q,
                    ) && !in_list(old(st).mapped_files@, q))),
        decreases n - i,
    {
        let p = fs.entries[i].path.clone();
        let ghost pi = fs.entries@[i as int].path@;
        let sh = is_shared_dir_file(fs, &cfg.repo_dir, &cfg.home_dir, &p);
        let im = list_contains(&st.mapped_files, &p);
        let isg = list_contains(&st.suggested_files, &p);
        let ghost sg0 = st.suggested_files@;
        if sh && !im && !isg {
            st.suggested_files.push(p);
            proof {
                assert(st.suggested_files@ == sg0.push(fs.entries[i as int].path));
                assert(st.suggested_files@[sg0.len() as int]@ == fs.entries@[i as int].path@);
                assert forall|q: Seq<char>| in_list(st.suggested_files@, q) implies (in_list(
                    sg0,
                    q,
                ) || q == fs.entries@[i as int].path@) by {
                    let x = choose|x: int|
                        0 <= x < st.suggested_files@.len() && st.suggested_files@[x]@ == q;
                    if x < sg0.len() {
                        assert(sg0[x]@ == q);
                    }
                }
                assert forall|q: Seq<char>| in_list(sg0, q) implies in_list(
                    st.suggested_files@,
                    q,
                ) by {
                    let x = choose|x: int| 0 <= x < sg0.len() && sg0[x]@ == q;
                    assert(st.suggested_files@[x]@ == q);
                }
                assert forall|x: int, y: int|
                    0 <= x < st.mapped_files@.len() && 0 <= y < st.suggested_files@.len()
                    implies st.mapped_files@[x]@ != st.suggested_files@[y]@ by {
                    if y < sg0.len() {
                        assert(st.suggested_files@[y]@ == sg0[y]@);
                    }
                }
                assert forall|x: int| 0 <= x < sg0.len() implies sg0[x]@
                    != fs.entries@[i as int].path@ by {
                    assert(in_list(sg0, sg0[x]@));
                }
            }
        }
        proof {
            assert forall|q: Seq<char>| in_list(st.suggested_files@, q) implies (in_list(
                old(st).suggested_files@,
                q,
            ) || (exists|k: int|
                0 <= k < i + 1 && fs.entries@[k].path@ == q && shared_dir_file(
                    fs.entries@,
                    cfg.repo_dir@,
                    cfg.home_dir@,
                    q,
                ) && !in_list(old(st).mapped_files@, q))) by {
                if in_list(sg0, q) {
                    if !in_list(old(st).suggested_files@, q) {
                        let k = choose|k: int|
                            0 <= k < i && fs.entries@[k].path@ == q && shared_dir_file(
                                fs.entries@,
                                cfg.repo_dir@,
                                cfg.home_dir@,
                                q,
                            ) && !in_list(old(st).mapped_files@, q);
                        assert(0 <= k < i + 1 && fs.entries@[k].path@ == q);
                    }
                } else {
                    assert(q == pi);
                    assert(fs.entries@[i as int].path@ == q);
                }
            }
            assert forall|q: Seq<char>| (in_list(old(st).suggested_files@, q) || (exists|
                k: int,
            |
                0 <= k < i + 1 && fs.entries@[k].path@ == q && shared_dir_file(
                    fs.entries@,
                    cfg.repo_dir@,
                    cfg.home_dir@,
                    q,
                ) && !in_list(old(st).mapped_files@, q))) implies in_list(
                st.suggested_files@,
                q,
            ) by {
                if !in_list(old(st).suggested_files@, q) {
                    let k = choose|k: int|
                        0 <= k < i + 1 && fs.entries@[k].path@ == q && shared_dir_file(
                            fs.entries@,
                            cfg.repo_dir@,
                            cfg.home_dir@,
                            q,
                        ) && !in_list(old(st).mapped_files@, q);
                    if k < i {
                        assert(in_list(sg0, q));
                    } else {
                        assert(q == pi);
                        assert(in_list(old(st).mapped_files@, q) == in_list(
                            st.mapped_files@,
                            q,
                        ));
                        if !(sh && !im && !isg) {
                            assert(isg);
                            assert(in_list(sg0, q));
                        }
                    }
                }
            }
        }
        i += 1;
    }
    proof {
        assert forall|q: Seq<char>|
            shared_dir_file(fs.entries@, cfg.repo_dir@, cfg.home_dir@, q) implies (exists|
            k: int,
        |
            0 <= k < n && fs.entries@[k].path@ == q) by {
            assert(find(fs.entries@, q) is Some);
            lemma_find_index(fs.entries@, q);
        }
    }
}

/// Rebuild the mapped list from scratch: after first-time linking,
/// every file sitting directly in a shared destination directory is
/// recorded as mapped. The caller clears the suggested list alongside,
/// restoring the classification invariant.
pub fn intitialize_mapped(fs: &Fs, cfg: &Settings, st: &mut State)
    requires
        fs_wf(fs.entries@),
    ensures
        distinct_list(final(st).mapped_files@),
        final(st).suggested_files == old(st).suggested_files,
        final(st).differences == old(st).differences,
        final(st).initialized == old(st).initialized,
        forall|q: Seq<char>|
            in_list(final(st).mapped_files@, q) <==> shared_dir_file(
                fs.entries@,
                cfg.repo_dir@,
                cfg.home_dir@,
                q,
            ),
{
    st.mapped_files = Vec::new();
    let n: usize = fs.entries.len();
    let mut i: usize = 0;
    while i < n
        invariant
            0 <= i <= n,
            n == fs.entries@.len(),
            fs_wf(fs.entries@),
            distinct_list(st.mapped_files@),
            st.suggested_files == old(st).suggested_files,
            st.differences == old(st).differences,
            st.initialized == old(st).initialized,
            forall|q: Seq<char>|
                in_list(st.mapped_files@, q) <==> (exists|k: int|
                    0 <= k < i && fs.entries@[k].path@ == q && shared_dir_file(
                        fs.entries@,
                        cfg.repo_dir@,
                        cfg.home_dir@,
                        q,
                    )),
        decreases n - i,
    {
        let p = fs.entries[i].path.clone();
        let ghost pi = fs.entries@[i as int].path@;
        let sh = is_shared_dir_file(fs, &cfg.repo_dir, &cfg.home_dir, &p);
        let im = list_contains(&st.mapped_files, &p);
        let ghost m0 = st.mapped_files@;
        if sh && !im {
            st.mapped_files.push(p);
            proof {
                assert(st.mapped_files@ == m0.push(fs.entries[i as int].path));
                assert(st.mapped_files@[m0.len() as int]@ == fs.entries@[i as int].path@);
                assert forall|q: Seq<char>| in_list(st.mapped_files@, q) implies (in_list(
                    m0,
                    q,
                ) || q == fs.entries@[i as int].path@) by {
                    let x = choose|x: int|
                        0 <= x < st.mapped_files@.len() && st.mapped_files@[x]@ == q;
                    if x < m0.len() {
                        assert(m0[x]@ == q);
                    }
                }
                assert forall|q: Seq<char>| in_list(m0, q) implies in_list(
                    st.mapped_files@,
                    q,
                ) by {
                    let x = choose|x: int| 0 <= x < m0.len() && m0[x]@ == q;
                    assert(st.mapped_files@[x]@ == q);
                }
                assert forall|x: int| 0 <= x < m0.len() implies m0[x]@
                    != fs.entries@[i as int].path@ by {
                    assert(in_list(m0, m0[x]@));
                }
            }
        }
        proof {
            assert forall|q: Seq<char>| in_list(st.mapped_files@, q) implies (exists|k: int|
                0 <= k < i + 1 && fs.entries@[k].path@ == q && shared_dir_file(
                    fs.entries@,
                    cfg.repo_dir@,
                    cfg.home_dir@,
                    q,
                )) by {
                if in_list(m0, q) {
                    let k = choose|k: int|
                        0 <= k < i && fs.entries@[k].path@ == q && shared_dir_file(
                            fs.entries@,
                            cfg.repo_dir@,
                            cfg.home_dir@,
                            q,
                        );
                    assert(0 <= k < i + 1 && fs.entries@[k].path@ == q);
                } else {
                    assert(q == pi);
                    assert(fs.entries@[i as int].path@ == q);
                }
            }
            assert forall|q: Seq<char>| (exists|k: int|
                0 <= k < i + 1 && fs.entries@[k].path@ == q && shared_dir_file(
                    fs.entries@,
                    cfg.repo_dir@,
                    cfg.home_dir@,
                    q,
                )) implies in_list(st.mapped_files@, q) by {
                let k = choose|k: int|
                    0 <= k < i + 1 && fs.entries@[k].path@ == q && shared_dir_file(
                        fs.entries@,
                        cfg.repo_dir@,
                        cfg.home_dir@,
                        q,
                    );
                if k < i {
                    assert(in_list(m0, q));
                } else {
                    assert(q == pi);
                    if !(sh && !im) {
                        assert(im);
                        assert(in_list(m0, q));
                    }
                }
            }
        }
        i += 1;
    }
    proof {
        assert forall|q: Seq<char>|
            shared_dir_file(fs.entries@, cfg.repo_dir@, cfg.home_dir@, q) implies (exists|
            k: int,
        |
            0 <= k < n && fs.entries@[k].path@ == q) by {
            assert(find(fs.entries@, q) is Some);
            lemma_find_index(fs.entries@, q);
        }
    }
}

/// The half of a pass that runs before the fetch: untrack every
/// repository file whose home symlink the user removed. Deliberately
/// destructive, and deliberately first.
pub fn sync_prepare(fs: &mut Fs, cfg: &Settings, acts: &mut Vec<Action>)
    requires
        fs_wf(old(fs).entries@),
        settings_wf(*cfg),
    ensures
        fs_wf(final(fs).entries@),
        forall|q: Seq<char>|
            #![trigger find(final(fs).entries@, q)]
            !under(q, cfg.repo_dir@) ==> find(final(fs).entries@, q) == find(
                old(fs).entries@,
                q,
            ),
        forall|i: int|
            #![trigger old(fs).entries@[i]]
            0 <= i < old(fs).entries@.len() && selected(
                old(fs).entries@[i],
                cfg.repo_dir@,
                cfg.ignore_files@,
            ) ==> {
                &&& (link_at(old(fs).entries@, mirror_of(*cfg, old(fs).entries@[i].path@))
                    is Some ==> find(final(fs).entries@, old(fs).entries@[i].path@) == find(
                    old(fs).entries@,
                    old(fs).entries@[i].path@,
                ))
                &&& (link_at(old(fs).entries@, mirror_of(*cfg, old(fs).entries@[i].path@))
                    is None ==> find(final(fs).entries@, old(fs).entries@[i].path@) is None)
            },
{
    link_removed(fs, cfg, acts);
}

/// The half of a pass that runs after the fetch, on a fresh snapshot:
/// record newly discovered destination-only files, link newly added
/// repository files, and replace the difference list wholesale with
/// the classified status results — prior entries the query no longer
/// reports are discarded, not merged. Reports whether the pass found
/// more differences than the one before.
pub fn sync_finish(
    fs: &mut Fs,
    cfg: &Settings,
    st: &mut State,
    statuses: &Vec<(String, Option<StatusDelta>)>,
    acts: &mut Vec<Action>,
) -> (r: Result<bool, FsError>)
    requires
        fs_wf(old(fs).entries@),
        settings_wf(*cfg),
        state_wf(*old(st)),
    ensures
        fs_wf(final(fs).entries@),
        state_wf(*final(st)),
        forall|q: Seq<char>|
            in_list(final(st).suggested_files@, q) <==> (in_list(old(st).suggested_files@, q)
                || (shared_dir_file(old(fs).entries@, cfg.repo_dir@, cfg.home_dir@, q)
                && !in_list(old(st).mapped_files@, q))),
        final(st).mapped_files == old(st).mapped_files,
        final(st).initialized == old(st).initialized,
        forall|q: Seq<char>|
            #![trigger find(final(fs).entries@, q)]
            find(final(fs).entries@, q) != find(old(fs).entries@, q) ==> exists|i: int|
                0 <= i < old(fs).entries@.len() && selected(
                    old(fs).entries@[i],
                    cfg.repo_dir@,
                    cfg.ignore_files@,
                ) && q == mirror_of(*cfg, old(fs).entries@[i].path@) && !has_path(
                    old(fs).entries@,
                    q,
                ) && !dir_at(old(fs).entries@, q),
        r is Ok <==> (forall|i: int|
            #![trigger old(fs).entries@[i]]
            0 <= i < old(fs).entries@.len() && selected(
                old(fs).entries@[i],
                cfg.repo_dir@,
                cfg.ignore_files@,
            ) && !has_path(old(fs).entries@, mirror_of(*cfg, old(fs).entries@[i].path@))
                && !dir_at(old(fs).entries@, mirror_of(*cfg, old(fs).entries@[i].path@))
                ==> !blocked(old(fs).entries@, mirror_of(*cfg, old(fs).entries@[i].path@))),
        r is Ok ==> forall|i: int|
            #![trigger old(fs).entries@[i]]
            0 <= i < old(fs).entries@.len() && selected(
                old(fs).entries@[i],
                cfg.repo_dir@,
                cfg.ignore_files@,
            ) ==> {
                &&& (!has_path(old(fs).entries@, mirror_of(*cfg, old(fs).entries@[i].path@))
                    && !dir_at(old(fs).entries@, mirror_of(*cfg, old(fs).entries@[i].path@))
                    ==> link_at(final(fs).entries@, mirror_of(*cfg, old(fs).entries@[i].path@))
                    == Some(old(fs).entries@[i].path@))
                &&& (has_path(old(fs).entries@, mirror_of(*cfg, old(fs).entries@[i].path@))
                    ==> find(final(fs).entries@, mirror_of(*cfg, old(fs).entries@[i].path@))
                    == find(old(fs).entries@, mirror_of(*cfg, old(fs).entries@[i].path@)))
            },
        r matches Ok(changed) ==> {
            &&& changed == (statuses@.len() > old(st).differences@.len())
            &&& final(st).differences@.len() == statuses@.len()
            &&& (forall|k: int|
                #![trigger final(st).differences@[k]]
                0 <= k < statuses@.len() ==> final(st).differences@[k].path@
                    == statuses@[k].0@ && final(st).differences@[k].kind@ == diff_kind_of(
                    statuses@[k].1,
                ))
        },
        r is Err ==> final(st).differences == old(st).differences,
{
    update_suggested(fs, cfg, st);
    match link_newly_added(fs, cfg, acts) {
        Err(e) => {
            return Err(e);
        },
        Ok(()) => {},
    }
    let new_diffs = classify_statuses(statuses);
    let changed = new_diffs.len() > st.differences.len();
    st.replace_differences(new_diffs);
    Ok(changed)
}

/// Classify the backend's status results into the difference list: one
/// entry per result, in order, labelled by kind.
pub fn classify_statuses(statuses: &Vec<(String, Option<StatusDelta>)>) -> (r: Vec<
    Difference,
>)
    ensures
        r@.len() == statuses@.len(),
        forall|k: int|
            #![trigger r@[k]]
            0 <= k < r@.len() ==> r@[k].path@ == statuses@[k].0@ && r@[k].kind@ == diff_kind_of(
                statuses@[k].1,
            ),
{
    let mut r: Vec<Difference> = Vec::new();
    let n: usize = statuses.len();
    let mut i: usize = 0;
    while i < n
        invariant
            0 <= i <= n,
            n == statuses@.len(),
            r@.len() == i,
            forall|k: int|
                #![trigger r@[k]]
                0 <= k < i ==> r@[k].path@ == statuses@[k].0@ && r@[k].kind@ == diff_kind_of(
                    statuses@[k].1,
                ),
        decreases n - i,
    {
        let path = statuses[i].0.clone();
        let change = statuses[i].1;
        let d = Difference::from_status_entry(path, change);
        r.push(d);
        i += 1;
    }
    r
}

} // verus!
