//! The daemon's command handlers: the decisions behind `ignore`,
//! `restore` and `add`, made over the tree model and the state record.
//! The surrounding daemon parses the request, performs the backend
//! calls, persists the state, and replays the recorded actions.

use vstd::prelude::*;
use crate::paths::{
    wf_path, wf_rel, under, joined, rel_of, join, rel_part, is_under, is_wf_path,
    lemma_under_join_rel, lemma_joined_wf, lemma_rel_of_wf, lemma_separate_roots,
    lemma_common_descendant,
};
use crate::fs::{
    Fs, fs_wf, find, content_at, link_at, read_at, blocked, dir_at, covers, has_path,
    lemma_find_index,
};
use crate::link::{Settings, settings_wf, Action, FsError, link};
use crate::state::{State, state_wf, in_list, Difference};
use crate::pattern::{CompiledPattern, pattern_ok, regex_match};

verus! {

/// Classify every suggested file the pattern matches as mapped: the
/// `ignore <regex>` command. Returns how many files were reclassified;
/// fails exactly when the pattern does not compile.
pub fn ignore_regex(st: &mut State, pattern: &str) -> (r: Result<usize, String>)
    requires
        state_wf(*old(st)),
    ensures
        state_wf(*final(st)),
        r is Ok <==> pattern_ok(pattern@),
        r is Err ==> *final(st) == *old(st),
        r matches Ok(c) ==> {
            &&& forall|q: Seq<char>|
                in_list(final(st).suggested_files@, q) <==> (in_list(
                    old(st).suggested_files@,
                    q,
                ) && !regex_match(pattern@, q))
            &&& forall|q: Seq<char>|
                in_list(final(st).mapped_files@, q) <==> (in_list(old(st).mapped_files@, q)
                    || (in_list(old(st).suggested_files@, q) && regex_match(pattern@, q)))
            &&& c + final(st).suggested_files@.len() == old(st).suggested_files@.len()
            &&& final(st).initialized == old(st).initialized
            &&& final(st).differences == old(st).differences
        },
{
    let re = match CompiledPattern::compile(pattern) {
        None => {
            return Err("Invalid pattern".to_owned());
        },
        Some(re) => re,
    };
    let ghost s0 = st.suggested_files@;
    let ghost m0 = st.mapped_files@;
    let mut kept: Vec<String> = Vec::new();
    let mut moved: Vec<String> = Vec::new();
    let n: usize = st.suggested_files.len();
    let mut i: usize = 0;
    while i < n
        invariant
            0 <= i <= n,
            n == s0.len(),
            st.suggested_files@ == s0,
            st.mapped_files@ == m0,
            state_wf(*st),
            re.pattern_view() == pattern@,
            kept@.len() + moved@.len() == i,
            forall|q: Seq<char>|
                in_list(kept@, q) <==> (exists|k: int|
                    0 <= k < i && s0[k]@ == q && !regex_match(pattern@, q)),
            forall|q: Seq<char>|
                in_list(moved@, q) <==> (exists|k: int|
                    0 <= k < i && s0[k]@ == q && regex_match(pattern@, q)),
            forall|k: int| #![trigger kept@[k]] 0 <= k < kept@.len() ==> in_list(s0, kept@[k]@),
            forall|k: int|
                #![trigger moved@[k]]
                0 <= k < moved@.len() ==> in_list(s0, moved@[k]@),
            crate::state::distinct_list(kept@),
            crate::state::distinct_list(moved@),
        decreases n - i,
    {
        let entry = st.suggested_files[i].clone();
        let ghost pi = s0[i as int]@;
        let matched = re.is_match(entry.as_str());
        if matched {
            let ghost v0 = moved@;
            moved.push(entry);
            proof {
                assert(moved@ == v0.push(st.suggested_files[i as int]));
                assert(moved@[v0.len() as int]@ == pi);
                assert forall|q: Seq<char>| in_list(moved@, q) implies (exists|k: int|
                    0 <= k < i + 1 && s0[k]@ == q && regex_match(pattern@, q)) by {
                    let x = choose|x: int| 0 <= x < moved@.len() && moved@[x]@ == q;
                    if x < v0.len() {
                        assert(v0[x]@ == q);
                        assert(in_list(v0, q));
                        let k = choose|k: int|
                            0 <= k < i && s0[k]@ == q && regex_match(pattern@, q);
                        assert(0 <= k < i + 1 && s0[k]@ == q && regex_match(pattern@, q));
                    } else {
                        assert(q == pi);
                        assert(regex_match(pattern@, q));
                        assert(0 <= i < i + 1 && s0[i as int]@ == q && regex_match(
                            pattern@,
                            q,
                        ));
                    }
                }
                assert forall|q: Seq<char>| (exists|k: int|
                    0 <= k < i + 1 && s0[k]@ == q && regex_match(pattern@, q)) implies in_list(
                    moved@,
                    q,
                ) by {
                    let k = choose|k: int|
                        0 <= k < i + 1 && s0[k]@ == q && regex_match(pattern@, q);
                    if k < i {
                        assert(in_list(v0, q));
                        let x = choose|x: int| 0 <= x < v0.len() && v0[x]@ == q;
                        assert(moved@[x]@ == q);
                    } else {
                        assert(moved@[v0.len() as int]@ == q);
                    }
                }
                assert forall|x: int| 0 <= x < v0.len() implies v0[x]@ != pi by {
                    assert(in_list(v0, v0[x]@));
                }
            }
        } else {
            let ghost v0 = kept@;
            kept.push(entry);
            proof {
                assert(kept@ == v0.push(st.suggested_files[i as int]));
                assert(kept@[v0.len() as int]@ == pi);
                assert forall|q: Seq<char>| in_list(kept@, q) implies (exists|k: int|
                    0 <= k < i + 1 && s0[k]@ == q && !regex_match(pattern@, q)) by {
                    let x = choose|x: int| 0 <= x < kept@.len() && kept@[x]@ == q;
                    if x < v0.len() {
                        assert(v0[x]@ == q);
                        assert(in_list(v0, q));
                        let k = choose|k: int|
                            0 <= k < i && s0[k]@ == q && !regex_match(pattern@, q);
                        assert(0 <= k < i + 1 && s0[k]@ == q && !regex_match(pattern@, q));
                    } else {
                        assert(q == pi);
                        assert(!regex_match(pattern@, q));
                        assert(0 <= i < i + 1 && s0[i as int]@ == q && !regex_match(
                            pattern@,
                            q,
                        ));
                    }
                }
                assert forall|q: Seq<char>| (exists|k: int|
                    0 <= k < i + 1 && s0[k]@ == q && !regex_match(pattern@, q))
                    implies in_list(kept@, q) by {
                    let k = choose|k: int|
                        0 <= k < i + 1 && s0[k]@ == q && !regex_match(pattern@, q);
                    if k < i {
                        assert(in_list(v0, q));
                        let x = choose|x: int| 0 <= x < v0.len() && v0[x]@ == q;
                        assert(kept@[x]@ == q);
                    } else {
                        assert(kept@[v0.len() as int]@ == q);
                    }
                }
                assert forall|x: int| 0 <= x < v0.len() implies v0[x]@ != pi by {
                    assert(in_list(v0, v0[x]@));
                }
            }
        }
        i += 1;
    }
    let count = moved.len();
    st.suggested_files = kept;
    let ghost mvpre = moved@;
    st.mapped_files.append(&mut moved);
    proof {
        let m1 = st.mapped_files@;
        let mv = mvpre;
        assert(m1 == m0 + mv);
        assert forall|q: Seq<char>| in_list(m1, q) implies (in_list(m0, q) || (in_list(
            s0,
            q,
        ) && regex_match(pattern@, q))) by {
            let x = choose|x: int| 0 <= x < m1.len() && m1[x]@ == q;
            if x < m0.len() {
                assert(m0[x]@ == q);
            } else {
                assert(m1[x] == mv[x - m0.len()]);
                assert(in_list(mv, q));
                let k = choose|k: int| 0 <= k < s0.len() && s0[k]@ == q && regex_match(
                    pattern@,
                    q,
                );
            }
        }
        assert forall|q: Seq<char>| (in_list(m0, q) || (in_list(s0, q) && regex_match(
            pattern@,
            q,
        ))) implies in_list(m1, q) by {
            if in_list(m0, q) {
                let x = choose|x: int| 0 <= x < m0.len() && m0[x]@ == q;
                assert(m1[x]@ == q);
            } else {
                let k = choose|k: int| 0 <= k < s0.len() && s0[k]@ == q;
                assert(in_list(mv, q));
                let x = choose|x: int| 0 <= x < mv.len() && mv[x]@ == q;
                assert(m1[m0.len() + x]@ == q);
            }
        }
        assert forall|x: int, y: int| 0 <= x < y < m1.len() implies m1[x]@ != m1[y]@ by {
            if y < m0.len() {
            } else if x >= m0.len() {
                assert(m1[x] == mv[x - m0.len()] && m1[y] == mv[y - m0.len()]);
            } else {
                assert(m1[x] == m0[x] && m1[y] == mv[y - m0.len()]);
                assert(in_list(mv, mv[y - m0.len()]@));
                let k = choose|k: int|
                    0 <= k < s0.len() && s0[k]@ == mv[y - m0.len()]@ && regex_match(
                        pattern@,
                        mv[y - m0.len()]@,
                    );
            }
        }
        assert forall|x: int, y: int|
            0 <= x < m1.len() && 0 <= y < st.suggested_files@.len() implies m1[x]@
            != st.suggested_files@[y]@ by {
            let q = st.suggested_files@[y]@;
            assert(in_list(st.suggested_files@, q));
            let k = choose|k: int| 0 <= k < s0.len() && s0[k]@ == q && !regex_match(
                pattern@,
                q,
            );
            if x < m0.len() {
                assert(m1[x] == m0[x]);
            } else {
                assert(m1[x] == mv[x - m0.len()]);
                assert(in_list(mv, mv[x - m0.len()]@));
                let k2 = choose|k2: int|
                    0 <= k2 < s0.len() && s0[k2]@ == mv[x - m0.len()]@ && regex_match(
                        pattern@,
                        mv[x - m0.len()]@,
                    );
            }
        }
    }
    Ok(count)
}

/// The recorded difference paths the pattern matches, in recording
/// order.
pub open spec fn matching_paths(s: Seq<Difference>, pat: Seq<char>) -> Seq<Seq<char>>
    decreases s.len(),
{
    if s.len() == 0 {
        Seq::empty()
    } else {
        let rest = matching_paths(s.drop_last(), pat);
        if regex_match(pat, s.last().path@) {
            rest.push(s.last().path@)
        } else {
            rest
        }
    }
}

/// Pick the recorded differences the pattern matches: the selection
/// step of the `restore <regex>` command. The caller checks the chosen
/// paths out of the backend index and then relinks them.
pub fn select_differences(diffs: &Vec<Difference>, pat: &CompiledPattern) -> (r: Vec<String>)
    ensures
        r@.len() == matching_paths(diffs@, pat.pattern_view()).len(),
        forall|k: int|
            #![trigger r@[k]]
            0 <= k < r@.len() ==> r@[k]@ == matching_paths(diffs@, pat.pattern_view())[k],
{
    let mut r: Vec<String> = Vec::new();
    let n: usize = diffs.len();
    let mut i: usize = 0;
    proof {
        assert(diffs@.take(0) =~= Seq::<Difference>::empty());
    }
    while i < n
        invariant
            0 <= i <= n,
            n == diffs@.len(),
            r@.len() == matching_paths(diffs@.take(i as int), pat.pattern_view()).len(),
            forall|k: int|
                #![trigger r@[k]]
                0 <= k < r@.len() ==> r@[k]@ == matching_paths(
                    diffs@.take(i as int),
                    pat.pattern_view(),
                )[k],
        decreases n - i,
    {
        proof {
            assert(diffs@.take(i + 1).drop_last() =~= diffs@.take(i as int));
            assert(diffs@.take(i + 1).last() == diffs@[i as int]);
        }
        if pat.is_match(diffs[i].path.as_str()) {
            r.push(diffs[i].path.clone());
        }
        i += 1;
    }
    proof {
        assert(diffs@.take(n as int) =~= diffs@);
    }
    r
}

/// Take a home file into the repository: copy its bytes to the
/// mirrored repository path, remove the original, put a symlink in its
/// place, and move the path from the suggested list to the mapped one.
/// The given relative paths are fit to relink in one sweep: each is
/// well-formed, none repeats, and none lies below another.
pub open spec fn rels_separate(rels: Seq<String>) -> bool {
    &&& forall|k: int| 0 <= k < rels.len() ==> wf_rel(#[trigger] rels[k]@)
    &&& forall|k1: int, k2: int|
        #![trigger rels[k1], rels[k2]]
        0 <= k1 < rels.len() && 0 <= k2 < rels.len() && k1 != k2 ==> rels[k1]@ != rels[k2]@
            && !under(rels[k1]@, rels[k2]@)
}

/// Relink each given repository-relative path — the step of the
/// `restore <regex>` command after the backend checkout. A malformed
/// path is skipped; for well-formed, pairwise separate paths every
/// home mirror ends as a symlink to its repository file, and the sweep
/// fails exactly when a file blocks one of the mirrors.
pub fn link_paths(fs: &mut Fs, cfg: &Settings, rels: &Vec<String>, acts: &mut Vec<Action>)
    -> (r: Result<(), FsError>)
    requires
        fs_wf(old(fs).entries@),
        settings_wf(*cfg),
    ensures
        fs_wf(final(fs).entries@),
        forall|q: Seq<char>|
            #![trigger find(final(fs).entries@, q)]
            !under(q, cfg.home_dir@) ==> find(final(fs).entries@, q) == find(
                old(fs).entries@,
                q,
            ),
        rels_separate(rels@) ==> (r is Ok <==> forall|k: int|
            #![trigger rels@[k]]
            0 <= k < rels@.len() ==> !blocked(
                old(fs).entries@,
                joined(cfg.home_dir@, rels@[k]@),
            )),
        rels_separate(rels@) && r is Ok ==> forall|k: int|
            #![trigger rels@[k]]
            0 <= k < rels@.len() ==> link_at(
                final(fs).entries@,
                joined(cfg.home_dir@, rels@[k]@),
            ) == Some(joined(cfg.repo_dir@, rels@[k]@)),
{
    let ghost s0 = fs.entries@;
    let ghost home = cfg.home_dir@;
    let ghost repo = cfg.repo_dir@;
    let ghost sep = rels_separate(rels@);
    proof {
        if sep {
            assert forall|k1: int, k2: int|
                #![trigger rels@[k1], rels@[k2]]
                0 <= k1 < rels@.len() && 0 <= k2 < rels@.len() && k1 != k2 implies joined(
                home,
                rels@[k1]@,
            ) != joined(home, rels@[k2]@) && !under(
                joined(home, rels@[k1]@),
                joined(home, rels@[k2]@),
            ) by {
                crate::paths::lemma_join_injective(home, rels@[k1]@, rels@[k2]@);
                crate::paths::lemma_join_under_iff(home, rels@[k1]@, rels@[k2]@);
            }
        }
    }
    let n: usize = rels.len();
    let mut i: usize = 0;
    while i < n
        invariant
            0 <= i <= n,
            s0 == old(fs).entries@,
            n == rels@.len(),
            sep == rels_separate(rels@),
            fs_wf(fs.entries@),
            settings_wf(*cfg),
            home == cfg.home_dir@,
            repo == cfg.repo_dir@,
            sep ==> forall|k1: int, k2: int|
                #![trigger rels@[k1], rels@[k2]]
                0 <= k1 < n && 0 <= k2 < n && k1 != k2 ==> joined(home, rels@[k1]@)
                    != joined(home, rels@[k2]@) && !under(
                    joined(home, rels@[k1]@),
                    joined(home, rels@[k2]@),
                ),
            forall|q: Seq<char>|
                #![trigger find(fs.entries@, q)]
                !under(q, home) ==> find(fs.entries@, q) == find(s0, q),
            sep ==> forall|k: int|
                #![trigger rels@[k]]
                i <= k < n ==> blocked(fs.entries@, joined(home, rels@[k]@)) == blocked(
                    s0,
                    joined(home, rels@[k]@),
                ),
            sep ==> forall|k: int|
                #![trigger rels@[k]]
                0 <= k < i ==> !blocked(s0, joined(home, rels@[k]@)) && link_at(
                    fs.entries@,
                    joined(home, rels@[k]@),
                ) == Some(joined(repo, rels@[k]@)),
        decreases n - i,
    {
        let ghost pre = fs.entries@;
        if crate::paths::is_wf_rel(&rels[i]) {
            match link(fs, cfg, &rels[i], acts) {
                Err(e) => {
                    proof {
                        if sep {
                            assert(blocked(s0, joined(home, rels@[i as int]@)));
                        }
                    }
                    return Err(e);
                },
                Ok(()) => {
                    proof {
                        let di = joined(home, rels@[i as int]@);
                        if sep {
                            assert(!blocked(pre, di));
                            assert(link_at(fs.entries@, di) == Some(joined(
                                repo,
                                rels@[i as int]@,
                            )));
                            assert forall|q: Seq<char>| !under(q, home) implies #[trigger]
                                find(fs.entries@, q) == find(s0, q) by {
                                if covers(q, di) {
                                    if q == di {
                                        crate::paths::lemma_joined_wf(
                                            home,
                                            rels@[i as int]@,
                                        );
                                        assert(under(q, home));
                                    } else {
                                        crate::paths::lemma_joined_wf(
                                            home,
                                            rels@[i as int]@,
                                        );
                                        crate::paths::lemma_under_trans(q, di, home);
                                    }
                                } else {
                                    assert(find(fs.entries@, q) == find(pre, q));
                                }
                            }
                            assert forall|k: int| #![trigger rels@[k]] 0 <= k < n && k != i
                                implies blocked(fs.entries@, joined(home, rels@[k]@))
                                == blocked(pre, joined(home, rels@[k]@)) && link_at(
                                fs.entries@,
                                joined(home, rels@[k]@),
                            ) == link_at(pre, joined(home, rels@[k]@)) by {
                                let dk = joined(home, rels@[k]@);
                                crate::paths::lemma_joined_wf(home, rels@[i as int]@);
                                crate::paths::lemma_joined_wf(home, rels@[k]@);
                                crate::fs::lemma_queries_frame(pre, fs.entries@, di, dk);
                            }
                        } else {
                            assert forall|q: Seq<char>| !under(q, home) implies #[trigger]
                                find(fs.entries@, q) == find(s0, q) by {
                                if covers(q, di) {
                                    crate::paths::lemma_joined_wf(home, rels@[i as int]@);
                                    if q == di {
                                        assert(under(q, home));
                                    } else {
                                        crate::paths::lemma_under_trans(q, di, home);
                                    }
                                } else {
                                    assert(find(fs.entries@, q) == find(pre, q));
                                }
                            }
                        }
                    }
                },
            }
        } else {
            proof {
                if sep {
                    assert(wf_rel(rels@[i as int]@));
                }
            }
        }
        i += 1;
    }
    Ok(())
}

/// After writing the repository copy and removing the home original,
/// nothing occupies an ancestor of the home path: it held an entry at
/// the start, so a well-formed tree has no file above it, and the two
/// writes since touched only the repository copy and the path itself.
proof fn lemma_add_dest_free(
    s0: Seq<crate::fs::FsEntry>,
    s1: Seq<crate::fs::FsEntry>,
    s2: Seq<crate::fs::FsEntry>,
    rp: Seq<char>,
    dest: Seq<char>,
)
    requires
        fs_wf(s0),
        has_path(s0, dest),
        !under(dest, rp),
        forall|q: Seq<char>| q != rp ==> find(s1, q) == find(s0, q),
        forall|q: Seq<char>| !covers(q, dest) ==> find(s2, q) == find(s1, q),
        crate::fs::paths_distinct(s2),
    ensures
        !blocked(s2, dest),
{
    if blocked(s2, dest) {
        let x = choose|x: int| 0 <= x < s2.len() && under(dest, s2[x].path@);
        let xp = s2[x].path@;
        crate::fs::lemma_find_at_index(s2, x);
        assert(find(s2, xp) is Some);
        assert(!covers(xp, dest));
        assert(find(s1, xp) == find(s2, xp));
        assert(xp != rp);
        assert(find(s0, xp) == find(s1, xp));
        lemma_find_index(s0, xp);
        lemma_find_index(s0, dest);
        let a = choose|a: int| 0 <= a < s0.len() && s0[a].path@ == xp;
        let b = choose|b: int| 0 <= b < s0.len() && s0[b].path@ == dest;
        assert(!under(s0[b].path@, s0[a].path@));
    }
}

/// The filesystem half of `add`: copy the bytes to the mirrored
/// repository path, remove the original, and link it back.
#[verifier::rlimit(100)]
fn take_into_repo(fs: &mut Fs, cfg: &Settings, rel: &String, content: Vec<u8>, acts: &mut
    Vec<Action>)
    requires
        fs_wf(old(fs).entries@),
        settings_wf(*cfg),
        wf_rel(rel@),
        !blocked(old(fs).entries@, joined(cfg.repo_dir@, rel@)),
        !dir_at(old(fs).entries@, joined(cfg.repo_dir@, rel@)),
        has_path(old(fs).entries@, joined(cfg.home_dir@, rel@)),
    ensures
        fs_wf(final(fs).entries@),
        link_at(final(fs).entries@, joined(cfg.home_dir@, rel@)) == Some(
            joined(cfg.repo_dir@, rel@),
        ),
        content_at(final(fs).entries@, joined(cfg.repo_dir@, rel@)) == Some(content@),
{
    let ghost s0 = fs.entries@;
    let ghost repo = cfg.repo_dir@;
    let ghost home = cfg.home_dir@;
    let ghost dest = joined(home, rel@);
    let rp = join(&cfg.repo_dir, rel);
    let path = join(&cfg.home_dir, rel);
    proof {
        lemma_joined_wf(repo, rel@);
        lemma_joined_wf(home, rel@);
        assert(rp@ != dest && !under(rp@, dest) && !under(dest, rp@)) by {
            lemma_separate_roots(repo, home, rp@);
            if rp@ == dest {
                lemma_common_descendant(dest, repo, home);
            }
            if under(rp@, dest) {
                crate::paths::lemma_under_trans(rp@, dest, home);
            }
            if under(dest, rp@) {
                lemma_common_descendant(dest, home, rp@);
                if under(home, rp@) {
                    crate::paths::lemma_under_trans(home, rp@, repo);
                }
                if under(rp@, home) {
                    lemma_separate_roots(home, repo, rp@);
                }
            }
        }
    }
    acts.push(Action::CopyFile { from: path.clone(), to: rp.clone() });
    fs.set_file(&rp, content);
    let ghost s1 = fs.entries@;
    acts.push(Action::RemoveFile { path: path.clone() });
    fs.remove_subtree(&path);
    let ghost s2 = fs.entries@;
    proof {
        assert(find(s2, rp@) == find(s1, rp@));
        lemma_add_dest_free(s0, s1, s2, rp@, dest);
    }
    acts.push(Action::Symlink { target: rp.clone(), link: path.clone() });
    fs.set_link(&path, &rp);
    proof {
        assert(find(fs.entries@, rp@) == find(s2, rp@));
    }
}

/// How the `add <path>` command can fail.
#[derive(Debug)]
pub enum AddError {
    /// The path is malformed or not inside the home directory.
    OutsideHome,
    /// Nothing readable sits at the path.
    NotFound,
    /// The filesystem shape stood in the way of the copy or the link.
    Conflict(FsError),
}

/// Take a home file into the repository: copy its bytes to the
/// mirrored repository path, remove the original, put a symlink in its
/// place, and move the path from the suggested list to the mapped one.
pub fn add(fs: &mut Fs, cfg: &Settings, st: &mut State, path: &String, acts: &mut Vec<
    Action,
>) -> (r: Result<(), AddError>)
    requires
        fs_wf(old(fs).entries@),
        settings_wf(*cfg),
        state_wf(*old(st)),
    ensures
        fs_wf(final(fs).entries@),
        state_wf(*final(st)),
        r == Result::<(), AddError>::Err(AddError::OutsideHome) <==> !(wf_path(path@)
            && under(path@, cfg.home_dir@)),
        r == Result::<(), AddError>::Err(AddError::NotFound) <==> (wf_path(path@) && under(
            path@,
            cfg.home_dir@,
        ) && read_at(old(fs).entries@, path@) is None),
        r is Ok <==> (wf_path(path@) && under(path@, cfg.home_dir@) && read_at(
            old(fs).entries@,
            path@,
        ) is Some && !blocked(
            old(fs).entries@,
            joined(cfg.repo_dir@, rel_of(path@, cfg.home_dir@)),
        ) && !dir_at(
            old(fs).entries@,
            joined(cfg.repo_dir@, rel_of(path@, cfg.home_dir@)),
        )),
        r is Err ==> *final(st) == *old(st) && final(fs).entries@ == old(fs).entries@,
        r is Ok ==> {
            let rel = rel_of(path@, cfg.home_dir@);
            &&& link_at(final(fs).entries@, path@) == Some(joined(cfg.repo_dir@, rel))
            &&& content_at(final(fs).entries@, joined(cfg.repo_dir@, rel)) == read_at(
                old(fs).entries@,
                path@,
            )
            &&& (forall|q: Seq<char>|
                in_list(final(st).suggested_files@, q) <==> (in_list(
                    old(st).suggested_files@,
                    q,
                ) && q != path@))
            &&& (forall|q: Seq<char>|
                in_list(final(st).mapped_files@, q) <==> (in_list(old(st).mapped_files@, q)
                    || (in_list(old(st).suggested_files@, q) && q == path@)))
        },
{
    if !is_wf_path(path) || !is_under(path, &cfg.home_dir) {
        return Err(AddError::OutsideHome);
    }
    let rel = rel_part(path, &cfg.home_dir);
    proof {
        lemma_rel_of_wf(path@, cfg.home_dir@);
        lemma_under_join_rel(path@, cfg.home_dir@);
        lemma_joined_wf(cfg.repo_dir@, rel@);
    }
    let content = match fs.read(path) {
        None => {
            return Err(AddError::NotFound);
        },
        Some(c) => c,
    };
    let rp = join(&cfg.repo_dir, &rel);
    if fs.is_blocked(&rp) {
        return Err(AddError::Conflict(FsError::NotADirectory { path: rp }));
    }
    if fs.has_dir(&rp) {
        return Err(AddError::Conflict(FsError::IsADirectory { path: rp }));
    }
    take_into_repo(fs, cfg, &rel, content, acts);
    st.reclassify(path);
    Ok(())
}

} // verus!
