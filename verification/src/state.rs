//! The durable classification of files.
//!
//! A `State` records whether first-time setup ran, the differences the
//! last synchronization pass saw, and two path lists: `mapped_files`,
//! the destinations the engine considers tracked, and `suggested_files`,
//! destination-only discoveries not yet classified. The two lists never
//! share a path and never repeat one — `state_wf`, which every mutation
//! here preserves. Persisting the record after each mutation is the
//! caller's duty; the operations themselves are pure transformations.

use vstd::prelude::*;
use vstd::string::StringExecFns;
use crate::paths::str_eq;

verus! {

/// One working-tree change reported by the version-control backend.
pub struct Difference {
    pub kind: String,
    pub path: String,
}

/// The change a status query reports for a path, mirrored as a plain
/// value so the classification can be stated exactly.
#[derive(Clone, Copy)]
pub enum StatusDelta {
    Unmodified,
    Added,
    Deleted,
    Modified,
    Renamed,
    Copied,
    Ignored,
    Untracked,
    Typechange,
    Unreadable,
    Conflicted,
}

/// The kind label a status change maps to.
pub open spec fn diff_kind_of(change: Option<StatusDelta>) -> Seq<char> {
    match change {
        Some(StatusDelta::Modified) => "Modified"@,
        Some(StatusDelta::Added) => "Added"@,
        Some(StatusDelta::Untracked) => "Added"@,
        Some(StatusDelta::Deleted) => "Deleted"@,
        _ => "Undefined"@,
    }
}

impl Difference {
    /// Classify one status result: a modification, an addition (new or
    /// untracked), a deletion, or anything else as undefined. A status
    /// with no index-to-workdir change reads as undefined too.
    pub fn from_status_entry(path: String, change: Option<StatusDelta>) -> (r: Difference)
        ensures
            r.path@ == path@,
            r.kind@ == diff_kind_of(change),
    {
        let kind = match change {
            Some(StatusDelta::Modified) => "Modified",
            Some(StatusDelta::Added) => "Added",
            Some(StatusDelta::Untracked) => "Added",
            Some(StatusDelta::Deleted) => "Deleted",
            _ => "Undefined",
        };
        Difference { kind: kind.to_owned(), path }
    }
}

/// Whether the list holds path `p`.
pub open spec fn in_list(l: Seq<String>, p: Seq<char>) -> bool {
    exists|i: int| 0 <= i < l.len() && l[i]@ == p
}

pub open spec fn distinct_list(l: Seq<String>) -> bool {
    forall|i: int, j: int| 0 <= i < j < l.len() ==> l[i]@ != l[j]@
}

pub open spec fn lists_disjoint(a: Seq<String>, b: Seq<String>) -> bool {
    forall|i: int, j: int| 0 <= i < a.len() && 0 <= j < b.len() ==> a[i]@ != b[j]@
}

/// The classification invariant: no repeats, and no path both mapped
/// and suggested.
pub open spec fn state_wf(st: State) -> bool {
    &&& distinct_list(st.mapped_files@)
    &&& distinct_list(st.suggested_files@)
    &&& lists_disjoint(st.mapped_files@, st.suggested_files@)
}

/// The mapped and suggested sets never intersect: a path in one list is
/// in no position of the other.
pub proof fn lemma_state_disjoint(st: State, p: Seq<char>)
    requires
        state_wf(st),
    ensures
        !(in_list(st.mapped_files@, p) && in_list(st.suggested_files@, p)),
{
}

pub struct State {
    pub initialized: bool,
    pub differences: Vec<Difference>,
    pub mapped_files: Vec<String>,
    pub suggested_files: Vec<String>,
}

/// Whether the list holds path `p`: the executable form of `in_list`.
pub fn list_contains(l: &Vec<String>, p: &String) -> (b: bool)
    ensures
        b == in_list(l@, p@),
{
    let n: usize = l.len();
    let mut i: usize = 0;
    while i < n
        invariant
            0 <= i <= n,
            n == l@.len(),
            forall|k: int| 0 <= k < i ==> l@[k]@ != p@,
        decreases n - i,
    {
        if str_eq(&l[i], p) {
            proof {
                assert(l@[i as int]@ == p@);
            }
            return true;
        }
        i += 1;
    }
    false
}

impl State {
    /// The all-default record a fresh installation starts from.
    pub fn new() -> (r: State)
        ensures
            !r.initialized,
            r.differences@.len() == 0,
            r.mapped_files@.len() == 0,
            r.suggested_files@.len() == 0,
            state_wf(r),
    {
        State {
            initialized: false,
            differences: Vec::new(),
            mapped_files: Vec::new(),
            suggested_files: Vec::new(),
        }
    }

    /// Classify every suggested file as mapped in one stroke.
    pub fn ignore_all(&mut self)
        requires
            state_wf(*old(self)),
        ensures
            state_wf(*final(self)),
            final(self).suggested_files@.len() == 0,
            forall|p: Seq<char>|
                in_list(final(self).mapped_files@, p) <==> in_list(
                    old(self).mapped_files@,
                    p,
                ) || in_list(old(self).suggested_files@, p),
            final(self).initialized == old(self).initialized,
            final(self).differences == old(self).differences,
    {
        let ghost m0 = self.mapped_files@;
        let ghost s0 = self.suggested_files@;
        self.mapped_files.append(&mut self.suggested_files);
        proof {
            assert(self.mapped_files@ == m0 + s0);
            assert forall|p: Seq<char>| in_list(self.mapped_files@, p) implies in_list(m0, p)
                || in_list(s0, p) by {
                let i = choose|i: int|
                    0 <= i < self.mapped_files@.len() && self.mapped_files@[i]@ == p;
                if i < m0.len() {
                    assert(m0[i]@ == p);
                } else {
                    assert(s0[i - m0.len()]@ == p);
                }
            }
            assert forall|p: Seq<char>| in_list(m0, p) || in_list(s0, p) implies in_list(
                self.mapped_files@,
                p,
            ) by {
                if in_list(m0, p) {
                    let i = choose|i: int| 0 <= i < m0.len() && m0[i]@ == p;
                    assert(self.mapped_files@[i]@ == p);
                } else {
                    let i = choose|i: int| 0 <= i < s0.len() && s0[i]@ == p;
                    assert(self.mapped_files@[m0.len() + i]@ == p);
                }
            }
            assert forall|i: int, j: int| 0 <= i < j < self.mapped_files@.len()
                implies self.mapped_files@[i]@ != self.mapped_files@[j]@ by {
                if j < m0.len() {
                } else if i >= m0.len() {
                    assert(self.mapped_files@[i]@ == s0[i - m0.len()]@);
                    assert(self.mapped_files@[j]@ == s0[j - m0.len()]@);
                } else {
                    assert(self.mapped_files@[i]@ == m0[i]@);
                    assert(self.mapped_files@[j]@ == s0[j - m0.len()]@);
                }
            }
        }
    }

    /// Move `p` out of the suggested list; if it was there, record it as
    /// mapped. A path suggested nowhere is left unclassified, as the
    /// first discovery pass will suggest it.
    pub fn reclassify(&mut self, p: &String)
        requires
            state_wf(*old(self)),
        ensures
            state_wf(*final(self)),
            forall|q: Seq<char>|
                in_list(final(self).suggested_files@, q) <==> (in_list(
                    old(self).suggested_files@,
                    q,
                ) && q != p@),
            forall|q: Seq<char>|
                in_list(final(self).mapped_files@, q) <==> (in_list(old(self).mapped_files@, q)
                    || (in_list(old(self).suggested_files@, q) && q == p@)),
            final(self).initialized == old(self).initialized,
            final(self).differences == old(self).differences,
    {
        let ghost s0 = self.suggested_files@;
        let mut kept: Vec<String> = Vec::new();
        let mut found = false;
        let n: usize = self.suggested_files.len();
        let mut i: usize = 0;
        while i < n
            invariant
                0 <= i <= n,
                n == s0.len(),
                self.suggested_files@ == s0,
                state_wf(*self),
                found == (exists|k: int| 0 <= k < i && s0[k]@ == p@),
                forall|q: Seq<char>|
                    in_list(kept@, q) <==> (exists|k: int| 0 <= k < i && s0[k]@ == q && q
                        != p@),
                distinct_list(kept@),
                forall|k: int|
                    #![trigger kept@[k]]
                    0 <= k < kept@.len() ==> in_list(s0, kept@[k]@),
            decreases n - i,
        {
            let entry = self.suggested_files[i].clone();
            if str_eq(&entry, p) {
                found = true;
                proof {
                    assert(s0[i as int]@ == p@);
                }
            } else {
                let ghost k0 = kept@;
                kept.push(entry);
                proof {
                    let ghost kn: int = kept@.len() - 1;
                    assert(kept@ == k0.push(entry));
                    assert(kept@[kn]@ == s0[i as int]@);
                    assert forall|q: Seq<char>| in_list(kept@, q) implies (exists|k: int|
                        0 <= k < i + 1 && s0[k]@ == q && q != p@) by {
                        let w = choose|w: int| 0 <= w < kept@.len() && kept@[w]@ == q;
                        if w < kn {
                            assert(kept@[w] == k0[w]);
                            assert(in_list(k0, q));
                            let k = choose|k: int| 0 <= k < i && s0[k]@ == q && q != p@;
                            assert(0 <= k < i + 1 && s0[k]@ == q && q != p@);
                        } else {
                            assert(s0[i as int]@ == q && q != p@);
                        }
                    }
                    assert forall|q: Seq<char>| (exists|k: int|
                        0 <= k < i + 1 && s0[k]@ == q && q != p@) implies in_list(
                        kept@,
                        q,
                    ) by {
                        let k = choose|k: int| 0 <= k < i + 1 && s0[k]@ == q && q != p@;
                        if k < i {
                            assert(in_list(k0, q));
                            let w = choose|w: int| 0 <= w < k0.len() && k0[w]@ == q;
                            assert(kept@[w]@ == q);
                        } else {
                            assert(kept@[kn]@ == q);
                        }
                    }
                    assert forall|w: int| 0 <= w < kn implies kept@[w]@ != kept@[kn]@ by {
                        assert(kept@[w] == k0[w]);
                        assert(in_list(k0, kept@[w]@));
                        let k = choose|k: int|
                            0 <= k < i && s0[k]@ == kept@[w]@ && kept@[w]@ != p@;
                    }
                }
            }
            i += 1;
        }
        self.suggested_files = kept;
        if found {
            self.mapped_files.push(p.clone());
            proof {
                let ghost m1 = self.mapped_files@;
                let ghost m0 = old(self).mapped_files@;
                assert(m1.len() == m0.len() + 1);
                assert(forall|w: int| 0 <= w < m0.len() ==> m1[w] == m0[w]);
                assert(m1[m1.len() - 1]@ == p@);
                assert forall|q: Seq<char>| in_list(m1, q) implies (in_list(m0, q) || q
                    == p@) by {
                    let w = choose|w: int| 0 <= w < m1.len() && m1[w]@ == q;
                    if w < m0.len() {
                        assert(m0[w]@ == q);
                    }
                }
                assert forall|q: Seq<char>| in_list(m0, q) implies in_list(m1, q) by {
                    let w = choose|w: int| 0 <= w < m0.len() && m0[w]@ == q;
                    assert(m1[w]@ == q);
                }
                assert forall|q: Seq<char>| in_list(m0, q) && q == p@ implies false by {
                    let w = choose|w: int| 0 <= w < m0.len() && m0[w]@ == q;
                    let k = choose|k: int| 0 <= k < s0.len() && s0[k]@ == p@;
                }
                assert forall|i2: int, j2: int| 0 <= i2 < m1.len() && 0 <= j2
                    < self.suggested_files@.len() implies m1[i2]@
                    != self.suggested_files@[j2]@ by {
                    let q = self.suggested_files@[j2]@;
                    assert(in_list(self.suggested_files@, q));
                    let k = choose|k: int| 0 <= k < s0.len() && s0[k]@ == q && q != p@;
                    if i2 < m0.len() {
                        assert(m1[i2]@ == m0[i2]@);
                    } else {
                        assert(m1[i2]@ == p@);
                    }
                }
            }
        } else {
            proof {
                assert forall|q: Seq<char>| in_list(old(self).suggested_files@, q) && q == p@
                    implies false by {
                    let k = choose|k: int| 0 <= k < s0.len() && s0[k]@ == q;
                }
                assert forall|i2: int, j2: int| 0 <= i2 < self.mapped_files@.len() && 0 <= j2
                    < self.suggested_files@.len() implies self.mapped_files@[i2]@
                    != self.suggested_files@[j2]@ by {
                    let q = self.suggested_files@[j2]@;
                    assert(in_list(self.suggested_files@, q));
                    let k = choose|k: int| 0 <= k < s0.len() && s0[k]@ == q && q != p@;
                }
            }
        }
    }

    /// Replace the difference list wholesale — never a merge; entries of
    /// the prior pass that the new query does not report are discarded.
    pub fn replace_differences(&mut self, new_list: Vec<Difference>)
        requires
            state_wf(*old(self)),
        ensures
            state_wf(*final(self)),
            final(self).differences == new_list,
            final(self).mapped_files == old(self).mapped_files,
            final(self).suggested_files == old(self).suggested_files,
            final(self).initialized == old(self).initialized,
    {
        self.differences = new_list;
    }

    /// Flip the one-time initialization flag.
    pub fn set_initialized(&mut self, value: bool)
        requires
            state_wf(*old(self)),
        ensures
            state_wf(*final(self)),
            final(self).initialized == value,
            final(self).differences == old(self).differences,
            final(self).mapped_files == old(self).mapped_files,
            final(self).suggested_files == old(self).suggested_files,
    {
        self.initialized = value;
    }
}

} // verus!
