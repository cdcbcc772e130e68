//! Absolute, `/`-separated paths, modelled as strings.
//!
//! A directory never appears on its own: a path names a file or a symlink,
//! and a directory exists exactly where some entry lives beneath it. The
//! predicates here define the containment relation (`under`), mirroring a
//! path from one root to another (`joined`, `rel_of`), and the exact-match
//! ignore rule: an ignore entry hides itself and its whole subtree.

use vstd::prelude::*;
use vstd::string::StrSliceExecFns;
use vstd::string::StringExecFns;

verus! {

/// `p` is a well-formed absolute path: it starts with `/`, does not end
/// in `/`, and holds no empty component.
pub open spec fn wf_path(p: Seq<char>) -> bool {
    &&& p.len() >= 2
    &&& p[0] == '/'
    &&& p[p.len() - 1] != '/'
    &&& forall|k: int| 0 < k < p.len() ==> !(#[trigger] p[k] == '/' && p[k - 1] == '/')
}

/// `r` is a well-formed relative path: non-empty, no leading, trailing
/// or doubled `/`.
pub open spec fn wf_rel(r: Seq<char>) -> bool {
    &&& r.len() >= 1
    &&& r[0] != '/'
    &&& r[r.len() - 1] != '/'
    &&& forall|k: int| 0 < k < r.len() ==> !(#[trigger] r[k] == '/' && r[k - 1] == '/')
}

/// `p` lies strictly below the directory `d`: it reads `d/...`.
pub open spec fn under(p: Seq<char>, d: Seq<char>) -> bool {
    &&& p.len() >= d.len() + 2
    &&& p.subrange(0, d.len() as int) == d
    &&& p[d.len() as int] == '/'
}

/// The path of `r` mirrored below the directory `d`.
pub open spec fn joined(d: Seq<char>, r: Seq<char>) -> Seq<char> {
    d + seq!['/'] + r
}

/// The part of `p` below the directory `d`.
pub open spec fn rel_of(p: Seq<char>, d: Seq<char>) -> Seq<char> {
    p.subrange(d.len() as int + 1, p.len() as int)
}

/// The ignore rule: an ignore entry hides itself and every descendant.
pub open spec fn ignored(p: Seq<char>, igs: Seq<String>) -> bool {
    exists|i: int| 0 <= i < igs.len() && (p == igs[i]@ || under(p, igs[i]@))
}

/// `p` sits directly in the directory `d`, not in a subdirectory.
pub open spec fn direct_child(p: Seq<char>, d: Seq<char>) -> bool {
    under(p, d) && !rel_of(p, d).contains('/')
}

pub proof fn lemma_join_under_root(d: Seq<char>, r: Seq<char>)
    requires
        r.len() >= 1,
    ensures
        under(joined(d, r), d),
        rel_of(joined(d, r), d) == r,
{
    assert(joined(d, r).subrange(0, d.len() as int) =~= d);
    assert(rel_of(joined(d, r), d) =~= r);
}

pub proof fn lemma_under_join_rel(p: Seq<char>, d: Seq<char>)
    requires
        under(p, d),
    ensures
        joined(d, rel_of(p, d)) == p,
        rel_of(p, d).len() >= 1,
{
    assert(joined(d, rel_of(p, d)) =~= p);
}

/// Mirroring below a common root neither merges two paths nor moves one
/// into or out of the other's subtree.
pub proof fn lemma_join_injective(d: Seq<char>, r1: Seq<char>, r2: Seq<char>)
    ensures
        (joined(d, r1) == joined(d, r2)) <==> (r1 == r2),
{
    if joined(d, r1) == joined(d, r2) {
        assert(joined(d, r1).len() == d.len() + 1 + r1.len());
        assert(joined(d, r2).len() == d.len() + 1 + r2.len());
        assert(r1.len() == r2.len());
        assert forall|k: int| 0 <= k < r1.len() implies r1[k] == r2[k] by {
            assert(joined(d, r1)[d.len() + 1 + k] == r1[k]);
            assert(joined(d, r2)[d.len() + 1 + k] == r2[k]);
        }
        assert(r1 =~= r2);
    }
}

pub proof fn lemma_join_under_iff(d: Seq<char>, r1: Seq<char>, r2: Seq<char>)
    ensures
        under(joined(d, r1), joined(d, r2)) <==> under(r1, r2),
{
    let a = joined(d, r1);
    let b = joined(d, r2);
    if under(a, b) {
        assert(r1.len() >= r2.len() + 2);
        assert forall|k: int| 0 <= k < r2.len() implies r1[k] == r2[k] by {
            assert(a[d.len() + 1 + k] == r1[k]);
            assert(b[d.len() + 1 + k] == r2[k]);
            assert(a.subrange(0, b.len() as int)[d.len() + 1 + k] == a[d.len() + 1 + k]);
        }
        assert(r1.subrange(0, r2.len() as int) =~= r2);
        assert(a[b.len() as int] == r1[r2.len() as int]);
    }
    if under(r1, r2) {
        assert(a.len() >= b.len() + 2);
        assert forall|k: int| 0 <= k < b.len() implies a[k] == b[k] by {
            if k >= d.len() + 1 {
                assert(a[k] == r1[k - d.len() - 1]);
                assert(b[k] == r2[k - d.len() - 1]);
                assert(r1.subrange(0, r2.len() as int)[k - d.len() - 1] == r1[k - d.len() - 1]);
            }
        }
        assert(a.subrange(0, b.len() as int) =~= b);
        assert(a[b.len() as int] == r1[r2.len() as int]);
    }
}

pub proof fn lemma_under_trans(x: Seq<char>, y: Seq<char>, z: Seq<char>)
    requires
        under(x, y),
        under(y, z),
    ensures
        under(x, z),
{
    assert forall|k: int| 0 <= k < z.len() implies x[k] == z[k] by {
        assert(x.subrange(0, y.len() as int)[k] == x[k]);
        assert(y.subrange(0, z.len() as int)[k] == y[k]);
    }
    assert(x.subrange(0, z.len() as int) =~= z);
    assert(x.subrange(0, y.len() as int)[z.len() as int] == x[z.len() as int]);
}

/// Two directories holding a common descendant are equal or nested.
pub proof fn lemma_common_descendant(x: Seq<char>, a: Seq<char>, b: Seq<char>)
    requires
        under(x, a),
        under(x, b),
        wf_path(a),
        wf_path(b),
    ensures
        a == b || under(a, b) || under(b, a),
{
    if a.len() == b.len() {
        assert(a =~= b);
    } else if a.len() < b.len() {
        assert forall|k: int| 0 <= k < a.len() implies b[k] == a[k] by {
            assert(x.subrange(0, a.len() as int)[k] == x[k]);
            assert(x.subrange(0, b.len() as int)[k] == x[k]);
        }
        assert(b.subrange(0, a.len() as int) =~= a);
        assert(b[a.len() as int] == x.subrange(0, b.len() as int)[a.len() as int]);
        assert(b[a.len() as int] == '/');
        assert(b[b.len() - 1] != '/');
        assert(b.len() >= a.len() + 2);
    } else {
        assert forall|k: int| 0 <= k < b.len() implies a[k] == b[k] by {
            assert(x.subrange(0, b.len() as int)[k] == x[k]);
            assert(x.subrange(0, a.len() as int)[k] == x[k]);
        }
        assert(a.subrange(0, b.len() as int) =~= b);
        assert(a[b.len() as int] == x.subrange(0, a.len() as int)[b.len() as int]);
        assert(a[b.len() as int] == '/');
        assert(a[a.len() - 1] != '/');
        assert(a.len() >= b.len() + 2);
    }
}

/// Mirroring a well-formed relative path below a well-formed root gives
/// a well-formed path below that root.
pub proof fn lemma_joined_wf(d: Seq<char>, r: Seq<char>)
    requires
        wf_path(d),
        wf_rel(r),
    ensures
        wf_path(joined(d, r)),
        under(joined(d, r), d),
        rel_of(joined(d, r), d) == r,
{
    lemma_join_under_root(d, r);
    assert(joined(d, r)[0] == d[0]);
    assert(joined(d, r)[joined(d, r).len() - 1] == r[r.len() - 1]);
}

/// The part of a well-formed path below a directory is a well-formed
/// relative path.
pub proof fn lemma_rel_of_wf(p: Seq<char>, d: Seq<char>)
    requires
        wf_path(p),
        under(p, d),
    ensures
        wf_rel(rel_of(p, d)),
{
    let r = rel_of(p, d);
    assert(r[0] == p[d.len() as int + 1]);
    assert(p[d.len() as int] == '/');
    assert(r[r.len() - 1] == p[p.len() - 1]);
    assert forall|k: int| 0 < k < r.len() implies !(#[trigger] r[k] == '/' && r[k - 1] == '/') by {
        assert(r[k] == p[d.len() as int + 1 + k]);
        assert(r[k - 1] == p[d.len() as int + k]);
    }
}

/// Three pairwise separate roots: no path can lie below two of them.
pub proof fn lemma_separate_roots(a: Seq<char>, b: Seq<char>, x: Seq<char>)
    requires
        wf_path(a),
        wf_path(b),
        a != b,
        !under(a, b),
        !under(b, a),
        under(x, a),
    ensures
        !under(x, b),
        x != b,
{
    if under(x, b) {
        lemma_common_descendant(x, a, b);
    }
    if x == b {
        assert(under(b, a));
    }
}

/// `d/` followed by the rest of `p`: the executable form of `joined`.
pub fn join(d: &String, r: &String) -> (res: String)
    ensures
        res@ == joined(d@, r@),
{
    let mut res = d.clone();
    res.append("/");
    res.append(r.as_str());
    proof {
        reveal_strlit("/");
        assert(res@ =~= joined(d@, r@));
    }
    res
}

/// Whether `p` is a well-formed absolute path.
pub fn is_wf_path(p: &String) -> (b: bool)
    ensures
        b == wf_path(p@),
{
    let n: usize = p.as_str().unicode_len();
    if n < 2 {
        return false;
    }
    if p.as_str().get_char(0) != '/' {
        return false;
    }
    if p.as_str().get_char(n - 1) == '/' {
        return false;
    }
    let mut i: usize = 1;
    while i < n
        invariant
            1 <= i <= n,
            n == p@.len(),
            forall|k: int| 0 < k < i ==> !(#[trigger] p@[k] == '/' && p@[k - 1] == '/'),
        decreases n - i,
    {
        if p.as_str().get_char(i) == '/' && p.as_str().get_char(i - 1) == '/' {
            return false;
        }
        i += 1;
    }
    true
}

/// Whether `r` is a well-formed relative path.
pub fn is_wf_rel(r: &String) -> (b: bool)
    ensures
        b == wf_rel(r@),
{
    let n: usize = r.as_str().unicode_len();
    if n < 1 {
        return false;
    }
    if r.as_str().get_char(0) == '/' {
        return false;
    }
    if r.as_str().get_char(n - 1) == '/' {
        return false;
    }
    let mut i: usize = 1;
    while i < n
        invariant
            1 <= i <= n,
            n == r@.len(),
            forall|k: int| 0 < k < i ==> !(#[trigger] r@[k] == '/' && r@[k - 1] == '/'),
        decreases n - i,
    {
        if r.as_str().get_char(i) == '/' && r.as_str().get_char(i - 1) == '/' {
            return false;
        }
        i += 1;
    }
    true
}

/// Whether `p` lies strictly below the directory `d`.
pub fn is_under(p: &String, d: &String) -> (b: bool)
    ensures
        b == under(p@, d@),
{
    let pl: usize = p.as_str().unicode_len();
    let dl: usize = d.as_str().unicode_len();
    if pl < dl || pl - dl < 2 {
        return false;
    }
    if p.as_str().get_char(dl) != '/' {
        return false;
    }
    let mut i: usize = 0;
    while i < dl
        invariant
            0 <= i <= dl,
            pl == p@.len(),
            dl == d@.len(),
            pl >= dl + 2,
            forall|k: int| 0 <= k < i ==> p@[k] == d@[k],
        decreases dl - i,
    {
        if p.as_str().get_char(i) != d.as_str().get_char(i) {
            return false;
        }
        i += 1;
    }
    proof {
        assert(p@.subrange(0, dl as int) =~= d@);
    }
    true
}

/// The part of `p` below the directory `d`: the executable form of `rel_of`.
pub fn rel_part(p: &String, d: &String) -> (res: String)
    requires
        under(p@, d@),
    ensures
        res@ == rel_of(p@, d@),
{
    let pl: usize = p.as_str().unicode_len();
    let dl: usize = d.as_str().unicode_len();
    p.as_str().substring_char(dl + 1, pl).to_owned()
}

/// Character-for-character equality of two strings.
pub fn str_eq(a: &String, b: &String) -> (r: bool)
    ensures
        r == (a@ == b@),
{
    let al: usize = a.as_str().unicode_len();
    let bl: usize = b.as_str().unicode_len();
    if al != bl {
        return false;
    }
    let mut i: usize = 0;
    while i < al
        invariant
            0 <= i <= al,
            al == a@.len(),
            bl == b@.len(),
            al == bl,
            forall|k: int| 0 <= k < i ==> a@[k] == b@[k],
        decreases al - i,
    {
        if a.as_str().get_char(i) != b.as_str().get_char(i) {
            return false;
        }
        i += 1;
    }
    proof {
        assert(a@ =~= b@);
    }
    true
}

/// Whether the ignore set hides `p`, by the exact-match subtree rule.
pub fn is_ignored(p: &String, igs: &Vec<String>) -> (b: bool)
    ensures
        b == ignored(p@, igs@),
{
    let n: usize = igs.len();
    let mut i: usize = 0;
    while i < n
        invariant
            0 <= i <= n,
            n == igs@.len(),
            forall|k: int| 0 <= k < i ==> !(p@ == igs@[k]@ || under(p@, igs@[k]@)),
        decreases n - i,
    {
        let ig = &igs[i];
        if str_eq(p, ig) || is_under(p, ig) {
            return true;
        }
        i += 1;
    }
    false
}

/// Whether `p` sits directly in the directory `d`.
pub fn is_direct_child(p: &String, d: &String) -> (b: bool)
    ensures
        b == direct_child(p@, d@),
{
    if !is_under(p, d) {
        return false;
    }
    let pl: usize = p.as_str().unicode_len();
    let dl: usize = d.as_str().unicode_len();
    let mut i: usize = dl + 1;
    while i < pl
        invariant
            dl + 1 <= i <= pl,
            pl == p@.len(),
            dl == d@.len(),
            under(p@, d@),
            forall|k: int| dl + 1 <= k < i ==> p@[k] != '/',
        decreases pl - i,
    {
        if p.as_str().get_char(i) == '/' {
            proof {
                assert(rel_of(p@, d@)[i - dl - 1] == p@[i as int]);
            }
            return false;
        }
        i += 1;
    }
    proof {
        assert forall|k: int| 0 <= k < rel_of(p@, d@).len() implies rel_of(p@, d@)[k] != '/' by {
            assert(rel_of(p@, d@)[k] == p@[d@.len() + 1 + k]);
        }
    }
    true
}

} // verus!
