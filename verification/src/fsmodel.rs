//! A value model of the directory tree below a media root.
//!
//! The pipeline operations do not touch the filesystem themselves: an
//! unverified shell lists the tree, hands it over as a [`Snapshot`], and
//! replays the plan that the verified planners compute. Paths are relative
//! to the root and stored as component sequences, so no separator convention
//! leaks into the model.

use vstd::prelude::*;

verus! {

/// One entry below a media root: its path relative to the root (outermost
/// component first) and whether it is a directory.
#[derive(Debug)]
pub struct FsEntry {
    pub path: Vec<String>,
    pub is_dir: bool,
}

impl FsEntry {
    /// The path as a sequence of component names.
    pub open spec fn pathv(&self) -> Seq<Seq<char>> {
        self.path.deep_view()
    }

    /// The entry's own name: its last path component.
    pub open spec fn name(&self) -> Seq<char> {
        self.pathv().last()
    }

    /// Depth below the root; direct children of the root have depth 1.
    pub open spec fn depth(&self) -> int {
        self.pathv().len() as int
    }
}

/// `q` lies strictly below the directory path `p`.
pub open spec fn below(p: Seq<Seq<char>>, q: Seq<Seq<char>>) -> bool {
    p.len() < q.len() && q.take(p.len() as int) == p
}

/// Some entry of `s` is a directory with path `p`.
pub open spec fn has_dir(s: Seq<FsEntry>, p: Seq<Seq<char>>) -> bool {
    exists|j: int| 0 <= j < s.len() && s[j].is_dir && s[j].pathv() == p
}

/// The tree below one root, as listed by the caller.
#[derive(Debug)]
pub struct Snapshot {
    pub entries: Vec<FsEntry>,
}

impl Snapshot {
    /// The entries as a sequence.
    pub open spec fn seqv(&self) -> Seq<FsEntry> {
        self.entries@
    }

    /// Well-formed: every path is non-empty and has non-empty components, no
    /// two entries share a path, and every proper prefix of a path is itself
    /// listed as a directory.
    pub open spec fn wf(&self) -> bool {
        let s = self.entries@;
        &&& (forall|i: int| 0 <= i < s.len() ==> (#[trigger] s[i].pathv()).len() >= 1)
        &&& (forall|i: int, c: int|
            0 <= i < s.len() && 0 <= c < s[i].pathv().len() ==> (
            #[trigger] s[i].pathv()[c]).len() >= 1)
        &&& (forall|i: int, j: int|
            0 <= i < s.len() && 0 <= j < s.len() && i != j ==> (#[trigger] s[i].pathv())
                != (#[trigger] s[j].pathv()))
        &&& (forall|i: int, k: int|
            0 <= i < s.len() && 1 <= k < s[i].pathv().len() ==> has_dir(
                s,
                #[trigger] s[i].pathv().take(k),
            ))
    }
}

/// Compare two paths componentwise.
pub fn path_eq(a: &Vec<String>, b: &Vec<String>) -> (r: bool)
    ensures
        r == (a.deep_view() == b.deep_view()),
{
    if a.len() != b.len() {
        proof {
            assert(a.deep_view().len() == a@.len());
            assert(b.deep_view().len() == b@.len());
        }
        return false;
    }
    let n = a.len();
    let mut c: usize = 0;
    while c < n
        invariant
            a@.len() == n,
            b@.len() == n,
            0 <= c <= n,
            forall|k: int| 0 <= k < c ==> a@[k]@ == b@[k]@,
        decreases n - c,
    {
        if a[c] == b[c] {
        } else {
            proof {
                assert(a.deep_view()[c as int] == a@[c as int]@);
                assert(b.deep_view()[c as int] == b@[c as int]@);
            }
            return false;
        }
        c += 1;
    }
    proof {
        assert forall|k: int| 0 <= k < n implies a.deep_view()[k] == b.deep_view()[k] by {
            assert(a.deep_view()[k] == a@[k]@);
            assert(b.deep_view()[k] == b@[k]@);
        }
        assert(a.deep_view() =~= b.deep_view());
    }
    true
}

/// Whether `b` equals the first `k` components of `a`.
pub fn prefix_matches(a: &Vec<String>, k: usize, b: &Vec<String>) -> (r: bool)
    requires
        k <= a@.len(),
    ensures
        r == (b.deep_view() == a.deep_view().take(k as int)),
{
    if b.len() != k {
        proof {
            assert(b.deep_view().len() == b@.len());
        }
        return false;
    }
    let mut c: usize = 0;
    while c < k
        invariant
            k <= a@.len(),
            b@.len() == k,
            0 <= c <= k,
            forall|j: int| 0 <= j < c ==> a@[j]@ == b@[j]@,
        decreases k - c,
    {
        if a[c] == b[c] {
        } else {
            proof {
                assert(a.deep_view().take(k as int)[c as int] == a@[c as int]@);
                assert(b.deep_view()[c as int] == b@[c as int]@);
            }
            return false;
        }
        c += 1;
    }
    proof {
        assert forall|j: int| 0 <= j < k implies b.deep_view()[j] == a.deep_view().take(
            k as int,
        )[j] by {
            assert(a.deep_view()[j] == a@[j]@);
            assert(b.deep_view()[j] == b@[j]@);
        }
        assert(b.deep_view() =~= a.deep_view().take(k as int));
    }
    true
}

impl Snapshot {
    /// Decide [`Snapshot::wf`] at run time, so that an unverified caller can
    /// validate a listing before planning against it.
    #[verifier::loop_isolation(false)]
    pub fn check_wf(&self) -> (r: bool)
        ensures
            r == self.wf(),
    {
        let ghost s = self.entries@;
        let n = self.entries.len();

        let mut i: usize = 0;
        while i < n
            invariant
                forall|ii: int| 0 <= ii < i ==> (#[trigger] s[ii].pathv()).len() >= 1,
            decreases n - i,
        {
            if self.entries[i].path.len() == 0 {
                proof {
                    assert(s[i as int].pathv().len() == 0);
                }
                return false;
            }
            i += 1;
        }

        let mut i: usize = 0;
        while i < n
            invariant
                forall|ii: int, c: int|
                    0 <= ii < i && 0 <= c < s[ii].pathv().len() ==> (
                    #[trigger] s[ii].pathv()[c]).len() >= 1,
            decreases n - i,
        {
            let m = self.entries[i].path.len();
            let mut c: usize = 0;
            while c < m
                invariant
                    m == s[i as int].pathv().len(),
                    i < n,
                    forall|cc: int| 0 <= cc < c ==> (#[trigger] s[i as int].pathv()[cc]).len()
                        >= 1,
                decreases m - c,
            {
                if self.entries[i].path[c].as_str().is_empty() {
                    proof {
                        assert(s[i as int].pathv()[c as int].len() == 0);
                    }
                    return false;
                }
                c += 1;
            }
            i += 1;
        }

        let mut i: usize = 0;
        while i < n
            invariant
                forall|ii: int, jj: int|
                    0 <= ii < i && 0 <= jj < s.len() && ii != jj ==> (#[trigger] s[ii].pathv())
                        != (#[trigger] s[jj].pathv()),
            decreases n - i,
        {
            let mut j: usize = i + 1;
            while j < n
                invariant
                    i < j <= n,
                    forall|jj: int| i < jj < j ==> s[i as int].pathv() != (
                    #[trigger] s[jj].pathv()),
                decreases n - j,
            {
                if path_eq(&self.entries[i].path, &self.entries[j].path) {
                    proof {
                        assert(s[i as int].pathv() == s[j as int].pathv());
                        assert(!self.wf());
                    }
                    return false;
                }
                j += 1;
            }
            i += 1;
        }

        let mut i: usize = 0;
        while i < n
            invariant
                forall|ii: int, k: int|
                    0 <= ii < i && 1 <= k < s[ii].pathv().len() ==> has_dir(
                        s,
                        #[trigger] s[ii].pathv().take(k),
                    ),
            decreases n - i,
        {
            let m = self.entries[i].path.len();
            let mut k: usize = 1;
            while k < m
                invariant
                    m == s[i as int].pathv().len(),
                    i < n,
                    1 <= k,
                    forall|kk: int| 1 <= kk < k ==> has_dir(s, #[trigger] s[i as int].pathv().take(kk)),
                decreases m - k,
            {
                let mut j: usize = 0;
                let mut found = false;
                while j < n
                    invariant
                        k <= m == s[i as int].pathv().len(),
                        i < n,
                        0 <= j <= n,
                        found ==> has_dir(s, s[i as int].pathv().take(k as int)),
                        !found ==> forall|jj: int|
                            0 <= jj < j ==> !((#[trigger] s[jj].is_dir) && s[jj].pathv() == s[i as int].pathv().take(k as int)),
                    decreases n - j,
                {
                    if self.entries[j].is_dir && prefix_matches(
                        &self.entries[i].path,
                        k,
                        &self.entries[j].path,
                    ) {
                        found = true;
                        proof {
                            assert(s[j as int].is_dir && s[j as int].pathv() == s[i as int].pathv().take(k as int));
                        }
                        break;
                    }
                    j += 1;
                }
                if !found {
                    proof {
                        assert(!has_dir(s, s[i as int].pathv().take(k as int)));
                    }
                    return false;
                }
                k += 1;
            }
            i += 1;
        }
        true
    }
}

/// Copy a path, component by component.
pub fn dup_path(p: &Vec<String>) -> (r: Vec<String>)
    ensures
        r@ == p@,
{
    let mut out: Vec<String> = Vec::new();
    let mut c: usize = 0;
    while c < p.len()
        invariant
            0 <= c <= p@.len(),
            out@ == p@.take(c as int),
        decreases p@.len() - c,
    {
        out.push(p[c].clone());
        proof {
            assert(out@ =~= p@.take(c + 1));
        }
        c += 1;
    }
    proof {
        assert(p@.take(p@.len() as int) =~= p@);
    }
    out
}

/// Whether `key` occurs in a list of strings.
pub fn contains_string(v: &Vec<String>, key: &String) -> (r: bool)
    ensures
        r == v.deep_view().contains(key@),
{
    let n = v.len();
    let mut j: usize = 0;
    while j < n
        invariant
            n == v@.len(),
            0 <= j <= n,
            forall|k: int| 0 <= k < j ==> v@[k]@ != key@,
        decreases n - j,
    {
        if v[j] == *key {
            proof {
                assert(v.deep_view()[j as int] == key@);
            }
            return true;
        }
        j += 1;
    }
    proof {
        assert forall|k: int| 0 <= k < v.deep_view().len() implies v.deep_view()[k] != key@ by {
            assert(v.deep_view()[k] == v@[k]@);
        }
    }
    false
}

} // verus!
