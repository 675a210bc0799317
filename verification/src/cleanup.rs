//! The directory cleanup engine: below a root, delete every file whose
//! extension is not allow-listed (files without an extension always go), and
//! prune the directories this leaves empty. A directory survives exactly
//! when some allow-listed file lies strictly below it.
//!
//! The plan orders directory deletions deepest first, so that replaying it
//! always removes a directory only after everything below it. The shell that
//! replays the plan aborts at the first filesystem error, surfacing it to
//! the caller; the remaining deletions are then not attempted.

use vstd::prelude::*;

use crate::extensions::{allowed_name, is_allowed_name};
use crate::fsmodel::{below, dup_path, has_dir, prefix_matches, FsEntry, Snapshot};

verus! {

/// Whether cleanup deletes this file entry outright.
pub open spec fn cleanup_deletes_file(e: FsEntry, allowed: Seq<Seq<char>>) -> bool {
    !e.is_dir && !allowed_name(e.name(), allowed)
}

/// Whether a directory at path `p` survives: some allow-listed file of `s`
/// lies strictly below it.
pub open spec fn dir_survives(s: Seq<FsEntry>, p: Seq<Seq<char>>, allowed: Seq<Seq<char>>) -> bool {
    exists|j: int|
        0 <= j < s.len() && !s[j].is_dir && below(p, s[j].pathv()) && allowed_name(
            s[j].name(),
            allowed,
        )
}

/// Whether cleanup keeps this entry of `s`.
pub open spec fn cleanup_keeps(s: Seq<FsEntry>, e: FsEntry, allowed: Seq<Seq<char>>) -> bool {
    if e.is_dir {
        dir_survives(s, e.pathv(), allowed)
    } else {
        allowed_name(e.name(), allowed)
    }
}

/// The entries cleanup keeps, in listing order, of the prefix `t` of `s`.
pub open spec fn spec_cleanup_kept_upto(
    s: Seq<FsEntry>,
    t: Seq<FsEntry>,
    allowed: Seq<Seq<char>>,
) -> Seq<FsEntry> {
    t.filter(|e: FsEntry| cleanup_keeps(s, e, allowed))
}

/// The entries cleanup keeps, in listing order.
pub open spec fn spec_cleanup_kept(s: Seq<FsEntry>, allowed: Seq<Seq<char>>) -> Seq<FsEntry> {
    spec_cleanup_kept_upto(s, s, allowed)
}

/// The paths of the files cleanup deletes, in listing order, of the prefix
/// `t` of the tree.
pub open spec fn spec_deleted_file_paths_upto(t: Seq<FsEntry>, allowed: Seq<Seq<char>>) -> Seq<
    Seq<Seq<char>>,
> {
    t.filter(|e: FsEntry| cleanup_deletes_file(e, allowed)).map_values(|e: FsEntry| e.pathv())
}

/// The paths of the files cleanup deletes, in listing order.
pub open spec fn spec_deleted_file_paths(s: Seq<FsEntry>, allowed: Seq<Seq<char>>) -> Seq<
    Seq<Seq<char>>,
> {
    spec_deleted_file_paths_upto(s, allowed)
}

/// The paths of the doomed directories of depth exactly `d`, in listing
/// order, of the prefix `t` of `s`.
pub open spec fn spec_deleted_dirs_at_upto(
    s: Seq<FsEntry>,
    t: Seq<FsEntry>,
    allowed: Seq<Seq<char>>,
    d: int,
) -> Seq<Seq<Seq<char>>> {
    t.filter(
        |e: FsEntry| e.is_dir && e.depth() == d && !dir_survives(s, e.pathv(), allowed),
    ).map_values(|e: FsEntry| e.pathv())
}

/// The paths of the doomed directories of depth exactly `d`, in listing
/// order.
pub open spec fn spec_deleted_dirs_at(s: Seq<FsEntry>, allowed: Seq<Seq<char>>, d: int) -> Seq<
    Seq<Seq<char>>,
> {
    spec_deleted_dirs_at_upto(s, s, allowed, d)
}

/// The paths of all doomed directories of depth at most `d`, deepest first.
pub open spec fn spec_deleted_dirs_from(s: Seq<FsEntry>, allowed: Seq<Seq<char>>, d: int) -> Seq<
    Seq<Seq<char>>,
>
    decreases d,
{
    if d <= 0 {
        Seq::empty()
    } else {
        spec_deleted_dirs_at(s, allowed, d) + spec_deleted_dirs_from(s, allowed, d - 1)
    }
}

/// The greatest depth among the entries of `s`.
pub open spec fn max_depth(s: Seq<FsEntry>) -> int
    decreases s.len(),
{
    if s.len() == 0 {
        0
    } else if s.last().depth() >= max_depth(s.drop_last()) {
        s.last().depth()
    } else {
        max_depth(s.drop_last())
    }
}

/// The paths of the directories cleanup deletes, deepest first.
pub open spec fn spec_deleted_dir_paths(s: Seq<FsEntry>, allowed: Seq<Seq<char>>) -> Seq<
    Seq<Seq<char>>,
> {
    spec_deleted_dirs_from(s, allowed, max_depth(s))
}

proof fn lemma_kept_step(s: Seq<FsEntry>, t: Seq<FsEntry>, x: FsEntry, allowed: Seq<Seq<char>>)
    ensures
        spec_cleanup_kept_upto(s, t.push(x), allowed) == if cleanup_keeps(s, x, allowed) {
            spec_cleanup_kept_upto(s, t, allowed).push(x)
        } else {
            spec_cleanup_kept_upto(s, t, allowed)
        },
{
    reveal_with_fuel(Seq::<FsEntry>::filter, 2);
    assert(t.push(x).drop_last() =~= t);
    assert(t.push(x).last() == x);
}

proof fn lemma_file_paths_step(t: Seq<FsEntry>, x: FsEntry, allowed: Seq<Seq<char>>)
    ensures
        spec_deleted_file_paths_upto(t.push(x), allowed) == if cleanup_deletes_file(x, allowed) {
            spec_deleted_file_paths_upto(t, allowed).push(x.pathv())
        } else {
            spec_deleted_file_paths_upto(t, allowed)
        },
{
    reveal_with_fuel(Seq::<FsEntry>::filter, 2);
    assert(t.push(x).drop_last() =~= t);
    assert(t.push(x).last() == x);
    let pred = |e: FsEntry| cleanup_deletes_file(e, allowed);
    let f = |e: FsEntry| e.pathv();
    if pred(x) {
        assert(t.push(x).filter(pred) == t.filter(pred).push(x));
        assert(t.filter(pred).push(x).map_values(f) =~= t.filter(pred).map_values(f).push(
            x.pathv(),
        ));
    }
}

proof fn lemma_dirs_at_step(
    s: Seq<FsEntry>,
    t: Seq<FsEntry>,
    x: FsEntry,
    allowed: Seq<Seq<char>>,
    d: int,
)
    ensures
        spec_deleted_dirs_at_upto(s, t.push(x), allowed, d) == if x.is_dir && x.depth() == d
            && !dir_survives(s, x.pathv(), allowed) {
            spec_deleted_dirs_at_upto(s, t, allowed, d).push(x.pathv())
        } else {
            spec_deleted_dirs_at_upto(s, t, allowed, d)
        },
{
    reveal_with_fuel(Seq::<FsEntry>::filter, 2);
    assert(t.push(x).drop_last() =~= t);
    assert(t.push(x).last() == x);
    let pred = |e: FsEntry| e.is_dir && e.depth() == d && !dir_survives(s, e.pathv(), allowed);
    let f = |e: FsEntry| e.pathv();
    if pred(x) {
        assert(t.push(x).filter(pred) == t.filter(pred).push(x));
        assert(t.filter(pred).push(x).map_values(f) =~= t.filter(pred).map_values(f).push(
            x.pathv(),
        ));
    }
}

proof fn lemma_max_depth_step(t: Seq<FsEntry>, x: FsEntry)
    ensures
        max_depth(t.push(x)) == if x.depth() >= max_depth(t) {
            x.depth()
        } else {
            max_depth(t)
        },
{
    assert(t.push(x).drop_last() =~= t);
    assert(t.push(x).last() == x);
}

proof fn lemma_kept_upto_members(ctx: Seq<FsEntry>, t: Seq<FsEntry>, allowed: Seq<Seq<char>>)
    ensures
        forall|j: int|
            0 <= j < spec_cleanup_kept_upto(ctx, t, allowed).len() ==> cleanup_keeps(
                ctx,
                #[trigger] spec_cleanup_kept_upto(ctx, t, allowed)[j],
                allowed,
            ) && exists|i: int|
                0 <= i < t.len() && spec_cleanup_kept_upto(ctx, t, allowed)[j] == t[i],
    decreases t.len(),
{
    reveal_with_fuel(Seq::<FsEntry>::filter, 1);
    if t.len() == 0 {
        assert(spec_cleanup_kept_upto(ctx, t, allowed) =~= Seq::<FsEntry>::empty());
    } else {
        let u = t.drop_last();
        let x = t.last();
        lemma_kept_upto_members(ctx, u, allowed);
        assert(t =~= u.push(x));
        lemma_kept_step(ctx, u, x, allowed);
        let k = spec_cleanup_kept_upto(ctx, t, allowed);
        let ku = spec_cleanup_kept_upto(ctx, u, allowed);
        assert forall|j: int| 0 <= j < k.len() implies cleanup_keeps(ctx, #[trigger] k[j], allowed)
            && exists|i: int| 0 <= i < t.len() && k[j] == t[i] by {
            if cleanup_keeps(ctx, x, allowed) && j == k.len() - 1 {
                assert(k[j] == x);
                assert(k[j] == t[t.len() - 1]);
            } else {
                assert(k[j] == ku[j]);
                let i = choose|i: int| 0 <= i < u.len() && ku[j] == u[i];
                assert(k[j] == t[i]);
            }
        }
    }
}

proof fn lemma_kept_upto_pairs(ctx: Seq<FsEntry>, t: Seq<FsEntry>, allowed: Seq<Seq<char>>)
    ensures
        forall|a: int, b: int|
            0 <= a < b < spec_cleanup_kept_upto(ctx, t, allowed).len() ==> exists|ia: int, ib: int|
                0 <= ia < ib < t.len() && (#[trigger] spec_cleanup_kept_upto(ctx, t, allowed)[a])
                    == t[ia] && (#[trigger] spec_cleanup_kept_upto(ctx, t, allowed)[b]) == t[ib],
    decreases t.len(),
{
    reveal_with_fuel(Seq::<FsEntry>::filter, 1);
    if t.len() == 0 {
        assert(spec_cleanup_kept_upto(ctx, t, allowed) =~= Seq::<FsEntry>::empty());
    } else {
        let u = t.drop_last();
        let x = t.last();
        lemma_kept_upto_pairs(ctx, u, allowed);
        lemma_kept_upto_members(ctx, u, allowed);
        assert(t =~= u.push(x));
        lemma_kept_step(ctx, u, x, allowed);
        let k = spec_cleanup_kept_upto(ctx, t, allowed);
        let ku = spec_cleanup_kept_upto(ctx, u, allowed);
        assert forall|a: int, b: int| 0 <= a < b < k.len() implies exists|ia: int, ib: int|
            0 <= ia < ib < t.len() && (#[trigger] k[a]) == t[ia] && (#[trigger] k[b])
                == t[ib] by {
            if cleanup_keeps(ctx, x, allowed) && b == k.len() - 1 {
                assert(k[a] == ku[a]);
                let ia = choose|i: int| 0 <= i < u.len() && ku[a] == u[i];
                assert(k[a] == t[ia]);
                assert(k[b] == x);
                assert(k[b] == t[t.len() - 1]);
                assert(0 <= ia < t.len() - 1 < t.len() && k[a] == t[ia] && k[b] == t[t.len() - 1]);
            } else {
                assert(k[a] == ku[a] && k[b] == ku[b]);
                let (ia, ib) = choose|ia: int, ib: int|
                    0 <= ia < ib < u.len() && ku[a] == u[ia] && ku[b] == u[ib];
                assert(k[a] == t[ia] && k[b] == t[ib]);
            }
        }
    }
}

proof fn lemma_cleanup_kept_wf(s: Snapshot, allowed: Seq<Seq<char>>, k: Snapshot)
    requires
        s.wf(),
        k.entries@ == spec_cleanup_kept(s.entries@, allowed),
    ensures
        k.wf(),
{
    let s0 = s.entries@;
    let ke = k.entries@;
    let pred = |e: FsEntry| cleanup_keeps(s0, e, allowed);
    lemma_kept_upto_members(s0, s0, allowed);
    lemma_kept_upto_pairs(s0, s0, allowed);
    assert forall|j: int| 0 <= j < ke.len() implies (#[trigger] ke[j].pathv()).len() >= 1 by {
        let i = choose|i: int| 0 <= i < s0.len() && ke[j] == s0[i];
        assert(s0[i].pathv().len() >= 1);
    }
    assert forall|j: int, c: int|
        0 <= j < ke.len() && 0 <= c < ke[j].pathv().len() implies (
        #[trigger] ke[j].pathv()[c]).len() >= 1 by {
        let i = choose|i: int| 0 <= i < s0.len() && ke[j] == s0[i];
        assert(s0[i].pathv()[c].len() >= 1);
    }
    assert forall|a: int, b: int|
        0 <= a < ke.len() && 0 <= b < ke.len() && a != b implies (#[trigger] ke[a].pathv()) != (
        #[trigger] ke[b].pathv()) by {
        let lo: int = if a < b {
            a
        } else {
            b
        };
        let hi: int = if a < b {
            b
        } else {
            a
        };
        let (ia, ib) = choose|ia: int, ib: int|
            0 <= ia < ib < s0.len() && ke[lo] == s0[ia] && ke[hi] == s0[ib];
        assert(s0[ia].pathv() != s0[ib].pathv());
    }
    assert forall|j: int, kk: int|
        0 <= j < ke.len() && 1 <= kk < ke[j].pathv().len() implies has_dir(
        ke,
        #[trigger] ke[j].pathv().take(kk),
    ) by {
        let p = ke[j].pathv().take(kk);
        let i = choose|i: int| 0 <= i < s0.len() && ke[j] == s0[i];
        assert(has_dir(s0, s0[i].pathv().take(kk)));
        let di = choose|di: int| 0 <= di < s0.len() && s0[di].is_dir && s0[di].pathv() == p;
        assert(cleanup_keeps(s0, ke[j], allowed));
        if !ke[j].is_dir {
            assert(allowed_name(ke[j].name(), allowed));
            assert(below(p, s0[i].pathv()));
            assert(!s0[i].is_dir && below(p, s0[i].pathv()) && allowed_name(
                s0[i].name(),
                allowed,
            ));
            assert(dir_survives(s0, p, allowed));
        } else {
            assert(dir_survives(s0, ke[j].pathv(), allowed));
            let f = choose|f: int|
                0 <= f < s0.len() && !s0[f].is_dir && below(ke[j].pathv(), s0[f].pathv())
                    && allowed_name(s0[f].name(), allowed);
            assert(s0[f].pathv().take(ke[j].pathv().len() as int) == ke[j].pathv());
            assert forall|c: int| 0 <= c < kk implies s0[f].pathv()[c] == ke[j].pathv()[c] by {
                assert(s0[f].pathv().take(ke[j].pathv().len() as int)[c] == s0[f].pathv()[c]);
            }
            assert(s0[f].pathv().take(kk) =~= ke[j].pathv().take(kk));
            assert(below(p, s0[f].pathv()));
            assert(!s0[f].is_dir && below(p, s0[f].pathv()) && allowed_name(
                s0[f].name(),
                allowed,
            ));
            assert(dir_survives(s0, p, allowed));
        }
        assert(cleanup_keeps(s0, s0[di], allowed));
        s0.lemma_filter_contains(pred, di);
        assert(spec_cleanup_kept(s0, allowed).contains(s0[di]));
        let w = choose|w: int| 0 <= w < ke.len() && ke[w] == s0[di];
        assert(ke[w].is_dir && ke[w].pathv() == p);
        assert(has_dir(ke, p));
    }
}

/// Result of planning a cleanup pass.
pub struct CleanupPlan {
    /// Paths of the files to delete, in listing order.
    pub file_deletions: Vec<Vec<String>>,
    /// Paths of the directories to delete, deepest first, so that each one
    /// is empty by the time its own deletion is replayed.
    pub dir_deletions: Vec<Vec<String>>,
    /// The tree as it stands after every deletion has succeeded.
    pub kept: Snapshot,
}

/// Decide whether the directory entry at index `i` survives cleanup.
fn dir_survives_exec(entries: &Vec<FsEntry>, i: usize, allowed: &Vec<String>) -> (r: bool)
    requires
        i < entries@.len(),
    ensures
        r == dir_survives(entries@, entries@[i as int].pathv(), allowed.deep_view()),
{
    let n = entries.len();
    let plen = entries[i].path.len();
    let ghost p = entries@[i as int].pathv();
    let mut j: usize = 0;
    while j < n
        invariant
            n == entries@.len(),
            i < n,
            plen == p.len(),
            p == entries@[i as int].pathv(),
            0 <= j <= n,
            forall|k: int|
                0 <= k < j ==> !(!(#[trigger] entries@[k]).is_dir && below(p, entries@[k].pathv())
                    && allowed_name(entries@[k].name(), allowed.deep_view())),
        decreases n - j,
    {
        if !entries[j].is_dir && entries[j].path.len() > plen && prefix_matches(
            &entries[j].path,
            plen,
            &entries[i].path,
        ) {
            let name = &entries[j].path[entries[j].path.len() - 1];
            proof {
                assert(entries@[j as int].pathv()[entries@[j as int].pathv().len() - 1]
                    == entries@[j as int].path@[entries@[j as int].path@.len() - 1]@);
            }
            if is_allowed_name(name.as_str(), allowed) {
                proof {
                    assert(below(p, entries@[j as int].pathv()));
                    assert(!entries@[j as int].is_dir && below(p, entries@[j as int].pathv())
                        && allowed_name(entries@[j as int].name(), allowed.deep_view()));
                }
                return true;
            }
        }
        j += 1;
    }
    proof {
        assert(!dir_survives(entries@, p, allowed.deep_view()));
    }
    false
}

/// Plan a cleanup pass over a listed tree with a normalized allow-list.
///
/// Deleted: every file whose extension is not allow-listed, and every
/// directory with no allow-listed file below it. Kept: everything else, in
/// listing order.
#[verifier::loop_isolation(false)]
pub fn cleanup_plan(s: Snapshot, allowed: &Vec<String>) -> (r: CleanupPlan)
    requires
        s.wf(),
    ensures
        r.file_deletions.deep_view() == spec_deleted_file_paths(s.seqv(), allowed.deep_view()),
        r.dir_deletions.deep_view() == spec_deleted_dir_paths(s.seqv(), allowed.deep_view()),
        r.kept.seqv() == spec_cleanup_kept(s.seqv(), allowed.deep_view()),
        r.kept.wf(),
{
    let ghost s_full = s;
    let ghost s0 = s.entries@;
    let ghost al = allowed.deep_view();
    let n = s.entries.len();

    // Verdict per entry, so the consuming partition below needs no re-scan.
    let mut keeps: Vec<bool> = Vec::new();
    let mut file_deletions: Vec<Vec<String>> = Vec::new();
    let mut maxd: usize = 0;
    let mut i: usize = 0;
    while i < n
        invariant
            n == s0.len(),
            s.entries@ == s0,
            al == allowed.deep_view(),
            0 <= i <= n,
            keeps@.len() == i,
            forall|k: int| 0 <= k < i ==> keeps@[k] == cleanup_keeps(s0, s0[k], al),
            file_deletions.deep_view() == spec_deleted_file_paths_upto(s0.take(i as int), al),
            maxd == max_depth(s0.take(i as int)),
        decreases n - i,
    {
        proof {
            assert(s0.take(i + 1) =~= s0.take(i as int).push(s0[i as int]));
            lemma_file_paths_step(s0.take(i as int), s0[i as int], al);
            lemma_max_depth_step(s0.take(i as int), s0[i as int]);
        }
        let keep: bool;
        if s.entries[i].is_dir {
            keep = dir_survives_exec(&s.entries, i, allowed);
        } else {
            proof {
                assert(s0[i as int].pathv().len() >= 1);
            }
            let name = &s.entries[i].path[s.entries[i].path.len() - 1];
            proof {
                assert(s0[i as int].pathv()[s0[i as int].pathv().len() - 1]
                    == s0[i as int].path@[s0[i as int].path@.len() - 1]@);
            }
            keep = is_allowed_name(name.as_str(), allowed);
            if !keep {
                file_deletions.push(dup_path(&s.entries[i].path));
                proof {
                    assert(file_deletions.deep_view() =~= spec_deleted_file_paths_upto(
                        s0.take(i + 1),
                        al,
                    ));
                }
            }
        }
        keeps.push(keep);
        if s.entries[i].path.len() > maxd {
            maxd = s.entries[i].path.len();
        }
        i += 1;
    }
    proof {
        assert(s0.take(n as int) =~= s0);
    }

    // Doomed directories, deepest first.
    let mut dir_deletions: Vec<Vec<String>> = Vec::new();
    let mut d: usize = maxd;
    while d > 0
        invariant
            n == s0.len(),
            s.entries@ == s0,
            al == allowed.deep_view(),
            keeps@.len() == n,
            forall|k: int| 0 <= k < n ==> keeps@[k] == cleanup_keeps(s0, s0[k], al),
            0 <= d <= maxd,
            maxd == max_depth(s0),
            spec_deleted_dirs_from(s0, al, maxd as int) == dir_deletions.deep_view()
                + spec_deleted_dirs_from(s0, al, d as int),
        decreases d,
    {
        let ghost round0 = dir_deletions.deep_view();
        let mut j: usize = 0;
        while j < n
            invariant
                n == s0.len(),
                s.entries@ == s0,
                al == allowed.deep_view(),
                keeps@.len() == n,
                forall|k: int| 0 <= k < n ==> keeps@[k] == cleanup_keeps(s0, s0[k], al),
                0 <= j <= n,
                1 <= d,
                dir_deletions.deep_view() == round0 + spec_deleted_dirs_at_upto(
                    s0,
                    s0.take(j as int),
                    al,
                    d as int,
                ),
            decreases n - j,
        {
            proof {
                assert(s0.take(j + 1) =~= s0.take(j as int).push(s0[j as int]));
                lemma_dirs_at_step(s0, s0.take(j as int), s0[j as int], al, d as int);
            }
            if s.entries[j].is_dir && s.entries[j].path.len() == d && !keeps[j] {
                let ghost before = dir_deletions.deep_view();
                let dp = dup_path(&s.entries[j].path);
                proof {
                    assert(dp.deep_view() =~= s0[j as int].pathv());
                }
                dir_deletions.push(dp);
                proof {
                    assert(dir_deletions.deep_view() =~= before.push(s0[j as int].pathv()));
                    assert(dir_deletions.deep_view() =~= round0 + spec_deleted_dirs_at_upto(
                        s0,
                        s0.take(j + 1),
                        al,
                        d as int,
                    ));
                }
            }
            j += 1;
        }
        proof {
            assert(s0.take(n as int) =~= s0);
            assert(spec_deleted_dirs_from(s0, al, d as int) == spec_deleted_dirs_at(
                s0,
                al,
                d as int,
            ) + spec_deleted_dirs_from(s0, al, d - 1));
        }
        d -= 1;
    }

    // Consume the entries into the surviving tree.
    let mut rest = s.entries;
    let mut kept: Vec<FsEntry> = Vec::new();
    let ghost mut i2: int = 0;
    while rest.len() > 0
        invariant
            keeps@.len() == n == s0.len(),
            forall|k: int| 0 <= k < n ==> keeps@[k] == cleanup_keeps(s0, s0[k], al),
            0 <= i2 <= s0.len(),
            rest@ == s0.skip(i2),
            kept@ == spec_cleanup_kept_upto(s0, s0.take(i2), al),
        decreases rest.len(),
    {
        proof {
            assert(i2 < s0.len());
        }
        let ghost iold = i2;
        let idx = n - rest.len();
        proof {
            assert(idx == i2);
        }
        let e = rest.remove(0);
        proof {
            assert(rest@ =~= s0.skip(i2 + 1));
            assert(e == s0[i2]);
            assert(s0.take(i2 + 1) =~= s0.take(i2).push(s0[i2]));
            lemma_kept_step(s0, s0.take(i2), s0[i2], al);
        }
        if keeps[idx] {
            kept.push(e);
        }
        proof {
            i2 = i2 + 1;
        }
    }
    proof {
        assert(s0.take(i2) =~= s0);
    }
    let kept_snapshot = Snapshot { entries: kept };
    proof {
        lemma_cleanup_kept_wf(s_full, al, kept_snapshot);
    }
    CleanupPlan { file_deletions, dir_deletions, kept: kept_snapshot }
}

proof fn lemma_cleanup_none(ctx: Seq<FsEntry>, t: Seq<FsEntry>, allowed: Seq<Seq<char>>)
    requires
        forall|i: int| 0 <= i < t.len() ==> cleanup_keeps(ctx, #[trigger] t[i], allowed),
    ensures
        spec_cleanup_kept_upto(ctx, t, allowed) == t,
        spec_deleted_file_paths_upto(t, allowed) == Seq::<Seq<Seq<char>>>::empty(),
    decreases t.len(),
{
    reveal_with_fuel(Seq::<FsEntry>::filter, 1);
    if t.len() == 0 {
        assert(spec_cleanup_kept_upto(ctx, t, allowed) =~= t);
        assert(spec_deleted_file_paths_upto(t, allowed) =~= Seq::<Seq<Seq<char>>>::empty());
    } else {
        let u = t.drop_last();
        let x = t.last();
        assert forall|i: int| 0 <= i < u.len() implies cleanup_keeps(
            ctx,
            #[trigger] u[i],
            allowed,
        ) by {
            assert(u[i] == t[i]);
        }
        lemma_cleanup_none(ctx, u, allowed);
        assert(t =~= u.push(x));
        lemma_kept_step(ctx, u, x, allowed);
        lemma_file_paths_step(u, x, allowed);
        assert(!cleanup_deletes_file(x, allowed));
        assert(spec_cleanup_kept_upto(ctx, t, allowed) =~= t);
    }
}

proof fn lemma_dirs_at_none(ctx: Seq<FsEntry>, t: Seq<FsEntry>, allowed: Seq<Seq<char>>, d: int)
    requires
        forall|i: int|
            0 <= i < t.len() && (#[trigger] t[i]).is_dir ==> dir_survives(
                ctx,
                t[i].pathv(),
                allowed,
            ),
    ensures
        spec_deleted_dirs_at_upto(ctx, t, allowed, d) == Seq::<Seq<Seq<char>>>::empty(),
    decreases t.len(),
{
    reveal_with_fuel(Seq::<FsEntry>::filter, 1);
    if t.len() == 0 {
        assert(spec_deleted_dirs_at_upto(ctx, t, allowed, d) =~= Seq::<Seq<Seq<char>>>::empty());
    } else {
        let u = t.drop_last();
        let x = t.last();
        assert forall|i: int|
            0 <= i < u.len() && (#[trigger] u[i]).is_dir implies dir_survives(
            ctx,
            u[i].pathv(),
            allowed,
        ) by {
            assert(u[i] == t[i]);
        }
        lemma_dirs_at_none(ctx, u, allowed, d);
        assert(t =~= u.push(x));
        lemma_dirs_at_step(ctx, u, x, allowed, d);
    }
}

proof fn lemma_dirs_from_none(ctx: Seq<FsEntry>, allowed: Seq<Seq<char>>, d: int)
    requires
        forall|i: int|
            0 <= i < ctx.len() && (#[trigger] ctx[i]).is_dir ==> dir_survives(
                ctx,
                ctx[i].pathv(),
                allowed,
            ),
    ensures
        spec_deleted_dirs_from(ctx, allowed, d) == Seq::<Seq<Seq<char>>>::empty(),
    decreases d,
{
    if d > 0 {
        lemma_dirs_at_none(ctx, ctx, allowed, d);
        lemma_dirs_from_none(ctx, allowed, d - 1);
        assert(spec_deleted_dirs_from(ctx, allowed, d) =~= Seq::<Seq<Seq<char>>>::empty());
    }
}

/// Idempotence of cleanup: everything one pass keeps, a second pass over
/// the kept tree keeps again, deleting no file and no directory. A kept
/// directory owes its survival to an allow-listed file below it, and that
/// file is itself kept, so the reason persists.
pub proof fn lemma_cleanup_idempotent(s: Seq<FsEntry>, allowed: Seq<Seq<char>>)
    ensures
        spec_deleted_file_paths(spec_cleanup_kept(s, allowed), allowed) == Seq::<
            Seq<Seq<char>>,
        >::empty(),
        spec_deleted_dir_paths(spec_cleanup_kept(s, allowed), allowed) == Seq::<
            Seq<Seq<char>>,
        >::empty(),
        spec_cleanup_kept(spec_cleanup_kept(s, allowed), allowed) == spec_cleanup_kept(s, allowed),
{
    let k = spec_cleanup_kept(s, allowed);
    let pred = |e: FsEntry| cleanup_keeps(s, e, allowed);
    assert forall|i: int| 0 <= i < k.len() implies cleanup_keeps(s, #[trigger] k[i], allowed) by {
        s.lemma_filter_pred(pred, i);
    }
    assert forall|i: int| 0 <= i < k.len() implies cleanup_keeps(k, #[trigger] k[i], allowed) by {
        if k[i].is_dir {
            assert(dir_survives(s, k[i].pathv(), allowed));
            let j = choose|j: int|
                0 <= j < s.len() && !s[j].is_dir && below(k[i].pathv(), s[j].pathv())
                    && allowed_name(s[j].name(), allowed);
            assert(cleanup_keeps(s, s[j], allowed));
            s.lemma_filter_contains(pred, j);
            assert(k.contains(s[j]));
            let w = choose|w: int| 0 <= w < k.len() && k[w] == s[j];
            assert(!k[w].is_dir && below(k[i].pathv(), k[w].pathv()) && allowed_name(
                k[w].name(),
                allowed,
            ));
            assert(dir_survives(k, k[i].pathv(), allowed));
        }
    }
    lemma_cleanup_none(k, k, allowed);
    lemma_dirs_from_none(k, allowed, max_depth(k));
}

} // verus!
