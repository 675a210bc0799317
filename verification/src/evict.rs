//! Root-only eviction: the pre-extraction sweep that clears stray files
//! lying directly in a target root, without ever touching subdirectories or
//! anything below them. Per-file deletion failures are tolerated by the
//! shell that replays the plan; they do not abort the sweep.

use vstd::prelude::*;

use crate::fsmodel::{has_dir, FsEntry, Snapshot};

verus! {

/// Whether eviction deletes this entry: a file lying directly in the root.
pub open spec fn evicted(e: FsEntry) -> bool {
    e.depth() == 1 && !e.is_dir
}

/// The entries eviction deletes, in listing order.
pub open spec fn spec_evict_deletions(s: Seq<FsEntry>) -> Seq<FsEntry> {
    s.filter(|e: FsEntry| evicted(e))
}

/// The entries eviction leaves in place, in listing order.
pub open spec fn spec_evict_kept(s: Seq<FsEntry>) -> Seq<FsEntry> {
    s.filter(|e: FsEntry| !evicted(e))
}

proof fn lemma_evict_step(t: Seq<FsEntry>, x: FsEntry)
    ensures
        spec_evict_deletions(t.push(x)) == if evicted(x) {
            spec_evict_deletions(t).push(x)
        } else {
            spec_evict_deletions(t)
        },
        spec_evict_kept(t.push(x)) == if !evicted(x) {
            spec_evict_kept(t).push(x)
        } else {
            spec_evict_kept(t)
        },
{
    reveal_with_fuel(Seq::<FsEntry>::filter, 2);
    assert(t.push(x).drop_last() =~= t);
    assert(t.push(x).last() == x);
}

proof fn lemma_evict_kept_members(t: Seq<FsEntry>)
    ensures
        forall|j: int|
            0 <= j < spec_evict_kept(t).len() ==> !evicted(#[trigger] spec_evict_kept(t)[j])
                && exists|i: int| 0 <= i < t.len() && spec_evict_kept(t)[j] == t[i],
    decreases t.len(),
{
    reveal_with_fuel(Seq::<FsEntry>::filter, 1);
    if t.len() == 0 {
        assert(spec_evict_kept(t) =~= Seq::<FsEntry>::empty());
    } else {
        let u = t.drop_last();
        let x = t.last();
        lemma_evict_kept_members(u);
        assert(t =~= u.push(x));
        lemma_evict_step(u, x);
        let k = spec_evict_kept(t);
        let ku = spec_evict_kept(u);
        assert forall|j: int| 0 <= j < k.len() implies !evicted(#[trigger] k[j]) && exists|i: int|
            0 <= i < t.len() && k[j] == t[i] by {
            if !evicted(x) && j == k.len() - 1 {
                assert(k[j] == x);
                assert(k[j] == t[t.len() - 1]);
            } else {
                assert(k[j] == ku[j]);
                let i = choose|i: int| 0 <= i < u.len() && ku[j] == u[i];
                assert(k[j] == t[i]);
            }
        }
    }
}

proof fn lemma_evict_kept_pairs(t: Seq<FsEntry>)
    ensures
        forall|a: int, b: int|
            0 <= a < b < spec_evict_kept(t).len() ==> exists|ia: int, ib: int|
                0 <= ia < ib < t.len() && (#[trigger] spec_evict_kept(t)[a]) == t[ia] && (
                #[trigger] spec_evict_kept(t)[b]) == t[ib],
    decreases t.len(),
{
    reveal_with_fuel(Seq::<FsEntry>::filter, 1);
    if t.len() == 0 {
        assert(spec_evict_kept(t) =~= Seq::<FsEntry>::empty());
    } else {
        let u = t.drop_last();
        let x = t.last();
        lemma_evict_kept_pairs(u);
        lemma_evict_kept_members(u);
        assert(t =~= u.push(x));
        lemma_evict_step(u, x);
        let k = spec_evict_kept(t);
        let ku = spec_evict_kept(u);
        assert forall|a: int, b: int| 0 <= a < b < k.len() implies exists|ia: int, ib: int|
            0 <= ia < ib < t.len() && (#[trigger] k[a]) == t[ia] && (#[trigger] k[b])
                == t[ib] by {
            if !evicted(x) && b == k.len() - 1 {
                assert(k[a] == ku[a]);
                let ia = choose|i: int| 0 <= i < u.len() && ku[a] == u[i];
                assert(k[a] == t[ia]);
                assert(k[b] == x);
                assert(k[b] == t[t.len() - 1]);
                assert(0 <= ia < t.len() - 1 < t.len() && k[a] == t[ia] && k[b] == t[t.len() - 1]);
            } else {
                assert(k[a] == ku[a] && k[b] == ku[b]);
                let (ia, ib) = choose|ia: int, ib: int|
                    0 <= ia < ib < u.len() && ku[a] == u[ia] && ku[b] == u[ib];
                assert(k[a] == t[ia] && k[b] == t[ib]);
            }
        }
    }
}

proof fn lemma_evict_kept_wf(s: Snapshot, k: Snapshot)
    requires
        s.wf(),
        k.entries@ == spec_evict_kept(s.entries@),
    ensures
        k.wf(),
{
    let s0 = s.entries@;
    let ke = k.entries@;
    let pred = |e: FsEntry| !evicted(e);
    lemma_evict_kept_members(s0);
    lemma_evict_kept_pairs(s0);
    assert forall|j: int| 0 <= j < ke.len() implies (#[trigger] ke[j].pathv()).len() >= 1 by {
        let i = choose|i: int| 0 <= i < s0.len() && ke[j] == s0[i];
        assert(s0[i].pathv().len() >= 1);
    }
    assert forall|j: int, c: int|
        0 <= j < ke.len() && 0 <= c < ke[j].pathv().len() implies (
        #[trigger] ke[j].pathv()[c]).len() >= 1 by {
        let i = choose|i: int| 0 <= i < s0.len() && ke[j] == s0[i];
        assert(s0[i].pathv()[c].len() >= 1);
    }
    assert forall|a: int, b: int|
        0 <= a < ke.len() && 0 <= b < ke.len() && a != b implies (#[trigger] ke[a].pathv()) != (
        #[trigger] ke[b].pathv()) by {
        let lo: int = if a < b {
            a
        } else {
            b
        };
        let hi: int = if a < b {
            b
        } else {
            a
        };
        let (ia, ib) = choose|ia: int, ib: int|
            0 <= ia < ib < s0.len() && ke[lo] == s0[ia] && ke[hi] == s0[ib];
        assert(s0[ia].pathv() != s0[ib].pathv());
    }
    assert forall|j: int, kk: int|
        0 <= j < ke.len() && 1 <= kk < ke[j].pathv().len() implies has_dir(
        ke,
        #[trigger] ke[j].pathv().take(kk),
    ) by {
        let p = ke[j].pathv().take(kk);
        let i = choose|i: int| 0 <= i < s0.len() && ke[j] == s0[i];
        assert(has_dir(s0, s0[i].pathv().take(kk)));
        let di = choose|di: int| 0 <= di < s0.len() && s0[di].is_dir && s0[di].pathv() == p;
        assert(!evicted(s0[di]));
        s0.lemma_filter_contains(pred, di);
        assert(spec_evict_kept(s0).contains(s0[di]));
        let w = choose|w: int| 0 <= w < ke.len() && ke[w] == s0[di];
        assert(ke[w].is_dir && ke[w].pathv() == p);
        assert(has_dir(ke, p));
    }
}

/// Result of planning a root-only eviction.
pub struct EvictPlan {
    /// What to delete: the direct file children of the root.
    pub deletions: Vec<FsEntry>,
    /// The tree as it stands once every deletion has succeeded.
    pub kept: Snapshot,
}

/// Plan the sweep over a listed tree. Directories and entries below them
/// are never deleted; only files whose parent is the root itself are.
pub fn evict_root_files_plan(s: Snapshot) -> (r: EvictPlan)
    requires
        s.wf(),
    ensures
        r.deletions@ == spec_evict_deletions(s.seqv()),
        r.kept.seqv() == spec_evict_kept(s.seqv()),
        r.kept.wf(),
{
    let ghost s_full = s;
    let ghost s0 = s.entries@;
    let mut rest = s.entries;
    let mut deletions: Vec<FsEntry> = Vec::new();
    let mut kept: Vec<FsEntry> = Vec::new();
    let ghost mut i: int = 0;
    while rest.len() > 0
        invariant
            0 <= i <= s0.len(),
            rest@ == s0.skip(i),
            deletions@ == spec_evict_deletions(s0.take(i)),
            kept@ == spec_evict_kept(s0.take(i)),
        decreases rest.len(),
    {
        proof {
            assert(i < s0.len());
        }
        let e = rest.remove(0);
        proof {
            assert(rest@ =~= s0.skip(i + 1));
            assert(e == s0[i]);
            assert(s0.take(i + 1) =~= s0.take(i).push(s0[i]));
            lemma_evict_step(s0.take(i), s0[i]);
        }
        let is_root_file = e.path.len() == 1 && !e.is_dir;
        proof {
            assert(is_root_file == evicted(s0[i]));
        }
        if is_root_file {
            deletions.push(e);
        } else {
            kept.push(e);
        }
        proof {
            i = i + 1;
        }
    }
    proof {
        assert(s0.take(i) =~= s0);
    }
    let kept_snapshot = Snapshot { entries: kept };
    proof {
        lemma_evict_kept_wf(s_full, kept_snapshot);
    }
    EvictPlan { deletions, kept: kept_snapshot }
}

/// Root-only eviction never deletes a subdirectory, nor anything lying below
/// one: every directory entry and every entry deeper than the root survives,
/// and everything deleted is a file directly in the root.
pub proof fn lemma_evict_preserves_subtrees(s: Seq<FsEntry>)
    ensures
        forall|i: int|
            0 <= i < s.len() && ((#[trigger] s[i]).is_dir || s[i].depth() >= 2)
                ==> spec_evict_kept(s).contains(s[i]),
        forall|i: int|
            0 <= i < spec_evict_deletions(s).len() ==> (#[trigger] spec_evict_deletions(
                s,
            )[i]).depth() == 1 && !spec_evict_deletions(s)[i].is_dir,
{
    let pred_del = |e: FsEntry| evicted(e);
    let pred_keep = |e: FsEntry| !evicted(e);
    assert forall|i: int|
        0 <= i < s.len() && ((#[trigger] s[i]).is_dir || s[i].depth() >= 2)
            implies spec_evict_kept(s).contains(s[i]) by {
        s.lemma_filter_contains(pred_keep, i);
    }
    assert forall|i: int|
        0 <= i < spec_evict_deletions(s).len() implies (#[trigger] spec_evict_deletions(
            s,
        )[i]).depth() == 1 && !spec_evict_deletions(s)[i].is_dir by {
        s.lemma_filter_pred(pred_del, i);
    }
}

proof fn lemma_evict_none(t: Seq<FsEntry>)
    requires
        forall|i: int| 0 <= i < t.len() ==> !evicted(#[trigger] t[i]),
    ensures
        spec_evict_deletions(t) == Seq::<FsEntry>::empty(),
        spec_evict_kept(t) == t,
    decreases t.len(),
{
    reveal_with_fuel(Seq::<FsEntry>::filter, 1);
    if t.len() == 0 {
        assert(spec_evict_deletions(t) =~= Seq::<FsEntry>::empty());
        assert(spec_evict_kept(t) =~= t);
    } else {
        let u = t.drop_last();
        assert forall|i: int| 0 <= i < u.len() implies !evicted(#[trigger] u[i]) by {
            assert(u[i] == t[i]);
        }
        lemma_evict_none(u);
        assert(t =~= u.push(t.last()));
        lemma_evict_step(u, t.last());
        assert(spec_evict_kept(t) =~= t);
    }
}

/// Idempotence of root-only eviction: everything one sweep keeps is a
/// directory or lies below one, so a second sweep over the kept tree
/// deletes nothing and keeps it unchanged.
pub proof fn lemma_evict_idempotent(s: Seq<FsEntry>)
    ensures
        spec_evict_deletions(spec_evict_kept(s)) == Seq::<FsEntry>::empty(),
        spec_evict_kept(spec_evict_kept(s)) == spec_evict_kept(s),
{
    let k = spec_evict_kept(s);
    let pred_keep = |e: FsEntry| !evicted(e);
    assert forall|i: int| 0 <= i < k.len() implies !evicted(#[trigger] k[i]) by {
        s.lemma_filter_pred(pred_keep, i);
    }
    lemma_evict_none(k);
}

} // verus!
