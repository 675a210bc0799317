//! The flatten engine: collect every allow-listed file lying below a
//! subdirectory of the root, relocate each to the root with collision
//! resolution, then remove every direct subdirectory wholesale. Files that
//! already lie at the root are left where they are, which is what makes a
//! second run a no-op.
//!
//! Collision resolution: a move whose destination name is free takes it; an
//! occupied name is either replaced (overwrite on) or resolved by trying
//! `stem_1.ext`, `stem_2.ext`, ... and taking the first free name. The shell
//! replaying the plan tolerates per-move failures, counts them, and reports
//! an aggregate warning instead of aborting.

use vstd::prelude::*;

use crate::decimal::{
    counter_to_dec, dec_digits, lemma_dec_digits_injective, lemma_dec_digits_no_dot,
};
use crate::extensions::{
    allowed_name, ext_of, ext_or_empty, is_allowed_name, last_dot, lemma_last_dot_bounds,
    lemma_last_dot_is, stem_and_ext, stem_of,
};
use crate::fsmodel::{dup_path, FsEntry, Snapshot};

verus! {

/// A planned relocation: source path (spec view), destination name at the
/// root, and whether an existing root entry is deleted to make room first.
pub type MoveRec = (Seq<Seq<char>>, Seq<char>, bool);

/// Whether the collection stage picks this entry up: a file lying below a
/// subdirectory whose extension is allow-listed.
pub open spec fn collects(e: FsEntry, allowed: Seq<Seq<char>>) -> bool {
    !e.is_dir && e.depth() >= 2 && allowed_name(e.name(), allowed)
}

/// The collected files of `t`, in listing order.
pub open spec fn spec_collected(t: Seq<FsEntry>, allowed: Seq<Seq<char>>) -> Seq<FsEntry> {
    t.filter(|e: FsEntry| collects(e, allowed))
}

/// The names of the direct children of the root, in listing order: the
/// initially occupied destination names.
pub open spec fn root_names(t: Seq<FsEntry>) -> Seq<Seq<char>> {
    t.filter(|e: FsEntry| e.depth() == 1).map_values(|e: FsEntry| e.name())
}

/// The names of the direct subdirectories of the root, in listing order:
/// what the removal stage deletes wholesale.
pub open spec fn spec_removed_dirs(t: Seq<FsEntry>) -> Seq<Seq<char>> {
    t.filter(|e: FsEntry| e.is_dir && e.depth() == 1).map_values(|e: FsEntry| e.name())
}

/// Whether this entry is a stray: a deep file the allow-list excludes, which
/// subtree removal will destroy. Strays are surfaced as diagnostics.
pub open spec fn is_stray(e: FsEntry, allowed: Seq<Seq<char>>) -> bool {
    !e.is_dir && e.depth() >= 2 && !allowed_name(e.name(), allowed)
}

/// The paths of the strays of `t`, in listing order.
pub open spec fn spec_strays(t: Seq<FsEntry>, allowed: Seq<Seq<char>>) -> Seq<Seq<Seq<char>>> {
    t.filter(|e: FsEntry| is_stray(e, allowed)).map_values(|e: FsEntry| e.pathv())
}

/// The alternative name `stem_k.ext` (or `stem_k` for a name without an
/// extension) tried for a colliding move.
pub open spec fn candidate_name(name: Seq<char>, k: int) -> Seq<char> {
    if ext_or_empty(name).len() == 0 {
        stem_of(name) + seq!['_'] + dec_digits(k)
    } else {
        stem_of(name) + seq!['_'] + dec_digits(k) + seq!['.'] + ext_or_empty(name)
    }
}

/// The smallest counter `>= k` whose candidate name is not occupied. Total
/// by an artificial bound; the pigeonhole lemma below shows the bound is
/// never reached.
pub open spec fn first_free_from(occ: Seq<Seq<char>>, name: Seq<char>, k: int) -> int
    decreases occ.len() + 2 - k
        when 1 <= k <= occ.len() + 1
{
    if !occ.contains(candidate_name(name, k)) {
        k
    } else if k <= occ.len() {
        first_free_from(occ, name, k + 1)
    } else {
        k + 1
    }
}

/// The destination a move resolves to, and whether it replaces an existing
/// root entry: a free name is taken as is; an occupied one is replaced under
/// overwrite, and renamed with the first free counter otherwise.
pub open spec fn resolve_dest(occ: Seq<Seq<char>>, name: Seq<char>, overwrite: bool) -> (
    Seq<char>,
    bool,
) {
    if !occ.contains(name) {
        (name, false)
    } else if overwrite {
        (name, true)
    } else {
        (candidate_name(name, first_free_from(occ, name, 1)), false)
    }
}

/// The occupied names after one resolved move.
pub open spec fn occ_step(occ: Seq<Seq<char>>, m: (Seq<char>, bool)) -> Seq<Seq<char>> {
    if m.1 {
        occ
    } else {
        occ.push(m.0)
    }
}

/// The moves the relocation stage performs, in collection order.
pub open spec fn sim_moves(files: Seq<FsEntry>, occ: Seq<Seq<char>>, overwrite: bool) -> Seq<
    MoveRec,
>
    decreases files.len(),
{
    if files.len() == 0 {
        Seq::empty()
    } else {
        let m = resolve_dest(occ, files[0].name(), overwrite);
        seq![(files[0].pathv(), m.0, m.1)] + sim_moves(
            files.drop_first(),
            occ_step(occ, m),
            overwrite,
        )
    }
}

/// The occupied names after a whole sequence of moves.
pub open spec fn occ_after(files: Seq<FsEntry>, occ: Seq<Seq<char>>, overwrite: bool) -> Seq<
    Seq<char>,
>
    decreases files.len(),
{
    if files.len() == 0 {
        occ
    } else {
        occ_after(
            files.drop_first(),
            occ_step(occ, resolve_dest(occ, files[0].name(), overwrite)),
            overwrite,
        )
    }
}

/// Splitting the collected files splits the simulation.
pub proof fn lemma_sim_append(f1: Seq<FsEntry>, f2: Seq<FsEntry>, occ: Seq<Seq<char>>, ow: bool)
    ensures
        sim_moves(f1 + f2, occ, ow) == sim_moves(f1, occ, ow) + sim_moves(
            f2,
            occ_after(f1, occ, ow),
            ow,
        ),
        occ_after(f1 + f2, occ, ow) == occ_after(f2, occ_after(f1, occ, ow), ow),
    decreases f1.len(),
{
    if f1.len() == 0 {
        assert(f1 + f2 =~= f2);
        assert(sim_moves(f1, occ, ow) + sim_moves(f2, occ, ow) =~= sim_moves(f2, occ, ow));
    } else {
        let m = resolve_dest(occ, f1[0].name(), ow);
        assert((f1 + f2)[0] == f1[0]);
        assert((f1 + f2).drop_first() =~= f1.drop_first() + f2);
        lemma_sim_append(f1.drop_first(), f2, occ_step(occ, m), ow);
        assert(sim_moves(f1 + f2, occ, ow) =~= sim_moves(f1, occ, ow) + sim_moves(
            f2,
            occ_after(f1, occ, ow),
            ow,
        ));
    }
}

/// Whether some move of the list lands at `name`.
pub open spec fn dest_taken(moves: Seq<MoveRec>, name: Seq<char>) -> bool {
    exists|i: int| 0 <= i < moves.len() && moves[i].1 == name
}

/// The destinations still holding their moved file once every move has run:
/// a move's file survives unless a later move lands on the same name.
pub open spec fn surviving_dests(moves: Seq<MoveRec>) -> Seq<Seq<char>>
    decreases moves.len(),
{
    if moves.len() == 0 {
        Seq::empty()
    } else if dest_taken(moves.drop_first(), moves[0].1) {
        surviving_dests(moves.drop_first())
    } else {
        seq![moves[0].1] + surviving_dests(moves.drop_first())
    }
}

/// The moves a flatten over `s` performs.
pub open spec fn spec_moves(s: Seq<FsEntry>, allowed: Seq<Seq<char>>, ow: bool) -> Seq<MoveRec> {
    sim_moves(spec_collected(s, allowed), root_names(s), ow)
}

/// The root files that keep their original content: those on whose name no
/// move lands.
pub open spec fn untaken_entries(s: Seq<FsEntry>, moves: Seq<MoveRec>) -> Seq<FsEntry> {
    s.filter(|e: FsEntry| e.depth() == 1 && !e.is_dir && !dest_taken(moves, e.name()))
}

/// The names of the root files that keep their original content.
pub open spec fn untaken_root_files(s: Seq<FsEntry>, moves: Seq<MoveRec>) -> Seq<Seq<char>> {
    untaken_entries(s, moves).map_values(|e: FsEntry| e.name())
}

/// The file names at the root once a flatten has fully succeeded: untouched
/// root files first, then the surviving moved files, each in order.
pub open spec fn spec_final_root_files(s: Seq<FsEntry>, allowed: Seq<Seq<char>>, ow: bool) -> Seq<
    Seq<char>,
> {
    untaken_root_files(s, spec_moves(s, allowed, ow)) + surviving_dests(spec_moves(s, allowed, ow))
}

/// Distinct counters give distinct candidate names for the same base name.
pub proof fn lemma_candidate_injective(name: Seq<char>, k1: int, k2: int)
    requires
        k1 >= 0,
        k2 >= 0,
        candidate_name(name, k1) == candidate_name(name, k2),
    ensures
        k1 == k2,
{
    let st = stem_of(name);
    let e = ext_or_empty(name);
    let d1 = dec_digits(k1);
    let d2 = dec_digits(k2);
    let c1 = candidate_name(name, k1);
    let c2 = candidate_name(name, k2);
    if e.len() == 0 {
        assert(c1 == st + seq!['_'] + d1);
        assert(c2 == st + seq!['_'] + d2);
        assert(c1.len() == st.len() + 1 + d1.len());
        assert(c2.len() == st.len() + 1 + d2.len());
    } else {
        assert(c1 == st + seq!['_'] + d1 + seq!['.'] + e);
        assert(c2 == st + seq!['_'] + d2 + seq!['.'] + e);
        assert(c1.len() == st.len() + 1 + d1.len() + 1 + e.len());
        assert(c2.len() == st.len() + 1 + d2.len() + 1 + e.len());
    }
    assert(d1.len() == d2.len());
    assert forall|j: int| 0 <= j < d1.len() implies d1[j] == d2[j] by {
        assert(c1[st.len() + 1 + j] == d1[j]);
        assert(c2[st.len() + 1 + j] == d2[j]);
    }
    assert(d1 =~= d2);
    lemma_dec_digits_injective(k1, k2);
}

/// Among the first `occ.len() + 1` candidate counters there is always one
/// whose name is not occupied: the occupied list is too short to hold them
/// all, since distinct counters give distinct names.
pub proof fn lemma_candidate_free_exists(occ: Seq<Seq<char>>, name: Seq<char>)
    ensures
        exists|k: int| 1 <= k <= occ.len() + 1 && !occ.contains(candidate_name(name, k)),
{
    broadcast use vstd::seq_lib::seq_to_set_is_finite;
    broadcast use vstd::set::group_set_axioms;

    let t = occ.len() as int + 1;
    if !(exists|k: int| 1 <= k <= t && !occ.contains(candidate_name(name, k))) {
        let f = |k: int| candidate_name(name, k);
        let dom = vstd::set_lib::set_int_range(1, t + 1);
        vstd::set_lib::lemma_int_range(1, t + 1);
        assert(vstd::relations::injective_on(f, dom)) by {
            assert forall|x1: int, x2: int|
                dom.contains(x1) && dom.contains(x2) && #[trigger] f(x1) == #[trigger] f(x2)
                    implies x1 == x2 by {
                lemma_candidate_injective(name, x1, x2);
            }
        }
        let img = dom.map(f);
        vstd::set_lib::lemma_map_size(dom, img, f);
        occ.lemma_cardinality_of_set();
        assert forall|c: Seq<char>| img.contains(c) implies occ.to_set().contains(c) by {
            let k = choose|k: int| dom.contains(k) && f(k) == c;
            assert(occ.contains(candidate_name(name, k)));
        }
        assert(img.subset_of(occ.to_set()));
        vstd::set_lib::lemma_len_subset(img, occ.to_set());
        assert(false);
    }
}

/// A candidate name carries the same extension as the name it stands in
/// for, whenever that extension is non-empty.
pub proof fn lemma_candidate_ext(name: Seq<char>, k: int)
    requires
        k >= 0,
        ext_or_empty(name).len() > 0,
    ensures
        ext_of(candidate_name(name, k)) == ext_of(name),
{
    let st = stem_of(name);
    let e = ext_or_empty(name);
    let d = dec_digits(k);
    let c = candidate_name(name, k);
    let p = st.len() as int + 1 + d.len() as int;
    lemma_last_dot_bounds(name);
    lemma_dec_digits_no_dot(k);
    assert(last_dot(name) >= 1);
    assert(st.len() >= 1);
    assert(c[p] == '.');
    assert forall|j: int| p < j < c.len() implies c[j] != '.' by {
        assert(c[j] == e[j - p - 1]);
        assert(e[j - p - 1] == name[last_dot(name) + 1 + (j - p - 1)]);
    }
    assert forall|j: int| 0 <= j < d.len() implies c[st.len() + 1 + j] == d[j] by {
        assert(c[st.len() + 1 + j] == d[j]);
    }
    lemma_last_dot_is(c, p);
    assert(ext_of(c) == Some(c.subrange(p + 1, c.len() as int)));
    assert(c.subrange(p + 1, c.len() as int) =~= e);
}

/// The names of a sequence of entries, in order.
pub open spec fn names_of(t: Seq<FsEntry>) -> Seq<Seq<char>> {
    t.map_values(|e: FsEntry| e.name())
}

proof fn lemma_names_step(t: Seq<FsEntry>, x: FsEntry)
    ensures
        names_of(t.push(x)) == names_of(t).push(x.name()),
{
    assert(names_of(t.push(x)) =~= names_of(t).push(x.name()));
}

proof fn lemma_collected_step(t: Seq<FsEntry>, x: FsEntry, allowed: Seq<Seq<char>>)
    ensures
        spec_collected(t.push(x), allowed) == if collects(x, allowed) {
            spec_collected(t, allowed).push(x)
        } else {
            spec_collected(t, allowed)
        },
{
    reveal_with_fuel(Seq::<FsEntry>::filter, 2);
    assert(t.push(x).drop_last() =~= t);
    assert(t.push(x).last() == x);
}

proof fn lemma_root_names_step(t: Seq<FsEntry>, x: FsEntry)
    ensures
        root_names(t.push(x)) == if x.depth() == 1 {
            root_names(t).push(x.name())
        } else {
            root_names(t)
        },
{
    reveal_with_fuel(Seq::<FsEntry>::filter, 2);
    assert(t.push(x).drop_last() =~= t);
    assert(t.push(x).last() == x);
    let pred = |e: FsEntry| e.depth() == 1;
    let f = |e: FsEntry| e.name();
    if pred(x) {
        assert(t.push(x).filter(pred) == t.filter(pred).push(x));
        assert(t.filter(pred).push(x).map_values(f) =~= t.filter(pred).map_values(f).push(
            x.name(),
        ));
    }
}

proof fn lemma_removed_dirs_step(t: Seq<FsEntry>, x: FsEntry)
    ensures
        spec_removed_dirs(t.push(x)) == if x.is_dir && x.depth() == 1 {
            spec_removed_dirs(t).push(x.name())
        } else {
            spec_removed_dirs(t)
        },
{
    reveal_with_fuel(Seq::<FsEntry>::filter, 2);
    assert(t.push(x).drop_last() =~= t);
    assert(t.push(x).last() == x);
    let pred = |e: FsEntry| e.is_dir && e.depth() == 1;
    let f = |e: FsEntry| e.name();
    if pred(x) {
        assert(t.push(x).filter(pred) == t.filter(pred).push(x));
        assert(t.filter(pred).push(x).map_values(f) =~= t.filter(pred).map_values(f).push(
            x.name(),
        ));
    }
}

proof fn lemma_strays_step(t: Seq<FsEntry>, x: FsEntry, allowed: Seq<Seq<char>>)
    ensures
        spec_strays(t.push(x), allowed) == if is_stray(x, allowed) {
            spec_strays(t, allowed).push(x.pathv())
        } else {
            spec_strays(t, allowed)
        },
{
    reveal_with_fuel(Seq::<FsEntry>::filter, 2);
    assert(t.push(x).drop_last() =~= t);
    assert(t.push(x).last() == x);
    let pred = |e: FsEntry| is_stray(e, allowed);
    let f = |e: FsEntry| e.pathv();
    if pred(x) {
        assert(t.push(x).filter(pred) == t.filter(pred).push(x));
        assert(t.filter(pred).push(x).map_values(f) =~= t.filter(pred).map_values(f).push(
            x.pathv(),
        ));
    }
}

proof fn lemma_untaken_entries_step(t: Seq<FsEntry>, x: FsEntry, moves: Seq<MoveRec>)
    ensures
        untaken_entries(t.push(x), moves) == if x.depth() == 1 && !x.is_dir && !dest_taken(
            moves,
            x.name(),
        ) {
            untaken_entries(t, moves).push(x)
        } else {
            untaken_entries(t, moves)
        },
{
    reveal_with_fuel(Seq::<FsEntry>::filter, 2);
    assert(t.push(x).drop_last() =~= t);
    assert(t.push(x).last() == x);
}

proof fn lemma_untaken_step(t: Seq<FsEntry>, x: FsEntry, moves: Seq<MoveRec>)
    ensures
        untaken_root_files(t.push(x), moves) == if x.depth() == 1 && !x.is_dir && !dest_taken(
            moves,
            x.name(),
        ) {
            untaken_root_files(t, moves).push(x.name())
        } else {
            untaken_root_files(t, moves)
        },
{
    lemma_untaken_entries_step(t, x, moves);
    if x.depth() == 1 && !x.is_dir && !dest_taken(moves, x.name()) {
        assert(untaken_entries(t, moves).push(x).map_values(|e: FsEntry| e.name())
            =~= untaken_entries(t, moves).map_values(|e: FsEntry| e.name()).push(x.name()));
    }
}

proof fn lemma_first_free_from_rec(occ: Seq<Seq<char>>, name: Seq<char>, j: int, k: int)
    requires
        1 <= j <= k <= occ.len() + 1,
        !occ.contains(candidate_name(name, k)),
        forall|kk: int| j <= kk < k ==> occ.contains(candidate_name(name, kk)),
    ensures
        first_free_from(occ, name, j) == k,
    decreases k - j,
{
    if j < k {
        lemma_first_free_from_rec(occ, name, j + 1, k);
    }
}

/// One planned relocation, in executable form.
pub struct MoveStep {
    /// The path of the file to move, relative to the root.
    pub source: Vec<String>,
    /// The file name it lands under, directly in the root.
    pub dest_name: String,
    /// Whether an existing root entry at that name is deleted first.
    pub replaces: bool,
}

impl MoveStep {
    /// The move as the specification sees it.
    pub open spec fn rec(&self) -> MoveRec {
        (self.source.deep_view(), self.dest_name@, self.replaces)
    }
}

/// The moves of a plan as the specification sees them.
pub open spec fn moves_view(ms: Seq<MoveStep>) -> Seq<MoveRec> {
    ms.map_values(|m: MoveStep| m.rec())
}

/// Result of planning a flatten.
pub struct FlattenPlan {
    /// The relocations, in collection order.
    pub moves: Vec<MoveStep>,
    /// Names of the direct subdirectories to delete wholesale, in order.
    pub removed_dirs: Vec<String>,
    /// Paths of deep files the allow-list excludes: subtree removal will
    /// destroy them, so they are surfaced as diagnostics.
    pub strays: Vec<Vec<String>>,
    /// The tree as it stands once every move and removal has succeeded.
    pub result: Snapshot,
}

/// Whether `key` occurs in the occupied-name list.
fn contains_name(occ: &Vec<String>, key: &String) -> (r: bool)
    ensures
        r == occ.deep_view().contains(key@),
{
    let n = occ.len();
    let mut j: usize = 0;
    while j < n
        invariant
            n == occ@.len(),
            0 <= j <= n,
            forall|k: int| 0 <= k < j ==> occ@[k]@ != key@,
        decreases n - j,
    {
        if occ[j] == *key {
            proof {
                assert(occ.deep_view()[j as int] == key@);
            }
            return true;
        }
        j += 1;
    }
    proof {
        assert forall|k: int| 0 <= k < occ.deep_view().len() implies occ.deep_view()[k]
            != key@ by {
            assert(occ.deep_view()[k] == occ@[k]@);
        }
    }
    false
}

/// Build the candidate name `stem_k.ext` (or `stem_k` without an extension).
fn build_candidate(stem: &String, ext: &String, k: u128, Ghost(name): Ghost<Seq<char>>) -> (r:
    String)
    requires
        stem@ == stem_of(name),
        ext@ == ext_or_empty(name),
    ensures
        r@ == candidate_name(name, k as int),
{
    let mut out = stem.clone();
    out.append("_");
    let dec = counter_to_dec(k);
    out.append(dec.as_str());
    proof {
        reveal_strlit("_");
        assert(out@ =~= stem_of(name) + seq!['_'] + dec_digits(k as int));
    }
    if ext.as_str().is_empty() {
        proof {
            assert(ext@.len() == 0);
        }
        out
    } else {
        out.append(".");
        out.append(ext.as_str());
        proof {
            reveal_strlit(".");
            assert(out@ =~= stem_of(name) + seq!['_'] + dec_digits(k as int) + seq!['.']
                + ext_or_empty(name));
        }
        out
    }
}

/// Plan a flatten over a listed tree with a normalized allow-list.
#[verifier::loop_isolation(false)]
#[verifier::rlimit(100)]
pub fn flatten_plan(s: Snapshot, allowed: &Vec<String>, overwrite: bool) -> (r: FlattenPlan)
    requires
        s.wf(),
    ensures
        moves_view(r.moves@) == spec_moves(s.seqv(), allowed.deep_view(), overwrite),
        r.removed_dirs.deep_view() == spec_removed_dirs(s.seqv()),
        r.strays.deep_view() == spec_strays(s.seqv(), allowed.deep_view()),
        forall|i: int|
            0 <= i < r.result.seqv().len() ==> (#[trigger] r.result.seqv()[i]).depth() == 1
                && !r.result.seqv()[i].is_dir,
        names_of(r.result.seqv()) == spec_final_root_files(
            s.seqv(),
            allowed.deep_view(),
            overwrite,
        ),
        r.result.wf(),
{
    let ghost s0 = s.entries@;
    let ghost al = allowed.deep_view();
    let n = s.entries.len();

    // Stage 0: initially occupied names, plus the removal and stray lists.
    let mut occ: Vec<String> = Vec::new();
    let mut removed_dirs: Vec<String> = Vec::new();
    let mut strays: Vec<Vec<String>> = Vec::new();
    let mut i: usize = 0;
    while i < n
        invariant
            0 <= i <= n,
            occ.deep_view() == root_names(s0.take(i as int)),
            removed_dirs.deep_view() == spec_removed_dirs(s0.take(i as int)),
            strays.deep_view() == spec_strays(s0.take(i as int), al),
        decreases n - i,
    {
        proof {
            assert(s0.take(i + 1) =~= s0.take(i as int).push(s0[i as int]));
            lemma_root_names_step(s0.take(i as int), s0[i as int]);
            lemma_removed_dirs_step(s0.take(i as int), s0[i as int]);
            lemma_strays_step(s0.take(i as int), s0[i as int], al);
            assert(s0[i as int].pathv().len() >= 1);
        }
        let depth = s.entries[i].path.len();
        let is_dir = s.entries[i].is_dir;
        if depth == 1 {
            let ghost occ_before = occ.deep_view();
            let nm = s.entries[i].path[0].clone();
            proof {
                assert(nm@ == s0[i as int].name());
            }
            occ.push(nm);
            proof {
                assert(occ.deep_view() =~= occ_before.push(s0[i as int].name()));
            }
            if is_dir {
                let ghost rd_before = removed_dirs.deep_view();
                let nm2 = s.entries[i].path[0].clone();
                removed_dirs.push(nm2);
                proof {
                    assert(removed_dirs.deep_view() =~= rd_before.push(s0[i as int].name()));
                }
            }
        } else if !is_dir {
            proof {
                assert(s0[i as int].name() == s0[i as int].path@[s0[i as int].path@.len() - 1]@);
            }
            let nm_ok = is_allowed_name(
                s.entries[i].path[s.entries[i].path.len() - 1].as_str(),
                allowed,
            );
            if !nm_ok {
                let ghost st_before = strays.deep_view();
                let sp = dup_path(&s.entries[i].path);
                proof {
                    assert(sp.deep_view() =~= s0[i as int].pathv());
                }
                strays.push(sp);
                proof {
                    assert(strays.deep_view() =~= st_before.push(s0[i as int].pathv()));
                }
            }
        }
        i += 1;
    }
    proof {
        assert(s0.take(n as int) =~= s0);
    }

    // Stage 1 and 2: collect, and resolve each move against the occupied
    // names as they stand when its turn comes.
    let ghost occ0 = occ.deep_view();
    let mut moves: Vec<MoveStep> = Vec::new();
    let mut i: usize = 0;
    while i < n
        invariant
            0 <= i <= n,
            moves_view(moves@) == sim_moves(spec_collected(s0.take(i as int), al), occ0, overwrite),
            occ.deep_view() == occ_after(spec_collected(s0.take(i as int), al), occ0, overwrite),
        decreases n - i,
    {
        proof {
            assert(s0.take(i + 1) =~= s0.take(i as int).push(s0[i as int]));
            lemma_collected_step(s0.take(i as int), s0[i as int], al);
            assert(s0[i as int].pathv().len() >= 1);
            assert(s0[i as int].name() == s0[i as int].path@[s0[i as int].path@.len() - 1]@);
        }
        let depth = s.entries[i].path.len();
        if depth >= 2 && !s.entries[i].is_dir && is_allowed_name(
            s.entries[i].path[s.entries[i].path.len() - 1].as_str(),
            allowed,
        ) {
            let ghost col = spec_collected(s0.take(i as int), al);
            let ghost occ_a = occ.deep_view();
            let ghost nmv = s0[i as int].name();
            proof {
                assert(collects(s0[i as int], al));
                assert(col.push(s0[i as int]) =~= col + seq![s0[i as int]]);
                lemma_sim_append(col, seq![s0[i as int]], occ0, overwrite);
                assert(seq![s0[i as int]].drop_first() =~= Seq::<FsEntry>::empty());
                assert(seq![s0[i as int]][0] == s0[i as int]);
            }
            let nm = &s.entries[i].path[s.entries[i].path.len() - 1];
            let dest: String;
            let repl: bool;
            if !contains_name(&occ, nm) {
                dest = nm.clone();
                repl = false;
                occ.push(nm.clone());
                proof {
                    assert(resolve_dest(occ_a, nmv, overwrite) == (nmv, false));
                    assert(occ.deep_view() =~= occ_a.push(nmv));
                }
            } else if overwrite {
                dest = nm.clone();
                repl = true;
                proof {
                    assert(resolve_dest(occ_a, nmv, overwrite) == (nmv, true));
                }
            } else {
                let se = stem_and_ext(nm.as_str());
                let stem = se.0;
                let ext = se.1;
                let bound = occ.len();
                let mut k: u128 = 1;
                let mut cand = build_candidate(&stem, &ext, k, Ghost(nmv));
                while contains_name(&occ, &cand)
                    invariant
                        1 <= k <= bound + 1,
                        bound == occ_a.len(),
                        occ.deep_view() == occ_a,
                        cand@ == candidate_name(nmv, k as int),
                        forall|kk: int| 1 <= kk < k ==> occ_a.contains(candidate_name(nmv, kk)),
                    decreases bound + 1 - k,
                {
                    proof {
                        if k == bound + 1 {
                            lemma_candidate_free_exists(occ_a, nmv);
                            let kf = choose|kf: int|
                                1 <= kf <= occ_a.len() + 1 && !occ_a.contains(
                                    candidate_name(nmv, kf),
                                );
                            assert(occ_a.contains(candidate_name(nmv, kf)));
                        }
                    }
                    k += 1;
                    cand = build_candidate(&stem, &ext, k, Ghost(nmv));
                }
                proof {
                    lemma_first_free_from_rec(occ_a, nmv, 1, k as int);
                    assert(resolve_dest(occ_a, nmv, overwrite) == (
                        candidate_name(nmv, k as int),
                        false,
                    ));
                }
                repl = false;
                occ.push(cand.clone());
                dest = cand;
                proof {
                    assert(occ.deep_view() =~= occ_a.push(candidate_name(nmv, k as int)));
                }
            }
            let ghost mv_before = moves_view(moves@);
            let src = dup_path(&s.entries[i].path);
            proof {
                assert(src.deep_view() =~= s0[i as int].pathv());
            }
            let step = MoveStep { source: src, dest_name: dest, replaces: repl };
            proof {
                assert(step.rec() == (
                    s0[i as int].pathv(),
                    resolve_dest(occ_a, nmv, overwrite).0,
                    resolve_dest(occ_a, nmv, overwrite).1,
                ));
            }
            moves.push(step);
            proof {
                reveal_with_fuel(sim_moves, 2);
                reveal_with_fuel(occ_after, 2);
                assert(moves_view(moves@) =~= mv_before.push((
                    s0[i as int].pathv(),
                    resolve_dest(occ_a, nmv, overwrite).0,
                    resolve_dest(occ_a, nmv, overwrite).1,
                )));
                assert(sim_moves(seq![s0[i as int]], occ_a, overwrite) =~= seq![(
                    s0[i as int].pathv(),
                    resolve_dest(occ_a, nmv, overwrite).0,
                    resolve_dest(occ_a, nmv, overwrite).1,
                )]);
                assert(moves_view(moves@) =~= sim_moves(
                    spec_collected(s0.take(i + 1), al),
                    occ0,
                    overwrite,
                ));
                assert(occ.deep_view() =~= occ_after(
                    spec_collected(s0.take(i + 1), al),
                    occ0,
                    overwrite,
                ));
            }
        }
        i += 1;
    }
    proof {
        assert(s0.take(n as int) =~= s0);
        assert(moves_view(moves@) == spec_moves(s0, al, overwrite));
    }

    // Stage 3 result: what the root holds after the moves and removals.
    let ghost movesv = moves_view(moves@);
    let mut result: Vec<FsEntry> = Vec::new();
    let mut i: usize = 0;
    while i < n
        invariant
            0 <= i <= n,
            names_of(result@) == untaken_root_files(s0.take(i as int), movesv),
            forall|j: int|
                0 <= j < result@.len() ==> (#[trigger] result@[j]).depth() == 1
                    && !result@[j].is_dir,
        decreases n - i,
    {
        proof {
            assert(s0.take(i + 1) =~= s0.take(i as int).push(s0[i as int]));
            lemma_untaken_step(s0.take(i as int), s0[i as int], movesv);
            assert(s0[i as int].pathv().len() >= 1);
            assert(s0[i as int].name() == s0[i as int].path@[s0[i as int].path@.len() - 1]@);
        }
        if s.entries[i].path.len() == 1 && !s.entries[i].is_dir {
            let nm = &s.entries[i].path[0];
            let mut taken = false;
            let m = moves.len();
            let mut j: usize = 0;
            while j < m
                invariant
                    m == moves@.len(),
                    0 <= j <= m,
                    movesv == moves_view(moves@),
                    taken ==> dest_taken(movesv, nm@),
                    !taken ==> forall|k: int| 0 <= k < j ==> movesv[k].1 != nm@,
                decreases m - j,
            {
                if moves[j].dest_name == *nm {
                    taken = true;
                    proof {
                        assert(movesv[j as int].1 == nm@);
                    }
                }
                j += 1;
            }
            if !taken {
                let ghost names_before = names_of(result@);
                let fe = FsEntry { path: dup_path(&s.entries[i].path), is_dir: false };
                proof {
                    assert(fe.pathv() =~= s0[i as int].pathv());
                    assert(!dest_taken(movesv, s0[i as int].name()));
                }
                result.push(fe);
                proof {
                    lemma_names_step(result@.drop_last(), result@.last());
                    assert(result@.drop_last() =~= result@.subrange(0, result@.len() - 1));
                    assert(names_of(result@) =~= names_before.push(s0[i as int].name()));
                }
            } else {
                proof {
                    assert(dest_taken(movesv, s0[i as int].name()));
                }
            }
        }
        i += 1;
    }
    proof {
        assert(s0.take(n as int) =~= s0);
    }
    let ghost base = names_of(result@);
    proof {
        assert(movesv.skip(0) =~= movesv);
    }

    let m = moves.len();
    let mut i: usize = 0;
    while i < m
        invariant
            0 <= i <= m,
            m == moves@.len(),
            movesv == moves_view(moves@),
            base + surviving_dests(movesv) == names_of(result@) + surviving_dests(
                movesv.skip(i as int),
            ),
            forall|j: int|
                0 <= j < result@.len() ==> (#[trigger] result@[j]).depth() == 1
                    && !result@[j].is_dir,
        decreases m - i,
    {
        proof {
            assert(movesv.skip(i as int).drop_first() =~= movesv.skip(i + 1));
            assert(movesv.skip(i as int)[0] == movesv[i as int]);
        }
        let dnm = &moves[i].dest_name;
        let mut taken_later = false;
        let mut j: usize = i + 1;
        while j < m
            invariant
                i < j <= m,
                m == moves@.len(),
                movesv == moves_view(moves@),
                dnm@ == movesv[i as int].1,
                taken_later ==> dest_taken(movesv.skip(i + 1), movesv[i as int].1),
                !taken_later ==> forall|k: int| i + 1 <= k < j ==> movesv[k].1 != movesv[i as int].1,
            decreases m - j,
        {
            if moves[j].dest_name == *dnm {
                taken_later = true;
                proof {
                    assert(movesv.skip(i + 1)[j - i - 1].1 == movesv[i as int].1);
                }
            }
            j += 1;
        }
        proof {
            if !taken_later {
                assert forall|k: int| 0 <= k < movesv.skip(i + 1).len() implies (
                #[trigger] movesv.skip(i + 1)[k]).1 != movesv[i as int].1 by {
                    assert(movesv.skip(i + 1)[k] == movesv[k + i + 1]);
                }
                assert(!dest_taken(movesv.skip(i + 1), movesv[i as int].1));
            }
        }
        if !taken_later {
            let ghost names_before = names_of(result@);
            let mut pv: Vec<String> = Vec::new();
            pv.push(moves[i].dest_name.clone());
            let fe = FsEntry { path: pv, is_dir: false };
            proof {
                assert(fe.pathv() =~= seq![movesv[i as int].1]);
                assert(fe.name() == movesv[i as int].1);
                assert(fe.depth() == 1);
            }
            result.push(fe);
            proof {
                assert(names_of(result@) =~= names_before.push(movesv[i as int].1));
                assert(surviving_dests(movesv.skip(i as int)) == seq![movesv[i as int].1]
                    + surviving_dests(movesv.skip(i + 1)));
                assert(names_before.push(movesv[i as int].1) + surviving_dests(movesv.skip(i + 1))
                    =~= names_before + surviving_dests(movesv.skip(i as int)));
            }
        } else {
            proof {
                assert(surviving_dests(movesv.skip(i as int)) == surviving_dests(
                    movesv.skip(i + 1),
                ));
            }
        }
        i += 1;
    }
    proof {
        assert(movesv.skip(m as int) =~= Seq::<MoveRec>::empty());
        assert(surviving_dests(movesv.skip(m as int)) =~= Seq::<Seq<char>>::empty());
        assert(names_of(result@) =~= base + surviving_dests(movesv));
    }
    let result_snapshot = Snapshot { entries: result };
    proof {
        let res = result_snapshot.entries@;
        let fin = names_of(res);
        let un = untaken_root_files(s0, movesv);
        let sv = surviving_dests(movesv);
        let ue = untaken_entries(s0, movesv);
        let col = spec_collected(s0, al);
        lemma_untaken_entries_members(s0, movesv);
        lemma_untaken_entries_pairs(s0, movesv);
        lemma_surviving_sub(movesv);
        lemma_surviving_nodup(movesv);
        lemma_collected_sub(s0, al);
        assert forall|i: int| 0 <= i < col.len() implies (#[trigger] col[i]).name().len()
            >= 1 by {
            let w = choose|w: int| 0 <= w < s0.len() && col[i] == s0[w];
            assert(s0[w].pathv().len() >= 1);
            assert(s0[w].pathv()[s0[w].pathv().len() - 1].len() >= 1);
        }
        lemma_sim_dests_nonempty(col, occ0, overwrite);
        // Each final name: where it comes from, that it is non-empty, and
        // whether some move lands on it.
        assert forall|i: int| 0 <= i < res.len() implies (#[trigger] res[i]).name().len()
            >= 1 by {
            assert(fin[i] == res[i].name());
            if i < un.len() {
                assert(fin[i] == un[i]);
                assert(un[i] == ue[i].name());
                let w = choose|w: int| 0 <= w < s0.len() && ue[i] == s0[w];
                assert(s0[w].pathv().len() >= 1);
                assert(s0[w].pathv()[s0[w].pathv().len() - 1].len() >= 1);
            } else {
                assert(fin[i] == sv[i - un.len()]);
                assert(sv.contains(sv[i - un.len()]));
                assert(dest_taken(movesv, sv[i - un.len()]));
                let w = choose|w: int| 0 <= w < movesv.len() && movesv[w].1 == sv[i - un.len()];
                assert(movesv[w].1.len() >= 1);
            }
        }
        // Final names are pairwise distinct.
        assert forall|i: int, j: int|
            0 <= i < res.len() && 0 <= j < res.len() && i != j implies (#[trigger] res[i].pathv())
            != (#[trigger] res[j].pathv()) by {
            let lo: int = if i < j {
                i
            } else {
                j
            };
            let hi: int = if i < j {
                j
            } else {
                i
            };
            assert(fin[lo] == res[lo].name() && fin[hi] == res[hi].name());
            if hi < un.len() {
                assert(fin[lo] == un[lo] && fin[hi] == un[hi]);
                assert(un[lo] == ue[lo].name() && un[hi] == ue[hi].name());
                let (ia, ib) = choose|ia: int, ib: int|
                    0 <= ia < ib < s0.len() && ue[lo] == s0[ia] && ue[hi] == s0[ib];
                assert(s0[ia].pathv() != s0[ib].pathv());
                assert(s0[ia].depth() == 1 && s0[ib].depth() == 1);
                assert(s0[ia].pathv() =~= seq![s0[ia].name()]);
                assert(s0[ib].pathv() =~= seq![s0[ib].name()]);
                assert(res[lo].name() != res[hi].name());
            } else if lo >= un.len() {
                assert(fin[lo] == sv[lo - un.len()] && fin[hi] == sv[hi - un.len()]);
                assert(res[lo].name() != res[hi].name());
            } else {
                assert(fin[lo] == un[lo] && fin[hi] == sv[hi - un.len()]);
                assert(un[lo] == ue[lo].name());
                assert(!dest_taken(movesv, ue[lo].name()));
                assert(sv.contains(sv[hi - un.len()]));
                assert(dest_taken(movesv, sv[hi - un.len()]));
                assert(res[lo].name() != res[hi].name());
            }
            assert(res[lo].pathv() =~= seq![res[lo].name()]);
            assert(res[hi].pathv() =~= seq![res[hi].name()]);
        }
        assert forall|i: int, c: int|
            0 <= i < res.len() && 0 <= c < res[i].pathv().len() implies (
            #[trigger] res[i].pathv()[c]).len() >= 1 by {
            assert(c == 0);
            assert(res[i].pathv()[0] == res[i].name());
        }
        assert(result_snapshot.wf());
    }
    FlattenPlan { moves, removed_dirs, strays, result: result_snapshot }
}

proof fn lemma_flat_parts(s: Seq<FsEntry>, allowed: Seq<Seq<char>>, moves: Seq<MoveRec>)
    requires
        forall|i: int| 0 <= i < s.len() ==> (#[trigger] s[i]).depth() == 1 && !s[i].is_dir,
        moves == Seq::<MoveRec>::empty(),
    ensures
        spec_collected(s, allowed) == Seq::<FsEntry>::empty(),
        spec_removed_dirs(s) == Seq::<Seq<char>>::empty(),
        spec_strays(s, allowed) == Seq::<Seq<Seq<char>>>::empty(),
        untaken_root_files(s, moves) == names_of(s),
    decreases s.len(),
{
    reveal_with_fuel(Seq::<FsEntry>::filter, 1);
    if s.len() == 0 {
        assert(spec_collected(s, allowed) =~= Seq::<FsEntry>::empty());
        assert(spec_removed_dirs(s) =~= Seq::<Seq<char>>::empty());
        assert(spec_strays(s, allowed) =~= Seq::<Seq<Seq<char>>>::empty());
        assert(untaken_root_files(s, moves) =~= Seq::<Seq<char>>::empty());
        assert(names_of(s) =~= Seq::<Seq<char>>::empty());
    } else {
        let t = s.drop_last();
        let x = s.last();
        assert forall|i: int| 0 <= i < t.len() implies (#[trigger] t[i]).depth() == 1
            && !t[i].is_dir by {
            assert(t[i] == s[i]);
        }
        lemma_flat_parts(t, allowed, moves);
        assert(s =~= t.push(x));
        lemma_collected_step(t, x, allowed);
        lemma_removed_dirs_step(t, x);
        lemma_strays_step(t, x, allowed);
        lemma_untaken_step(t, x, moves);
        lemma_names_step(t, x);
    }
}

/// Idempotence of Flatten. A flatten of an already-flat tree (files directly
/// at the root and nothing else) collects nothing, plans no move, removes no
/// directory, reports no stray, and leaves the file set exactly as it was.
/// Since the planner guarantees that every flatten leaves the root in that
/// flat shape, running Flatten twice yields the same final file set as
/// running it once.
pub proof fn lemma_flatten_idempotent(s: Seq<FsEntry>, allowed: Seq<Seq<char>>, ow: bool)
    requires
        forall|i: int| 0 <= i < s.len() ==> (#[trigger] s[i]).depth() == 1 && !s[i].is_dir,
    ensures
        spec_moves(s, allowed, ow) == Seq::<MoveRec>::empty(),
        spec_removed_dirs(s) == Seq::<Seq<char>>::empty(),
        spec_strays(s, allowed) == Seq::<Seq<Seq<char>>>::empty(),
        spec_final_root_files(s, allowed, ow) == names_of(s),
{
    lemma_flat_parts(s, allowed, Seq::<MoveRec>::empty());
    assert(spec_moves(s, allowed, ow) =~= Seq::<MoveRec>::empty());
    assert(surviving_dests(Seq::<MoveRec>::empty()) =~= Seq::<Seq<char>>::empty());
    assert(spec_final_root_files(s, allowed, ow) =~= names_of(s));
}

proof fn lemma_untaken_allowed(s: Seq<FsEntry>, moves: Seq<MoveRec>, allowed: Seq<Seq<char>>)
    requires
        forall|i: int|
            0 <= i < s.len() && (#[trigger] s[i]).depth() == 1 && !s[i].is_dir ==> allowed_name(
                s[i].name(),
                allowed,
            ),
    ensures
        forall|j: int|
            0 <= j < untaken_root_files(s, moves).len() ==> allowed_name(
                #[trigger] untaken_root_files(s, moves)[j],
                allowed,
            ),
    decreases s.len(),
{
    reveal_with_fuel(Seq::<FsEntry>::filter, 1);
    if s.len() == 0 {
        assert(untaken_root_files(s, moves) =~= Seq::<Seq<char>>::empty());
    } else {
        let t = s.drop_last();
        let x = s.last();
        assert forall|i: int|
            0 <= i < t.len() && (#[trigger] t[i]).depth() == 1 && !t[i].is_dir
                implies allowed_name(t[i].name(), allowed) by {
            assert(t[i] == s[i]);
        }
        lemma_untaken_allowed(t, moves, allowed);
        assert(s =~= t.push(x));
        lemma_untaken_step(t, x, moves);
    }
}

proof fn lemma_ext_nonempty(name: Seq<char>, allowed: Seq<Seq<char>>)
    requires
        allowed_name(name, allowed),
        name.len() >= 1,
        name.last() != '.',
    ensures
        ext_or_empty(name).len() > 0,
{
    lemma_last_dot_bounds(name);
    assert(last_dot(name) >= 1);
    if last_dot(name) == name.len() - 1 {
        assert(name[last_dot(name)] == '.');
    }
}

proof fn lemma_first_free_lb(occ: Seq<Seq<char>>, name: Seq<char>, j: int)
    requires
        1 <= j <= occ.len() + 1,
    ensures
        first_free_from(occ, name, j) >= j,
    decreases occ.len() + 2 - j,
{
    if occ.contains(candidate_name(name, j)) && j <= occ.len() {
        lemma_first_free_lb(occ, name, j + 1);
    }
}

proof fn lemma_collected_sub(s: Seq<FsEntry>, allowed: Seq<Seq<char>>)
    ensures
        forall|j: int|
            0 <= j < spec_collected(s, allowed).len() ==> collects(
                #[trigger] spec_collected(s, allowed)[j],
                allowed,
            ) && exists|i: int| 0 <= i < s.len() && spec_collected(s, allowed)[j] == s[i],
    decreases s.len(),
{
    reveal_with_fuel(Seq::<FsEntry>::filter, 1);
    if s.len() == 0 {
        assert(spec_collected(s, allowed) =~= Seq::<FsEntry>::empty());
    } else {
        let t = s.drop_last();
        let x = s.last();
        lemma_collected_sub(t, allowed);
        assert(s =~= t.push(x));
        lemma_collected_step(t, x, allowed);
        let col = spec_collected(s, allowed);
        let colt = spec_collected(t, allowed);
        assert forall|j: int| 0 <= j < col.len() implies collects(#[trigger] col[j], allowed)
            && exists|i: int| 0 <= i < s.len() && col[j] == s[i] by {
            if j < colt.len() {
                assert(col[j] == colt[j]);
                let i = choose|i: int| 0 <= i < t.len() && colt[j] == t[i];
                assert(col[j] == s[i]);
            } else {
                assert(col[j] == x);
                assert(col[j] == s[s.len() - 1]);
            }
        }
    }
}

proof fn lemma_sim_dests_allowed(
    files: Seq<FsEntry>,
    occ: Seq<Seq<char>>,
    ow: bool,
    allowed: Seq<Seq<char>>,
)
    requires
        forall|i: int|
            0 <= i < files.len() ==> allowed_name((#[trigger] files[i]).name(), allowed)
                && files[i].name().len() >= 1 && files[i].name().last() != '.',
    ensures
        forall|j: int|
            0 <= j < sim_moves(files, occ, ow).len() ==> allowed_name(
                (#[trigger] sim_moves(files, occ, ow)[j]).1,
                allowed,
            ),
    decreases files.len(),
{
    if files.len() > 0 {
        let name = files[0].name();
        let m = resolve_dest(occ, name, ow);
        if occ.contains(name) && !ow {
            let k = first_free_from(occ, name, 1);
            lemma_first_free_lb(occ, name, 1);
            lemma_ext_nonempty(name, allowed);
            lemma_candidate_ext(name, k);
            assert(allowed_name(m.0, allowed));
        } else {
            assert(m.0 == name);
        }
        assert forall|i: int|
            0 <= i < files.drop_first().len() implies allowed_name(
            (#[trigger] files.drop_first()[i]).name(),
            allowed,
        ) && files.drop_first()[i].name().len() >= 1 && files.drop_first()[i].name().last()
            != '.' by {
            assert(files.drop_first()[i] == files[i + 1]);
        }
        lemma_sim_dests_allowed(files.drop_first(), occ_step(occ, m), ow, allowed);
        let sim = sim_moves(files, occ, ow);
        let rest = sim_moves(files.drop_first(), occ_step(occ, m), ow);
        assert forall|j: int| 0 <= j < sim.len() implies allowed_name(
            (#[trigger] sim[j]).1,
            allowed,
        ) by {
            if j == 0 {
                assert(sim[0].1 == m.0);
            } else {
                assert(sim[j] == rest[j - 1]);
            }
        }
    }
}

proof fn lemma_surviving_allowed(moves: Seq<MoveRec>, allowed: Seq<Seq<char>>)
    requires
        forall|j: int| 0 <= j < moves.len() ==> allowed_name((#[trigger] moves[j]).1, allowed),
    ensures
        forall|x: Seq<char>|
            surviving_dests(moves).contains(x) ==> allowed_name(x, allowed),
    decreases moves.len(),
{
    if moves.len() > 0 {
        assert forall|j: int|
            0 <= j < moves.drop_first().len() implies allowed_name(
            (#[trigger] moves.drop_first()[j]).1,
            allowed,
        ) by {
            assert(moves.drop_first()[j] == moves[j + 1]);
        }
        lemma_surviving_allowed(moves.drop_first(), allowed);
        assert forall|x: Seq<char>| surviving_dests(moves).contains(x) implies allowed_name(
            x,
            allowed,
        ) by {
            if !dest_taken(moves.drop_first(), moves[0].1) {
                let sv = surviving_dests(moves);
                let i = choose|i: int| 0 <= i < sv.len() && sv[i] == x;
                if i == 0 {
                    assert(x == moves[0].1);
                } else {
                    assert(surviving_dests(moves.drop_first())[i - 1] == x);
                    assert(surviving_dests(moves.drop_first()).contains(x));
                }
            }
        }
    }
}

/// The Flatten invariant. After a successful flatten every file name at the
/// root carries an allow-listed extension, provided every file already at
/// the root was allow-listed and no file name ends in a dot; together with
/// the planner's guarantee that the resulting tree holds no subdirectories,
/// the root then contains nothing but allow-listed files. A root file
/// outside the allow-list would survive a flatten untouched, which is why
/// the first condition is needed; a cleanup pass is what removes such files.
pub proof fn lemma_flatten_root_allowed(s: Seq<FsEntry>, allowed: Seq<Seq<char>>, ow: bool)
    requires
        forall|i: int|
            0 <= i < s.len() && (#[trigger] s[i]).depth() == 1 && !s[i].is_dir ==> allowed_name(
                s[i].name(),
                allowed,
            ),
        forall|i: int|
            0 <= i < s.len() && !(#[trigger] s[i]).is_dir ==> s[i].name().len() >= 1
                && s[i].name().last() != '.',
    ensures
        forall|x: Seq<char>|
            spec_final_root_files(s, allowed, ow).contains(x) ==> allowed_name(x, allowed),
{
    let moves = spec_moves(s, allowed, ow);
    let col = spec_collected(s, allowed);
    lemma_untaken_allowed(s, moves, allowed);
    lemma_collected_sub(s, allowed);
    assert forall|i: int|
        0 <= i < col.len() implies allowed_name((#[trigger] col[i]).name(), allowed)
        && col[i].name().len() >= 1 && col[i].name().last() != '.' by {
        let w = choose|w: int| 0 <= w < s.len() && col[i] == s[w];
        assert(collects(col[i], allowed));
        assert(!s[w].is_dir);
    }
    lemma_sim_dests_allowed(col, root_names(s), ow, allowed);
    lemma_surviving_allowed(moves, allowed);
    let un = untaken_root_files(s, moves);
    let sv = surviving_dests(moves);
    assert forall|x: Seq<char>|
        spec_final_root_files(s, allowed, ow).contains(x) implies allowed_name(x, allowed) by {
        let fin = spec_final_root_files(s, allowed, ow);
        let i = choose|i: int| 0 <= i < fin.len() && fin[i] == x;
        if i < un.len() {
            assert(un[i] == x);
        } else {
            assert(sv[i - un.len()] == x);
            assert(sv.contains(x));
        }
    }
}

proof fn lemma_untaken_entries_members(s: Seq<FsEntry>, moves: Seq<MoveRec>)
    ensures
        forall|j: int|
            0 <= j < untaken_entries(s, moves).len() ==> (#[trigger] untaken_entries(
                s,
                moves,
            )[j]).depth() == 1 && !untaken_entries(s, moves)[j].is_dir && !dest_taken(
                moves,
                untaken_entries(s, moves)[j].name(),
            ) && exists|i: int| 0 <= i < s.len() && untaken_entries(s, moves)[j] == s[i],
    decreases s.len(),
{
    reveal_with_fuel(Seq::<FsEntry>::filter, 1);
    if s.len() == 0 {
        assert(untaken_entries(s, moves) =~= Seq::<FsEntry>::empty());
    } else {
        let t = s.drop_last();
        let x = s.last();
        lemma_untaken_entries_members(t, moves);
        assert(s =~= t.push(x));
        lemma_untaken_entries_step(t, x, moves);
        let u = untaken_entries(s, moves);
        let ut = untaken_entries(t, moves);
        let grew = x.depth() == 1 && !x.is_dir && !dest_taken(moves, x.name());
        assert forall|j: int| 0 <= j < u.len() implies (#[trigger] u[j]).depth() == 1
            && !u[j].is_dir && !dest_taken(moves, u[j].name()) && exists|i: int|
            0 <= i < s.len() && u[j] == s[i] by {
            if grew && j == u.len() - 1 {
                assert(u[j] == x);
                assert(u[j] == s[s.len() - 1]);
            } else {
                assert(u[j] == ut[j]);
                let i = choose|i: int| 0 <= i < t.len() && ut[j] == t[i];
                assert(u[j] == s[i]);
            }
        }
    }
}

proof fn lemma_untaken_entries_pairs(s: Seq<FsEntry>, moves: Seq<MoveRec>)
    ensures
        forall|a: int, b: int|
            0 <= a < b < untaken_entries(s, moves).len() ==> exists|ia: int, ib: int|
                0 <= ia < ib < s.len() && (#[trigger] untaken_entries(s, moves)[a]) == s[ia] && (
                #[trigger] untaken_entries(s, moves)[b]) == s[ib],
    decreases s.len(),
{
    reveal_with_fuel(Seq::<FsEntry>::filter, 1);
    if s.len() == 0 {
        assert(untaken_entries(s, moves) =~= Seq::<FsEntry>::empty());
    } else {
        let t = s.drop_last();
        let x = s.last();
        lemma_untaken_entries_pairs(t, moves);
        lemma_untaken_entries_members(t, moves);
        assert(s =~= t.push(x));
        lemma_untaken_entries_step(t, x, moves);
        let u = untaken_entries(s, moves);
        let ut = untaken_entries(t, moves);
        let grew = x.depth() == 1 && !x.is_dir && !dest_taken(moves, x.name());
        assert forall|a: int, b: int| 0 <= a < b < u.len() implies exists|ia: int, ib: int|
            0 <= ia < ib < s.len() && (#[trigger] u[a]) == s[ia] && (#[trigger] u[b])
                == s[ib] by {
            if grew && b == u.len() - 1 {
                assert(u[a] == ut[a]);
                let ia = choose|i: int| 0 <= i < t.len() && ut[a] == t[i];
                assert(u[a] == s[ia]);
                assert(u[b] == x);
                assert(u[b] == s[s.len() - 1]);
                assert(0 <= ia < s.len() - 1 < s.len() && u[a] == s[ia] && u[b] == s[s.len() - 1]);
            } else {
                assert(u[a] == ut[a] && u[b] == ut[b]);
                let (ia, ib) = choose|ia: int, ib: int|
                    0 <= ia < ib < t.len() && ut[a] == t[ia] && ut[b] == t[ib];
                assert(u[a] == s[ia] && u[b] == s[ib]);
            }
        }
    }
}

proof fn lemma_surviving_sub(moves: Seq<MoveRec>)
    ensures
        forall|x: Seq<char>| surviving_dests(moves).contains(x) ==> dest_taken(moves, x),
    decreases moves.len(),
{
    if moves.len() > 0 {
        lemma_surviving_sub(moves.drop_first());
        assert forall|x: Seq<char>| surviving_dests(moves).contains(x) implies dest_taken(
            moves,
            x,
        ) by {
            let sv = surviving_dests(moves);
            let i = choose|i: int| 0 <= i < sv.len() && sv[i] == x;
            if !dest_taken(moves.drop_first(), moves[0].1) && i == 0 {
                assert(moves[0].1 == x);
            } else {
                let rest = surviving_dests(moves.drop_first());
                if dest_taken(moves.drop_first(), moves[0].1) {
                    assert(rest[i] == x);
                } else {
                    assert(rest[i - 1] == x);
                }
                assert(rest.contains(x));
                assert(dest_taken(moves.drop_first(), x));
                let w = choose|w: int|
                    0 <= w < moves.drop_first().len() && moves.drop_first()[w].1 == x;
                assert(moves[w + 1].1 == x);
            }
        }
    }
}

proof fn lemma_surviving_nodup(moves: Seq<MoveRec>)
    ensures
        forall|a: int, b: int|
            0 <= a < b < surviving_dests(moves).len() ==> (#[trigger] surviving_dests(
                moves,
            )[a]) != (#[trigger] surviving_dests(moves)[b]),
    decreases moves.len(),
{
    if moves.len() > 0 {
        lemma_surviving_nodup(moves.drop_first());
        lemma_surviving_sub(moves.drop_first());
        let sv = surviving_dests(moves);
        let rest = surviving_dests(moves.drop_first());
        assert forall|a: int, b: int|
            0 <= a < b < surviving_dests(moves).len() implies (#[trigger] surviving_dests(
            moves,
        )[a]) != (#[trigger] surviving_dests(moves)[b]) by {
            if !dest_taken(moves.drop_first(), moves[0].1) {
                if a == 0 {
                    assert(sv[b] == rest[b - 1]);
                    assert(rest.contains(sv[b]));
                    assert(dest_taken(moves.drop_first(), sv[b]));
                } else {
                    assert(sv[a] == rest[a - 1] && sv[b] == rest[b - 1]);
                }
            } else {
                assert(sv[a] == rest[a] && sv[b] == rest[b]);
            }
        }
    }
}

proof fn lemma_sim_dests_nonempty(files: Seq<FsEntry>, occ: Seq<Seq<char>>, ow: bool)
    requires
        forall|i: int| 0 <= i < files.len() ==> (#[trigger] files[i]).name().len() >= 1,
    ensures
        forall|j: int|
            0 <= j < sim_moves(files, occ, ow).len() ==> (#[trigger] sim_moves(
                files,
                occ,
                ow,
            )[j]).1.len() >= 1,
    decreases files.len(),
{
    if files.len() > 0 {
        let name = files[0].name();
        let m = resolve_dest(occ, name, ow);
        if occ.contains(name) && !ow {
            let k = first_free_from(occ, name, 1);
            crate::decimal::lemma_dec_digits_len(k);
        }
        assert(m.0.len() >= 1);
        assert forall|i: int|
            0 <= i < files.drop_first().len() implies (#[trigger] files.drop_first()[
            i]).name().len() >= 1 by {
            assert(files.drop_first()[i] == files[i + 1]);
        }
        lemma_sim_dests_nonempty(files.drop_first(), occ_step(occ, m), ow);
        let sim = sim_moves(files, occ, ow);
        let rest = sim_moves(files.drop_first(), occ_step(occ, m), ow);
        assert forall|j: int|
            0 <= j < sim_moves(files, occ, ow).len() implies (#[trigger] sim_moves(
            files,
            occ,
            ow,
        )[j]).1.len() >= 1 by {
            if j == 0 {
                assert(sim[0].1 == m.0);
            } else {
                assert(sim[j] == rest[j - 1]);
            }
        }
    }
}

} // verus!
