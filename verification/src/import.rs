//! The import pipeline's decisions: destination resolution, the admission
//! rule for overwrites, preview-asset selection, and a value model of the
//! editor's project store against which the existence-check round trip is
//! proved. The unverified shell copies files, runs the extractor and probes
//! directories; everything it decides, it asks this module.

use vstd::prelude::*;

use crate::errors::PipelineError;
use crate::fsmodel::contains_string;
use crate::sanitize::{sanitize_title, spec_sanitize};

verus! {

/// Parameters of one editor-import operation.
#[derive(Debug)]
pub struct ImportToEditorOptions {
    pub workshop_id: String,
    pub steamapps_path: String,
    pub scene_pkg_path: String,
    pub overwrite: bool,
}

/// The destination folder name: the sanitized title when that is non-empty,
/// else the workshop id.
pub open spec fn spec_resolve_folder(title: Option<Seq<char>>, workshop_id: Seq<char>) -> Seq<
    char,
> {
    match title {
        Some(t) => if spec_sanitize(t).len() > 0 {
            spec_sanitize(t)
        } else {
            workshop_id
        },
        None => workshop_id,
    }
}

/// Resolve the destination folder name from an already-extracted title.
pub fn resolve_folder_name(title: Option<&str>, workshop_id: &str) -> (r: String)
    ensures
        r@ == spec_resolve_folder(title.deep_view(), workshop_id@),
{
    match title {
        Some(t) => {
            let s = sanitize_title(t);
            if s.as_str().unicode_len() > 0 {
                s
            } else {
                workshop_id.to_owned()
            }
        },
        None => workshop_id.to_owned(),
    }
}

/// The destination of an import below the steamapps root, as components.
pub open spec fn spec_editor_destination(folder: Seq<char>) -> Seq<Seq<char>> {
    seq!["common"@, "wallpaper_engine"@, "projects"@, "myprojects"@, folder]
}

/// Build the destination of an import below the steamapps root.
pub fn editor_destination(folder_name: String) -> (r: Vec<String>)
    ensures
        r.deep_view() == spec_editor_destination(folder_name@),
{
    let ghost f = folder_name@;
    let mut v: Vec<String> = Vec::new();
    v.push("common".to_owned());
    v.push("wallpaper_engine".to_owned());
    v.push("projects".to_owned());
    v.push("myprojects".to_owned());
    v.push(folder_name);
    proof {
        assert(v.deep_view() =~= spec_editor_destination(f));
    }
    v
}

/// Whether an import may proceed: a destination package that already exists
/// is only replaced when overwriting was allowed.
pub fn import_admission(package_exists: bool, overwrite: bool) -> (r: Result<(), PipelineError>)
    ensures
        r == if package_exists && !overwrite {
            Err::<(), PipelineError>(PipelineError::AlreadyExists)
        } else {
            Ok::<(), PipelineError>(())
        },
{
    if package_exists && !overwrite {
        Err(PipelineError::AlreadyExists)
    } else {
        Ok(())
    }
}

/// One project folder of the editor's store: its name and whether its
/// package file is present.
#[derive(Debug)]
pub struct ProjectDir {
    pub name: String,
    pub has_package: bool,
}

/// The editor's `myprojects` store, as listed by the shell.
#[derive(Debug)]
pub struct EditorStore {
    pub projects: Vec<ProjectDir>,
}

/// The store as a map from folder name to package presence.
pub open spec fn store_map(s: Seq<ProjectDir>) -> Map<Seq<char>, bool>
    decreases s.len(),
{
    if s.len() == 0 {
        Map::empty()
    } else {
        store_map(s.drop_last()).insert(s.last().name@, s.last().has_package)
    }
}

/// Whether the store holds `name` with its package present.
pub open spec fn spec_check_map(m: Map<Seq<char>, bool>, name: Seq<char>) -> bool {
    m.contains_key(name) && m[name]
}

/// Well-formed store: folder names are distinct.
pub open spec fn store_wf(s: Seq<ProjectDir>) -> bool {
    forall|i: int, j: int|
        0 <= i < s.len() && 0 <= j < s.len() && i != j ==> (#[trigger] s[i].name@) != (
        #[trigger] s[j].name@)
}

proof fn lemma_store_map_lookup(s: Seq<ProjectDir>, name: Seq<char>)
    ensures
        store_map(s).contains_key(name) == exists|i: int| 0 <= i < s.len() && s[i].name@ == name,
        forall|i: int|
            0 <= i < s.len() && (#[trigger] s[i].name@) == name && store_wf(s) ==> store_map(
                s,
            ).contains_key(name) && store_map(s)[name] == s[i].has_package,
    decreases s.len(),
{
    if s.len() > 0 {
        let t = s.drop_last();
        lemma_store_map_lookup(t, name);
        if exists|i: int| 0 <= i < t.len() && t[i].name@ == name {
            let w = choose|i: int| 0 <= i < t.len() && t[i].name@ == name;
            assert(s[w].name@ == name);
        }
        if s.last().name@ == name {
            assert(s[s.len() - 1].name@ == name);
        } else {
            assert(store_map(s).contains_key(name) == store_map(t).contains_key(name));
            if exists|i: int| 0 <= i < s.len() && s[i].name@ == name {
                let w = choose|i: int| 0 <= i < s.len() && s[i].name@ == name;
                assert(w < t.len());
                assert(t[w].name@ == name);
            }
        }
        assert forall|i: int|
            0 <= i < s.len() && (#[trigger] s[i].name@) == name && store_wf(s)
                implies store_map(s).contains_key(name) && store_map(s)[name]
                == s[i].has_package by {
            if i < s.len() - 1 {
                assert(s.last().name@ != name);
                assert(t[i].name@ == name);
                assert(store_wf(t)) by {
                    assert forall|a: int, b: int|
                        0 <= a < t.len() && 0 <= b < t.len() && a != b implies (
                        #[trigger] t[a].name@) != (#[trigger] t[b].name@) by {
                        assert(s[a].name@ == t[a].name@ && s[b].name@ == t[b].name@);
                    }
                }
            }
        }
    }
}

/// The entries of `s` whose name is not `name`, in order.
pub open spec fn spec_store_without(s: Seq<ProjectDir>, name: Seq<char>) -> Seq<ProjectDir> {
    s.filter(|p: ProjectDir| p.name@ != name)
}

proof fn lemma_store_without_step(t: Seq<ProjectDir>, x: ProjectDir, name: Seq<char>)
    ensures
        spec_store_without(t.push(x), name) == if x.name@ != name {
            spec_store_without(t, name).push(x)
        } else {
            spec_store_without(t, name)
        },
{
    reveal_with_fuel(Seq::<ProjectDir>::filter, 2);
    assert(t.push(x).drop_last() =~= t);
    assert(t.push(x).last() == x);
}

proof fn lemma_store_map_remove(s: Seq<ProjectDir>, name: Seq<char>)
    ensures
        store_map(spec_store_without(s, name)) == store_map(s).remove(name),
    decreases s.len(),
{
    reveal_with_fuel(Seq::<ProjectDir>::filter, 1);
    if s.len() == 0 {
        assert(spec_store_without(s, name) =~= Seq::<ProjectDir>::empty());
        assert(store_map(s).remove(name) =~= Map::<Seq<char>, bool>::empty());
    } else {
        let t = s.drop_last();
        let x = s.last();
        lemma_store_map_remove(t, name);
        assert(s =~= t.push(x));
        lemma_store_without_step(t, x, name);
        if x.name@ != name {
            let u = spec_store_without(t, name);
            assert(spec_store_without(s, name) == u.push(x));
            assert(u.push(x).drop_last() =~= u);
            assert(u.push(x).last() == x);
            assert(store_map(spec_store_without(s, name)) == store_map(u).insert(
                x.name@,
                x.has_package,
            ));
            assert(store_map(t).remove(name).insert(x.name@, x.has_package) =~= store_map(
                t,
            ).insert(x.name@, x.has_package).remove(name));
        } else {
            assert(store_map(s).remove(name) =~= store_map(t).remove(name));
        }
    }
}

proof fn lemma_store_without_pairs(s: Seq<ProjectDir>, name: Seq<char>)
    ensures
        forall|a: int, b: int|
            0 <= a < b < spec_store_without(s, name).len() ==> exists|ia: int, ib: int|
                0 <= ia < ib < s.len() && (#[trigger] spec_store_without(s, name)[a]) == s[ia] && (
                #[trigger] spec_store_without(s, name)[b]) == s[ib],
    decreases s.len(),
{
    reveal_with_fuel(Seq::<ProjectDir>::filter, 1);
    if s.len() == 0 {
        assert(spec_store_without(s, name) =~= Seq::<ProjectDir>::empty());
    } else {
        let t = s.drop_last();
        let x = s.last();
        lemma_store_without_pairs(t, name);
        lemma_store_without_members(t, name);
        assert(s =~= t.push(x));
        lemma_store_without_step(t, x, name);
        let w = spec_store_without(s, name);
        let wt = spec_store_without(t, name);
        assert forall|a: int, b: int| 0 <= a < b < w.len() implies exists|ia: int, ib: int|
            0 <= ia < ib < s.len() && (#[trigger] w[a]) == s[ia] && (#[trigger] w[b])
                == s[ib] by {
            if x.name@ != name && b == w.len() - 1 {
                assert(w[a] == wt[a]);
                let ia = choose|ia: int| 0 <= ia < t.len() && wt[a] == t[ia];
                assert(w[a] == s[ia]);
                assert(w[b] == x);
                assert(w[b] == s[s.len() - 1]);
                assert(0 <= ia < s.len() - 1 < s.len() && w[a] == s[ia] && w[b] == s[s.len() - 1]);
            } else {
                assert(w[a] == wt[a] && w[b] == wt[b]);
                let (ia, ib) = choose|ia: int, ib: int|
                    0 <= ia < ib < t.len() && wt[a] == t[ia] && wt[b] == t[ib];
                assert(w[a] == s[ia] && w[b] == s[ib]);
            }
        }
    }
}

proof fn lemma_store_without_members(s: Seq<ProjectDir>, name: Seq<char>)
    ensures
        forall|j: int|
            0 <= j < spec_store_without(s, name).len() ==> (#[trigger] spec_store_without(
                s,
                name,
            )[j]).name@ != name && exists|i: int|
                0 <= i < s.len() && spec_store_without(s, name)[j] == s[i],
    decreases s.len(),
{
    reveal_with_fuel(Seq::<ProjectDir>::filter, 1);
    if s.len() == 0 {
        assert(spec_store_without(s, name) =~= Seq::<ProjectDir>::empty());
    } else {
        let t = s.drop_last();
        let x = s.last();
        lemma_store_without_members(t, name);
        assert(s =~= t.push(x));
        lemma_store_without_step(t, x, name);
        let w = spec_store_without(s, name);
        let wt = spec_store_without(t, name);
        assert forall|j: int| 0 <= j < w.len() implies (#[trigger] w[j]).name@ != name && exists|
            i: int,
        | 0 <= i < s.len() && w[j] == s[i] by {
            if x.name@ != name && j == w.len() - 1 {
                assert(w[j] == x);
                assert(w[j] == s[s.len() - 1]);
            } else {
                assert(w[j] == wt[j]);
                let i = choose|i: int| 0 <= i < t.len() && wt[j] == t[i];
                assert(w[j] == s[i]);
            }
        }
    }
}

proof fn lemma_store_without_wf(s: Seq<ProjectDir>, name: Seq<char>)
    ensures
        forall|j: int|
            0 <= j < spec_store_without(s, name).len() ==> (#[trigger] spec_store_without(
                s,
                name,
            )[j]).name@ != name,
        store_wf(s) ==> store_wf(spec_store_without(s, name)),
{
    lemma_store_without_members(s, name);
    lemma_store_without_pairs(s, name);
    let w = spec_store_without(s, name);
    if store_wf(s) {
        assert forall|a: int, b: int|
            0 <= a < w.len() && 0 <= b < w.len() && a != b implies (#[trigger] w[a].name@) != (
            #[trigger] w[b].name@) by {
            let lo: int = if a < b {
                a
            } else {
                b
            };
            let hi: int = if a < b {
                b
            } else {
                a
            };
            let (ia, ib) = choose|ia: int, ib: int|
                0 <= ia < ib < s.len() && w[lo] == s[ia] && w[hi] == s[ib];
            assert(s[ia].name@ != s[ib].name@);
        }
    }
}

/// Decide whether the store holds `name` with its package file, as the
/// existence check reports it.
pub fn check_exists_model(store: &EditorStore, name: &String) -> (r: bool)
    requires
        store_wf(store.projects@),
    ensures
        r == spec_check_map(store_map(store.projects@), name@),
{
    let ghost s = store.projects@;
    proof {
        lemma_store_map_lookup(s, name@);
    }
    let n = store.projects.len();
    let mut i: usize = 0;
    while i < n
        invariant
            n == s.len(),
            s == store.projects@,
            store_wf(s),
            0 <= i <= n,
            forall|j: int| 0 <= j < i ==> (#[trigger] s[j].name@) != name@,
        decreases n - i,
    {
        if store.projects[i].name == *name {
            proof {
                lemma_store_map_lookup(s, name@);
            }
            return store.projects[i].has_package;
        }
        i += 1;
    }
    proof {
        assert(!(exists|j: int| 0 <= j < s.len() && s[j].name@ == name@));
    }
    false
}

/// Record a successful import of `name` in the store model: afterwards the
/// store maps `name` to a present package and is otherwise unchanged.
pub fn import_model(store: &mut EditorStore, name: &String)
    requires
        store_wf(old(store).projects@),
    ensures
        store_wf(final(store).projects@),
        store_map(final(store).projects@) == store_map(old(store).projects@).insert(name@, true),
{
    let ghost s0 = store.projects@;
    let mut retained: Vec<ProjectDir> = Vec::new();
    let n = store.projects.len();
    let mut i: usize = 0;
    while i < n
        invariant
            n == s0.len(),
            s0 == store.projects@,
            0 <= i <= n,
            retained@ == spec_store_without(s0.take(i as int), name@),
        decreases n - i,
    {
        proof {
            assert(s0.take(i + 1) =~= s0.take(i as int).push(s0[i as int]));
            lemma_store_without_step(s0.take(i as int), s0[i as int], name@);
        }
        if store.projects[i].name == *name {
        } else {
            retained.push(
                ProjectDir {
                    name: store.projects[i].name.clone(),
                    has_package: store.projects[i].has_package,
                },
            );
            proof {
                assert(ProjectDir {
                    name: s0[i as int].name,
                    has_package: s0[i as int].has_package,
                } == s0[i as int]);
            }
        }
        i += 1;
    }
    proof {
        assert(s0.take(n as int) =~= s0);
    }
    retained.push(ProjectDir { name: name.clone(), has_package: true });
    proof {
        lemma_store_map_remove(s0, name@);
        lemma_store_without_wf(s0, name@);
        assert(retained@.drop_last() =~= spec_store_without(s0, name@));
        assert(retained@.last().name@ == name@ && retained@.last().has_package);
        assert(store_map(retained@) =~= store_map(s0).insert(name@, true));
        let w = spec_store_without(s0, name@);
        assert forall|a: int, b: int|
            0 <= a < retained@.len() && 0 <= b < retained@.len() && a != b implies (
            #[trigger] retained@[a].name@) != (#[trigger] retained@[b].name@) by {
            if a < w.len() && b < w.len() {
                assert(retained@[a] == w[a] && retained@[b] == w[b]);
            } else if a < w.len() {
                assert(retained@[a] == w[a] && retained@[b].name@ == name@);
            } else if b < w.len() {
                assert(retained@[b] == w[b] && retained@[a].name@ == name@);
            }
        }
    }
    store.projects = retained;
}

/// Record a removal of `name` in the store model: absent names fail with
/// NotFound and change nothing; otherwise the name is gone afterwards and
/// the store is otherwise unchanged.
pub fn remove_model(store: &mut EditorStore, name: &String) -> (r: Result<(), PipelineError>)
    requires
        store_wf(old(store).projects@),
    ensures
        store_wf(final(store).projects@),
        !store_map(old(store).projects@).contains_key(name@) ==> r == Err::<(), PipelineError>(
            PipelineError::NotFound,
        ) && final(store).projects@ == old(store).projects@,
        store_map(old(store).projects@).contains_key(name@) ==> r == Ok::<(), PipelineError>(())
            && store_map(final(store).projects@) == store_map(old(store).projects@).remove(name@),
{
    let ghost s0 = store.projects@;
    proof {
        lemma_store_map_lookup(s0, name@);
    }
    let mut found = false;
    let n = store.projects.len();
    let mut i: usize = 0;
    while i < n
        invariant
            n == s0.len(),
            s0 == store.projects@,
            0 <= i <= n,
            found == exists|j: int| 0 <= j < i && (#[trigger] s0[j].name@) == name@,
        decreases n - i,
    {
        if store.projects[i].name == *name {
            found = true;
            proof {
                assert(s0[i as int].name@ == name@);
            }
        }
        i += 1;
    }
    if !found {
        return Err(PipelineError::NotFound);
    }
    let mut retained: Vec<ProjectDir> = Vec::new();
    let mut i: usize = 0;
    while i < n
        invariant
            n == s0.len(),
            s0 == store.projects@,
            0 <= i <= n,
            retained@ == spec_store_without(s0.take(i as int), name@),
        decreases n - i,
    {
        proof {
            assert(s0.take(i + 1) =~= s0.take(i as int).push(s0[i as int]));
            lemma_store_without_step(s0.take(i as int), s0[i as int], name@);
        }
        if store.projects[i].name == *name {
        } else {
            retained.push(
                ProjectDir {
                    name: store.projects[i].name.clone(),
                    has_package: store.projects[i].has_package,
                },
            );
            proof {
                assert(ProjectDir {
                    name: s0[i as int].name,
                    has_package: s0[i as int].has_package,
                } == s0[i as int]);
            }
        }
        i += 1;
    }
    proof {
        assert(s0.take(n as int) =~= s0);
        lemma_store_map_remove(s0, name@);
        lemma_store_without_wf(s0, name@);
    }
    store.projects = retained;
    Ok(())
}

/// The import existence-check round trip, over the store model: whatever
/// the store held before, the check reports the package present right after
/// an import of `name`, and absent again right after its removal.
pub proof fn lemma_import_roundtrip(m: Map<Seq<char>, bool>, name: Seq<char>)
    ensures
        spec_check_map(m.insert(name, true), name),
        !spec_check_map(m.insert(name, true).remove(name), name),
{
}

/// The preview file names probed in the original wallpaper folder, in probe
/// order: each base name crossed with each extension.
pub open spec fn spec_preview_candidates() -> Seq<Seq<char>> {
    seq![
        "preview.jpg"@,
        "preview.jpeg"@,
        "preview.png"@,
        "preview.gif"@,
        "preview.webp"@,
        "preview.mp4"@,
        "preview.webm"@,
        "Preview.jpg"@,
        "Preview.jpeg"@,
        "Preview.png"@,
        "Preview.gif"@,
        "Preview.webp"@,
        "Preview.mp4"@,
        "Preview.webm"@,
        "PREVIEW.jpg"@,
        "PREVIEW.jpeg"@,
        "PREVIEW.png"@,
        "PREVIEW.gif"@,
        "PREVIEW.webp"@,
        "PREVIEW.mp4"@,
        "PREVIEW.webm"@,
    ]
}

/// Produce the preview candidates as data.
pub fn preview_candidates() -> (r: Vec<String>)
    ensures
        r.deep_view() == spec_preview_candidates(),
{
    let mut v: Vec<String> = Vec::new();
    v.push("preview.jpg".to_owned());
    v.push("preview.jpeg".to_owned());
    v.push("preview.png".to_owned());
    v.push("preview.gif".to_owned());
    v.push("preview.webp".to_owned());
    v.push("preview.mp4".to_owned());
    v.push("preview.webm".to_owned());
    v.push("Preview.jpg".to_owned());
    v.push("Preview.jpeg".to_owned());
    v.push("Preview.png".to_owned());
    v.push("Preview.gif".to_owned());
    v.push("Preview.webp".to_owned());
    v.push("Preview.mp4".to_owned());
    v.push("Preview.webm".to_owned());
    v.push("PREVIEW.jpg".to_owned());
    v.push("PREVIEW.jpeg".to_owned());
    v.push("PREVIEW.png".to_owned());
    v.push("PREVIEW.gif".to_owned());
    v.push("PREVIEW.webp".to_owned());
    v.push("PREVIEW.mp4".to_owned());
    v.push("PREVIEW.webm".to_owned());
    proof {
        assert(v.deep_view() =~= spec_preview_candidates());
    }
    v
}

/// The first preview candidate present among the listed file names, if any:
/// the one preview asset an import copies.
pub fn pick_preview(existing: &Vec<String>) -> (r: Option<String>)
    ensures
        match r {
            Some(c) => exists|i: int|
                0 <= i < spec_preview_candidates().len() && c@ == spec_preview_candidates()[i]
                    && existing.deep_view().contains(spec_preview_candidates()[i]) && forall|
                    j: int,
                |
                    0 <= j < i ==> !existing.deep_view().contains(
                        #[trigger] spec_preview_candidates()[j],
                    ),
            None => forall|j: int|
                0 <= j < spec_preview_candidates().len() ==> !existing.deep_view().contains(
                    #[trigger] spec_preview_candidates()[j],
                ),
        },
{
    let cands = preview_candidates();
    let n = cands.len();
    let mut i: usize = 0;
    while i < n
        invariant
            n == spec_preview_candidates().len(),
            cands.deep_view() == spec_preview_candidates(),
            0 <= i <= n,
            forall|j: int|
                0 <= j < i ==> !existing.deep_view().contains(
                    #[trigger] spec_preview_candidates()[j],
                ),
        decreases n - i,
    {
        if contains_string(existing, &cands[i]) {
            proof {
                assert(cands@[i as int]@ == spec_preview_candidates()[i as int]);
            }
            return Some(cands[i].clone());
        }
        proof {
            assert(cands@[i as int]@ == spec_preview_candidates()[i as int]);
        }
        i += 1;
    }
    None
}

} // verus!
