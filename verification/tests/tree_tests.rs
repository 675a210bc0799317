use wallpaper_pipeline::cleanup::cleanup_plan;
use wallpaper_pipeline::evict::evict_root_files_plan;
use wallpaper_pipeline::extensions::normalize_extensions;
use wallpaper_pipeline::fsmodel::{path_eq, prefix_matches, FsEntry, Snapshot};

fn entry(path: &[&str], is_dir: bool) -> FsEntry {
    FsEntry { path: path.iter().map(|s| s.to_string()).collect(), is_dir }
}

fn snap(entries: Vec<FsEntry>) -> Snapshot {
    let s = Snapshot { entries };
    assert!(s.check_wf());
    s
}

fn paths_of(entries: &[FsEntry]) -> Vec<Vec<String>> {
    entries.iter().map(|e| e.path.clone()).collect()
}

fn path(components: &[&str]) -> Vec<String> {
    components.iter().map(|s| s.to_string()).collect()
}

#[test]
fn wf_accepts_a_proper_tree() {
    let s = Snapshot {
        entries: vec![entry(&["a.jpg"], false), entry(&["d"], true), entry(&["d", "b.jpg"], false)],
    };
    assert!(s.check_wf());
}

#[test]
fn wf_rejects_duplicate_paths() {
    let s = Snapshot { entries: vec![entry(&["a.jpg"], false), entry(&["a.jpg"], false)] };
    assert!(!s.check_wf());
}

#[test]
fn wf_rejects_missing_parent() {
    let s = Snapshot { entries: vec![entry(&["d", "b.jpg"], false)] };
    assert!(!s.check_wf());
}

#[test]
fn wf_rejects_empty_component() {
    let s = Snapshot { entries: vec![entry(&[""], false)] };
    assert!(!s.check_wf());
}

#[test]
fn path_comparison_helpers() {
    assert!(path_eq(&path(&["a", "b"]), &path(&["a", "b"])));
    assert!(!path_eq(&path(&["a", "b"]), &path(&["a", "c"])));
    assert!(prefix_matches(&path(&["a", "b", "c"]), 2, &path(&["a", "b"])));
    assert!(!prefix_matches(&path(&["a", "b", "c"]), 2, &path(&["a", "c"])));
}

#[test]
fn eviction_deletes_only_root_files() {
    let s = snap(vec![
        entry(&["file.tmp"], false),
        entry(&["keep"], true),
        entry(&["keep", "old.jpg"], false),
    ]);
    let plan = evict_root_files_plan(s);
    assert_eq!(paths_of(&plan.deletions), vec![path(&["file.tmp"])]);
    let kept = paths_of(&plan.kept.entries);
    assert_eq!(kept, vec![path(&["keep"]), path(&["keep", "old.jpg"])]);
}

#[test]
fn eviction_of_empty_tree_is_empty() {
    let plan = evict_root_files_plan(snap(vec![]));
    assert!(plan.deletions.is_empty());
    assert!(plan.kept.entries.is_empty());
}

#[test]
fn cleanup_deletes_disallowed_and_prunes_empty_dirs() {
    let allowed = normalize_extensions(&vec!["jpg".to_string()]);
    let s = snap(vec![
        entry(&["a.jpg"], false),
        entry(&["b.txt"], false),
        entry(&["noext"], false),
        entry(&["d"], true),
        entry(&["d", "x.jpg"], false),
        entry(&["e"], true),
        entry(&["e", "y.txt"], false),
        entry(&["f"], true),
    ]);
    let plan = cleanup_plan(s, &allowed);
    assert_eq!(
        plan.file_deletions,
        vec![path(&["b.txt"]), path(&["noext"]), path(&["e", "y.txt"])]
    );
    assert_eq!(plan.dir_deletions, vec![path(&["e"]), path(&["f"])]);
    assert_eq!(
        paths_of(&plan.kept.entries),
        vec![path(&["a.jpg"]), path(&["d"]), path(&["d", "x.jpg"])]
    );
}

#[test]
fn cleanup_orders_nested_dir_deletions_deepest_first() {
    let allowed = normalize_extensions(&vec![".jpg".to_string()]);
    let s = snap(vec![entry(&["g"], true), entry(&["g", "h"], true)]);
    let plan = cleanup_plan(s, &allowed);
    assert!(plan.file_deletions.is_empty());
    assert_eq!(plan.dir_deletions, vec![path(&["g", "h"]), path(&["g"])]);
    assert!(plan.kept.entries.is_empty());
}

#[test]
fn cleanup_is_case_insensitive_on_extensions() {
    let allowed = normalize_extensions(&vec![".jpg".to_string()]);
    let s = snap(vec![entry(&["A.JPG"], false)]);
    let plan = cleanup_plan(s, &allowed);
    assert!(plan.file_deletions.is_empty());
    assert_eq!(paths_of(&plan.kept.entries), vec![path(&["A.JPG"])]);
}

#[test]
fn eviction_twice_equals_eviction_once() {
    let s = snap(vec![
        entry(&["stray.tmp"], false),
        entry(&["keep"], true),
        entry(&["keep", "old.jpg"], false),
    ]);
    let once = evict_root_files_plan(s);
    let kept_once = paths_of(&once.kept.entries);
    let again = evict_root_files_plan(once.kept);
    assert!(again.deletions.is_empty());
    assert_eq!(paths_of(&again.kept.entries), kept_once);
}

#[test]
fn cleanup_twice_equals_cleanup_once() {
    let allowed = normalize_extensions(&vec![".jpg".to_string()]);
    let s = snap(vec![
        entry(&["a.jpg"], false),
        entry(&["junk.txt"], false),
        entry(&["d"], true),
        entry(&["d", "x.jpg"], false),
        entry(&["e"], true),
    ]);
    let once = cleanup_plan(s, &allowed);
    let kept_once = paths_of(&once.kept.entries);
    let again = cleanup_plan(once.kept, &allowed);
    assert!(again.file_deletions.is_empty());
    assert!(again.dir_deletions.is_empty());
    assert_eq!(paths_of(&again.kept.entries), kept_once);
}
