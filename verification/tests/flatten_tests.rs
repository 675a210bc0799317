use wallpaper_pipeline::decimal::counter_to_dec;
use wallpaper_pipeline::extensions::normalize_extensions;
use wallpaper_pipeline::flatten::flatten_plan;
use wallpaper_pipeline::fsmodel::{FsEntry, Snapshot};

fn entry(path: &[&str], is_dir: bool) -> FsEntry {
    FsEntry { path: path.iter().map(|s| s.to_string()).collect(), is_dir }
}

fn snap(entries: Vec<FsEntry>) -> Snapshot {
    let s = Snapshot { entries };
    assert!(s.check_wf());
    s
}

fn media_allowed() -> Vec<String> {
    normalize_extensions(&vec![".jpg".to_string(), ".mp4".to_string()])
}

fn result_names(plan: &wallpaper_pipeline::flatten::FlattenPlan) -> Vec<String> {
    plan.result.entries.iter().map(|e| e.path[0].clone()).collect()
}

#[test]
fn counters_render_in_decimal() {
    assert_eq!(counter_to_dec(0), "0");
    assert_eq!(counter_to_dec(7), "7");
    assert_eq!(counter_to_dec(10), "10");
    assert_eq!(counter_to_dec(1203), "1203");
}

#[test]
fn collisions_get_numbered_names_without_overwrite() {
    let s = snap(vec![
        entry(&["a.jpg"], false),
        entry(&["sub"], true),
        entry(&["sub", "a.jpg"], false),
        entry(&["sub2"], true),
        entry(&["sub2", "a.jpg"], false),
    ]);
    let plan = flatten_plan(s, &media_allowed(), false);
    assert_eq!(plan.moves.len(), 2);
    assert_eq!(plan.moves[0].dest_name, "a_1.jpg");
    assert!(!plan.moves[0].replaces);
    assert_eq!(plan.moves[1].dest_name, "a_2.jpg");
    assert!(!plan.moves[1].replaces);
    assert_eq!(plan.removed_dirs, vec!["sub".to_string(), "sub2".to_string()]);
    assert_eq!(result_names(&plan), vec!["a.jpg", "a_1.jpg", "a_2.jpg"]);
}

#[test]
fn overwrite_replaces_the_existing_file() {
    let s = snap(vec![
        entry(&["a.jpg"], false),
        entry(&["sub"], true),
        entry(&["sub", "a.jpg"], false),
    ]);
    let plan = flatten_plan(s, &media_allowed(), true);
    assert_eq!(plan.moves.len(), 1);
    assert_eq!(plan.moves[0].dest_name, "a.jpg");
    assert!(plan.moves[0].replaces);
    assert_eq!(plan.moves[0].source, vec!["sub".to_string(), "a.jpg".to_string()]);
    assert_eq!(result_names(&plan), vec!["a.jpg"]);
}

#[test]
fn flat_root_is_a_no_op() {
    let s = snap(vec![entry(&["a.jpg"], false), entry(&["b.mp4"], false)]);
    let plan = flatten_plan(s, &media_allowed(), false);
    assert!(plan.moves.is_empty());
    assert!(plan.removed_dirs.is_empty());
    assert!(plan.strays.is_empty());
    assert_eq!(result_names(&plan), vec!["a.jpg", "b.mp4"]);
}

#[test]
fn flatten_twice_equals_flatten_once() {
    let s = snap(vec![
        entry(&["x.jpg"], false),
        entry(&["sub"], true),
        entry(&["sub", "y.mp4"], false),
    ]);
    let once = flatten_plan(s, &media_allowed(), false);
    let names_once = result_names(&once);
    let again = flatten_plan(once.result, &media_allowed(), false);
    assert!(again.moves.is_empty());
    assert!(again.removed_dirs.is_empty());
    assert_eq!(result_names(&again), names_once);
}

#[test]
fn flatten_leaves_only_allowed_files_and_no_dirs() {
    let s = snap(vec![
        entry(&["x.jpg"], false),
        entry(&["sub"], true),
        entry(&["sub", "y.mp4"], false),
        entry(&["sub", "z.txt"], false),
        entry(&["sub", "inner"], true),
        entry(&["sub", "inner", "w.jpg"], false),
    ]);
    let plan = flatten_plan(s, &media_allowed(), false);
    for e in &plan.result.entries {
        assert!(!e.is_dir);
        assert_eq!(e.path.len(), 1);
        let name = &e.path[0];
        assert!(name.ends_with(".jpg") || name.ends_with(".mp4"), "unexpected {name}");
    }
    let mut names = result_names(&plan);
    names.sort();
    assert_eq!(names, vec!["w.jpg", "x.jpg", "y.mp4"]);
    assert_eq!(plan.strays, vec![vec!["sub".to_string(), "z.txt".to_string()]]);
}

#[test]
fn deep_collisions_keep_multi_dot_stems() {
    let s = snap(vec![
        entry(&["a.b.jpg"], false),
        entry(&["sub"], true),
        entry(&["sub", "a.b.jpg"], false),
    ]);
    let plan = flatten_plan(s, &media_allowed(), false);
    assert_eq!(plan.moves.len(), 1);
    assert_eq!(plan.moves[0].dest_name, "a.b_1.jpg");
}

#[test]
fn numbered_name_skips_occupied_candidates() {
    let s = snap(vec![
        entry(&["a.jpg"], false),
        entry(&["a_1.jpg"], false),
        entry(&["sub"], true),
        entry(&["sub", "a.jpg"], false),
    ]);
    let plan = flatten_plan(s, &media_allowed(), false);
    assert_eq!(plan.moves.len(), 1);
    assert_eq!(plan.moves[0].dest_name, "a_2.jpg");
}

#[test]
fn directory_names_occupy_destinations() {
    let s = snap(vec![
        entry(&["a.jpg"], true),
        entry(&["a.jpg", "a.jpg"], false),
    ]);
    let plan = flatten_plan(s, &media_allowed(), false);
    assert_eq!(plan.moves.len(), 1);
    assert_eq!(plan.moves[0].dest_name, "a_1.jpg");
    assert_eq!(plan.removed_dirs, vec!["a.jpg".to_string()]);
    assert_eq!(result_names(&plan), vec!["a_1.jpg"]);
}

#[test]
fn overwrite_lets_a_later_move_replace_an_earlier_one() {
    let s = snap(vec![
        entry(&["sub"], true),
        entry(&["sub", "a.jpg"], false),
        entry(&["sub2"], true),
        entry(&["sub2", "a.jpg"], false),
    ]);
    let plan = flatten_plan(s, &media_allowed(), true);
    assert_eq!(plan.moves.len(), 2);
    assert_eq!(plan.moves[0].dest_name, "a.jpg");
    assert!(!plan.moves[0].replaces);
    assert_eq!(plan.moves[1].dest_name, "a.jpg");
    assert!(plan.moves[1].replaces);
    assert_eq!(result_names(&plan), vec!["a.jpg"]);
}
