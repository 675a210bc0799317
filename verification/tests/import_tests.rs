use wallpaper_pipeline::errors::PipelineError;
use wallpaper_pipeline::import::{
    check_exists_model, editor_destination, import_admission, import_model, pick_preview,
    preview_candidates, remove_model, EditorStore,
};

fn list(items: &[&str]) -> Vec<String> {
    items.iter().map(|s| s.to_string()).collect()
}

#[test]
fn admission_refuses_existing_package_without_overwrite() {
    assert_eq!(import_admission(true, false), Err(PipelineError::AlreadyExists));
    assert_eq!(import_admission(true, true), Ok(()));
    assert_eq!(import_admission(false, false), Ok(()));
    assert_eq!(import_admission(false, true), Ok(()));
}

#[test]
fn destination_lies_in_myprojects() {
    assert_eq!(
        editor_destination("Ocean_ Waves_".to_string()),
        list(&["common", "wallpaper_engine", "projects", "myprojects", "Ocean_ Waves_"])
    );
}

#[test]
fn existence_check_round_trip() {
    let mut store = EditorStore { projects: Vec::new() };
    let name = "Ocean_ Waves_".to_string();
    assert!(!check_exists_model(&store, &name));
    import_model(&mut store, &name);
    assert!(check_exists_model(&store, &name));
    assert_eq!(remove_model(&mut store, &name), Ok(()));
    assert!(!check_exists_model(&store, &name));
    assert_eq!(remove_model(&mut store, &name), Err(PipelineError::NotFound));
}

#[test]
fn import_leaves_other_projects_alone() {
    let mut store = EditorStore { projects: Vec::new() };
    let first = "first".to_string();
    let second = "second".to_string();
    import_model(&mut store, &first);
    import_model(&mut store, &second);
    assert!(check_exists_model(&store, &first));
    assert!(check_exists_model(&store, &second));
    assert_eq!(remove_model(&mut store, &first), Ok(()));
    assert!(!check_exists_model(&store, &first));
    assert!(check_exists_model(&store, &second));
}

#[test]
fn preview_candidates_cross_names_with_extensions() {
    let cands = preview_candidates();
    assert_eq!(cands.len(), 21);
    assert_eq!(cands[0], "preview.jpg");
    assert_eq!(cands[6], "preview.webm");
    assert_eq!(cands[7], "Preview.jpg");
    assert_eq!(cands[20], "PREVIEW.webm");
}

#[test]
fn preview_pick_takes_the_first_match_in_probe_order() {
    let existing = list(&["scene.pkg", "Preview.png", "preview.mp4"]);
    assert_eq!(pick_preview(&existing), Some("preview.mp4".to_string()));
}

#[test]
fn preview_pick_none_without_match() {
    let existing = list(&["scene.pkg", "project.json"]);
    assert_eq!(pick_preview(&existing), None);
}
