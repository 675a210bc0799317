use wallpaper_pipeline::errors::PipelineError;
use wallpaper_pipeline::import::ImportToEditorOptions;
use wallpaper_pipeline::jsonmeta::{
    destination_for, extract_title, resolve_destination, strip_workshop_keys,
};

const SAMPLE: &str = r#"{
  "title": "Ocean: Waves!",
  "version": 3,
  "workshopid": "123456",
  "workshopurl": "steam://url/CommunityFilePage/123456",
  "type": "video"
}"#;

#[test]
fn title_is_extracted() {
    assert_eq!(extract_title(r#"{"title":"Ocean"}"#), Some("Ocean".to_string()));
}

#[test]
fn missing_or_non_string_title_gives_none() {
    assert_eq!(extract_title(r#"{"type":"video"}"#), None);
    assert_eq!(extract_title(r#"{"title":42}"#), None);
}

#[test]
fn unparsable_document_gives_none() {
    assert_eq!(extract_title("not json"), None);
}

#[test]
fn destination_comes_from_the_title() {
    assert_eq!(resolve_destination(Some(SAMPLE), "123456"), "Ocean_ Waves_");
}

#[test]
fn destination_falls_back_to_workshop_id() {
    assert_eq!(resolve_destination(None, "123456"), "123456");
    assert_eq!(resolve_destination(Some("not json"), "123456"), "123456");
    assert_eq!(resolve_destination(Some(r#"{"title":"  "}"#), "123456"), "123456");
}

#[test]
fn workshop_keys_are_stripped_from_the_copy() {
    let out = strip_workshop_keys(SAMPLE).unwrap();
    assert_ne!(out, SAMPLE);
    let value: serde_json::Value = serde_json::from_str(&out).unwrap();
    let obj = value.as_object().unwrap();
    assert!(!obj.contains_key("version"));
    assert!(!obj.contains_key("workshopid"));
    assert!(!obj.contains_key("workshopurl"));
    assert_eq!(obj.get("title").and_then(|t| t.as_str()), Some("Ocean: Waves!"));
    assert_eq!(obj.get("type").and_then(|t| t.as_str()), Some("video"));
}

#[test]
fn malformed_document_aborts_the_rewrite() {
    assert_eq!(strip_workshop_keys("{oops"), Err(PipelineError::MetadataMalformed));
}

#[test]
fn error_messages_are_readable() {
    assert_eq!(PipelineError::MetadataMalformed.message(), "project metadata is malformed");
    assert_eq!(PipelineError::PathNotFound.message(), "path does not exist");
    assert_eq!(
        PipelineError::SubprocessFailed("boom".to_string()).message(),
        "extractor failed: boom"
    );
    assert_eq!(
        PipelineError::IoFailure("copy failed".to_string()).message(),
        "filesystem operation failed: copy failed"
    );
}

#[test]
fn destination_for_lands_in_myprojects() {
    let options = ImportToEditorOptions {
        workshop_id: "123456".to_string(),
        steamapps_path: "C:\\Steam\\steamapps".to_string(),
        scene_pkg_path: "C:\\x\\scene.pkg".to_string(),
        overwrite: false,
    };
    assert_eq!(
        destination_for(&options, Some(SAMPLE)),
        vec!["common", "wallpaper_engine", "projects", "myprojects", "Ocean_ Waves_"]
    );
    assert_eq!(
        destination_for(&options, None),
        vec!["common", "wallpaper_engine", "projects", "myprojects", "123456"]
    );
}

#[test]
fn rewrite_is_stable_on_its_own_output() {
    let once = strip_workshop_keys(SAMPLE).unwrap();
    let twice = strip_workshop_keys(&once).unwrap();
    assert_eq!(once, twice);
}
