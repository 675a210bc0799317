use wallpaper_pipeline::import::resolve_folder_name;
use wallpaper_pipeline::sanitize_title;

#[test]
fn sanitize_replaces_punctuation_and_trims() {
    assert_eq!(sanitize_title("Ocean: Waves!"), "Ocean_ Waves_");
}

#[test]
fn sanitize_keeps_safe_characters() {
    assert_eq!(sanitize_title("My_Wallpaper-01 v2"), "My_Wallpaper-01 v2");
}

#[test]
fn sanitize_trims_leading_and_trailing_spaces() {
    assert_eq!(sanitize_title("  framed  "), "framed");
}

#[test]
fn sanitize_of_empty_is_empty() {
    assert_eq!(sanitize_title(""), "");
}

#[test]
fn sanitize_of_spaces_only_is_empty() {
    assert_eq!(sanitize_title("   "), "");
}

#[test]
fn sanitize_keeps_unicode_letters() {
    assert_eq!(sanitize_title("café"), "café");
}

#[test]
fn resolve_folder_uses_sanitized_title() {
    assert_eq!(resolve_folder_name(Some("Ocean: Waves!"), "123456"), "Ocean_ Waves_");
}

#[test]
fn resolve_folder_falls_back_on_empty_sanitization() {
    assert_eq!(resolve_folder_name(Some("   "), "123456"), "123456");
}

#[test]
fn resolve_folder_falls_back_without_title() {
    assert_eq!(resolve_folder_name(None, "987"), "987");
}
