use wallpaper_pipeline::extensions::{
    extension_of, is_allowed_name, normalize_extension, normalize_extensions, stem_and_ext,
};

fn list(items: &[&str]) -> Vec<String> {
    items.iter().map(|s| s.to_string()).collect()
}

#[test]
fn normalize_adds_dot_and_lowers() {
    assert_eq!(normalize_extension("JPG"), ".jpg");
}

#[test]
fn normalize_keeps_existing_dot() {
    assert_eq!(normalize_extension(".MP4"), ".mp4");
}

#[test]
fn normalize_whole_list() {
    assert_eq!(normalize_extensions(&list(&["jpg", ".WebM"])), list(&[".jpg", ".webm"]));
}

#[test]
fn extension_after_last_dot() {
    assert_eq!(extension_of("a.b.jpg"), Some("jpg".to_string()));
}

#[test]
fn leading_dot_is_no_extension() {
    assert_eq!(extension_of(".bashrc"), None);
}

#[test]
fn plain_name_has_no_extension() {
    assert_eq!(extension_of("README"), None);
}

#[test]
fn trailing_dot_gives_empty_extension() {
    assert_eq!(extension_of("foo."), Some(String::new()));
}

#[test]
fn stem_and_ext_split() {
    let (stem, ext) = stem_and_ext("a.b.jpg");
    assert_eq!(stem, "a.b");
    assert_eq!(ext, "jpg");
    let (stem2, ext2) = stem_and_ext("README");
    assert_eq!(stem2, "README");
    assert_eq!(ext2, "");
}

#[test]
fn allow_list_matching_is_case_insensitive() {
    let allowed = list(&[".jpg", ".mp4"]);
    assert!(is_allowed_name("photo.JPG", &allowed));
    assert!(is_allowed_name("clip.mp4", &allowed));
    assert!(!is_allowed_name("photo.png", &allowed));
    assert!(!is_allowed_name("README", &allowed));
}
