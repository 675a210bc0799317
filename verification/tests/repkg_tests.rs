use wallpaper_pipeline::errors::PipelineError;
use wallpaper_pipeline::repkg::{
    choose_tool_path, command_outcome, extract_args, info_args, ExtractOptions, InfoOptions,
};
use wallpaper_pipeline::steam::{find_workshop_prefix, pick_existing, steam_root_candidates};

fn list(items: &[&str]) -> Vec<String> {
    items.iter().map(|s| s.to_string()).collect()
}

fn bare_extract() -> ExtractOptions {
    ExtractOptions {
        output: None,
        ignore_exts: None,
        only_exts: None,
        debug_info: false,
        tex: false,
        single_dir: false,
        recursive: false,
        copy_project: false,
        use_name: false,
        no_tex_convert: false,
        overwrite: false,
    }
}

#[test]
fn minimal_extract_command() {
    assert_eq!(extract_args("scene.pkg", &bare_extract()), list(&["extract", "scene.pkg"]));
}

#[test]
fn full_extract_command() {
    let options = ExtractOptions {
        output: Some("out".to_string()),
        ignore_exts: Some("tex".to_string()),
        only_exts: Some("jpg,mp4".to_string()),
        debug_info: true,
        tex: true,
        single_dir: true,
        recursive: true,
        copy_project: true,
        use_name: true,
        no_tex_convert: true,
        overwrite: true,
    };
    assert_eq!(
        extract_args("scene.pkg", &options),
        list(&[
            "extract", "-o", "out", "-i", "tex", "-e", "jpg,mp4", "-d", "-t", "-s", "-r", "-c",
            "-n", "--no-tex-convert", "--overwrite", "scene.pkg",
        ])
    );
}

#[test]
fn info_command_orders_flags() {
    let options = InfoOptions {
        sort: true,
        sort_by: Some("size".to_string()),
        tex: false,
        project_info: Some("title".to_string()),
        print_entries: true,
        title_filter: None,
    };
    assert_eq!(
        info_args("scene.pkg", &options),
        list(&["info", "-s", "-b", "size", "-p", "title", "-e", "scene.pkg"])
    );
}

#[test]
fn tool_path_prefers_the_development_location() {
    assert_eq!(
        choose_tool_path("dev/RePKG".to_string(), true, Some("prod/RePKG".to_string()), true),
        "dev/RePKG"
    );
    assert_eq!(
        choose_tool_path("dev/RePKG".to_string(), false, Some("prod/RePKG".to_string()), true),
        "prod/RePKG"
    );
    assert_eq!(
        choose_tool_path("dev/RePKG".to_string(), false, Some("prod/RePKG".to_string()), false),
        "dev/RePKG"
    );
    assert_eq!(choose_tool_path("dev/RePKG".to_string(), false, None, true), "dev/RePKG");
}

#[test]
fn command_outcome_maps_exit_status() {
    assert_eq!(command_outcome(true, "listing".to_string(), String::new()), Ok("listing".to_string()));
    assert_eq!(
        command_outcome(false, String::new(), "bad archive".to_string()),
        Err(PipelineError::SubprocessFailed("bad archive".to_string()))
    );
}

#[test]
fn steam_candidates_are_the_fixed_roots() {
    assert_eq!(
        steam_root_candidates(),
        list(&[
            "C:\\Program Files (x86)\\Steam",
            "C:\\Program Files\\Steam",
            "D:\\Steam",
            "E:\\Steam",
        ])
    );
}

#[test]
fn first_existing_candidate_wins() {
    assert_eq!(pick_existing(&vec![false, true, true]), Some(1));
    assert_eq!(pick_existing(&vec![false, false]), None);
    assert_eq!(pick_existing(&vec![]), None);
}

#[test]
fn workshop_prefix_is_the_innermost_steamapps_parent() {
    let p = list(&["C:", "Steam", "steamapps", "workshop", "content"]);
    assert_eq!(find_workshop_prefix(&p), Some(3));
    let q = list(&["home", "user", "downloads"]);
    assert_eq!(find_workshop_prefix(&q), None);
    // The path's own last component is not a parent, so it does not count.
    let r = list(&["a", "steamapps"]);
    assert_eq!(find_workshop_prefix(&r), None);
}
