use mrn::clean::{clean_step_once, clean_stem};
use mrn::noise::{noise_is_match, strip_noise};
use mrn::model::{
    Action, Cli, Dimensions, Height, ImageCandidate, Startup, TargetMode, Width,
    DEFAULT_EXTENSIONS,
};
use mrn::plan::{
    build_actions, group_candidates, is_supported_extension, new_stem, plan_actions,
    free_target_path, process_file, sort_by_area, target_file_name,
};
use mrn::text::{decimal_string, eq_ignore_ascii_case, trim_noise_chars};

fn dims(w: u32, h: u32) -> Dimensions {
    Dimensions::from_pair((w, h))
}

fn candidate(path: &str, name: &str, w: u32, h: u32, ext: &str) -> ImageCandidate {
    ImageCandidate::new(path.to_string(), name.to_string(), dims(w, h), ext.to_string())
}

fn parts(a: &Action) -> (&'static str, String, String) {
    match a {
        Action::Rename(r) => ("rename", r.from.clone(), r.to.clone()),
        Action::Copy(r) => ("copy", r.from.clone(), r.to.clone()),
    }
}

fn cli(output: Option<&str>, move_files: bool) -> Cli {
    Cli {
        input: ".".to_string(),
        exts: DEFAULT_EXTENSIONS.iter().map(|e| e.to_string()).collect(),
        follow_links: false,
        dry_run: false,
        move_files,
        output: output.map(|o| o.to_string()),
        version: false,
    }
}

#[test]
fn decimal_string_renders_like_display() {
    for n in [0u64, 7, 10, 99, 100, 1920, 1080, 4294967295, 18446744073709551615] {
        assert_eq!(decimal_string(n), n.to_string());
    }
}

#[test]
fn dimensions_are_written_w_x_h() {
    let d = dims(1920, 1080);
    assert_eq!(d.width, Width(1920));
    assert_eq!(d.height, Height(1080));
    assert_eq!(d.to_string(), "1920x1080");
    assert_eq!(dims(0, 5).to_string(), "0x5");
}

#[test]
fn trim_noise_chars_strips_separators_at_both_ends() {
    assert_eq!(trim_noise_chars("  -_[abc]()  "), "abc");
    assert_eq!(trim_noise_chars("a - b"), "a - b");
    assert_eq!(trim_noise_chars("-[]-"), "");
    assert_eq!(trim_noise_chars(""), "");
    assert_eq!(trim_noise_chars("photo.."), "photo..");
}

#[test]
fn eq_ignore_ascii_case_matches_std() {
    let pairs = [("JPG", "jpg"), ("jpg", "jpe"), ("Jpeg", "JPEG"), ("ÉA", "éa"), ("", ""), ("a", "ab")];
    for (a, b) in pairs {
        assert_eq!(eq_ignore_ascii_case(a, b), a.eq_ignore_ascii_case(b), "{} {}", a, b);
    }
}

#[test]
fn one_cleaning_step_removes_a_label_or_the_noise() {
    assert_eq!(clean_step_once("icon-[64x64]"), "icon");
    assert_eq!(clean_step_once("a-[10x20][3]"), "a");
    assert_eq!(clean_step_once("--name__"), "name");
    assert_eq!(clean_step_once("[1920x1080]"), "");
    assert_eq!(clean_step_once("a-[10x]"), "a-[10x");
}

#[test]
fn clean_stem_removes_noise_and_separators() {
    assert_eq!(clean_stem("cool_sunset-[1920x1080]-12345678"), "cool_sunset");
    assert_eq!(clean_stem("wallhaven-abc123-1920x1080"), "wallhaven-abc123");
    assert_eq!(clean_stem("IMG_20250101_123456789"), "IMG");
    assert_eq!(clean_stem("1920x1080"), "1920x1080");
    assert_eq!(clean_stem("plain"), "plain");
}

#[test]
fn clean_stem_of_a_renamed_stem_gives_the_name_back() {
    let stem = new_stem("cool_sunset", dims(1920, 1080));
    assert_eq!(stem, "cool_sunset-[1920x1080]");
    assert_eq!(clean_stem(&stem), "cool_sunset");
}

#[test]
fn supported_extension_ignores_ascii_case() {
    let exts: Vec<String> = DEFAULT_EXTENSIONS.iter().map(|e| e.to_string()).collect();
    assert_eq!(is_supported_extension("pics/a.JPG", &exts), Some(true));
    assert_eq!(is_supported_extension("pics/a.webp", &exts), Some(true));
    assert_eq!(is_supported_extension("pics/a.txt", &exts), Some(false));
    assert_eq!(is_supported_extension("pics/noext", &exts), None);
    assert_eq!(is_supported_extension("pics/.jpg", &exts), None);
}

#[test]
fn process_file_builds_a_candidate() {
    let c = process_file("dir/photo.1920x1080.1234567890.JPG".to_string(), Some(dims(640, 480))).unwrap();
    assert_eq!(c.path, "dir/photo.1920x1080.1234567890.JPG");
    assert_eq!(c.cleaned_name, "photo.");
    assert_eq!(c.extension, "jpg");
    assert_eq!(c.dims, dims(640, 480));
    assert!(process_file("dir/photo.jpg".to_string(), None).is_none());
    assert!(process_file("dir/noext".to_string(), Some(dims(1, 1))).is_none());
    assert!(process_file("".to_string(), Some(dims(1, 1))).is_none());
}

#[test]
fn target_names_and_paths() {
    assert_eq!(target_file_name("a-[1x2]", "png", 0), "a-[1x2].png");
    assert_eq!(target_file_name("a-[1x2]", "png", 2), "a-[1x2][2].png");
    let none: Vec<String> = Vec::new();
    assert_eq!(free_target_path("/out", "a-[1x2]", "png", &none), Some("/out/a-[1x2].png".to_string()));
    assert_eq!(free_target_path("", "a-[1x2]", "png", &none), Some("a-[1x2].png".to_string()));
}

#[test]
fn target_mode_follows_the_options() {
    assert!(matches!(TargetMode::from_cli(&cli(None, true)), TargetMode::InPlace));
    assert!(matches!(TargetMode::from_cli(&cli(Some("/o"), true)), TargetMode::MoveTo(p) if p == "/o"));
    assert!(matches!(TargetMode::from_cli(&cli(Some("/o"), false)), TargetMode::CopyTo(p) if p == "/o"));
}

#[test]
fn startup_checks_version_then_input() {
    let mut c = cli(None, false);
    assert_eq!(c.startup(true), Startup::Proceed);
    assert_eq!(c.startup(false), Startup::RejectInput);
    c.input = String::new();
    assert_eq!(c.startup(true), Startup::RejectInput);
    c.version = true;
    assert_eq!(c.startup(false), Startup::ShowVersion);
    assert!(c.applies_changes());
    c.dry_run = true;
    assert!(!c.applies_changes());
}

#[test]
fn sort_by_area_is_stable() {
    let group = vec![
        candidate("a", "n", 100, 100, "png"),
        candidate("b", "n", 10, 10, "png"),
        candidate("c", "n", 50, 200, "png"),
        candidate("d", "n", 10, 10, "png"),
    ];
    let sorted: Vec<String> = sort_by_area(group).into_iter().map(|c| c.path).collect();
    assert_eq!(sorted, vec!["b", "d", "a", "c"]);
}

#[test]
fn sort_by_area_uses_the_whole_pixel_count() {
    // 65536 * 65536 is past u32::MAX; it still sorts after 2 * 2.
    let group = vec![candidate("big", "n", 65536, 65536, "png"), candidate("small", "n", 2, 2, "png")];
    let sorted: Vec<String> = sort_by_area(group).into_iter().map(|c| c.path).collect();
    assert_eq!(sorted, vec!["small", "big"]);
}

#[test]
fn group_candidates_by_cleaned_name() {
    let cands = vec![
        candidate("1", "a", 1, 1, "png"),
        candidate("2", "b", 1, 1, "png"),
        candidate("3", "a", 1, 1, "png"),
    ];
    let groups = group_candidates(cands);
    let paths: Vec<Vec<String>> =
        groups.into_iter().map(|g| g.into_iter().map(|c| c.path).collect()).collect();
    assert_eq!(paths, vec![vec!["1".to_string(), "3".to_string()], vec!["2".to_string()]]);
}

#[test]
fn in_place_renames_next_to_the_file_and_skips_perfect_names() {
    let group = vec![
        candidate("/pics/cool_sunset (1)-[1920x1080]-12345678.jpg", "cool_sunset", 1920, 1080, "jpg"),
        candidate("/pics/b-[10x20].png", "b", 10, 20, "png"),
    ];
    let actions = plan_actions(group, &TargetMode::InPlace, Vec::new());
    assert_eq!(actions.len(), 1);
    assert_eq!(
        parts(&actions[0]),
        (
            "rename",
            "/pics/cool_sunset (1)-[1920x1080]-12345678.jpg".to_string(),
            "/pics/cool_sunset-[1920x1080].jpg".to_string()
        )
    );
    assert_eq!(
        actions[0].to_string(),
        "-> /pics/cool_sunset (1)-[1920x1080]-12345678.jpg -> /pics/cool_sunset-[1920x1080].jpg"
    );
}

#[test]
fn copy_and_move_modes_target_the_output_directory() {
    let copy = plan_actions(vec![candidate("/p/b-[10x20].png", "b", 10, 20, "png")], &TargetMode::CopyTo("/out".to_string()), Vec::new());
    assert_eq!(parts(&copy[0]), ("copy", "/p/b-[10x20].png".to_string(), "/out/b-[10x20].png".to_string()));
    assert_eq!(copy[0].to_string(), "*C /p/b-[10x20].png -> /out/b-[10x20].png");
    let moved = plan_actions(vec![candidate("/p/x.png", "x", 3, 4, "png")], &TargetMode::MoveTo("/out".to_string()), Vec::new());
    assert_eq!(parts(&moved[0]), ("rename", "/p/x.png".to_string(), "/out/x-[3x4].png".to_string()));
}

#[test]
fn build_actions_orders_a_group_by_area() {
    let group = vec![candidate("big.png", "n", 30, 30, "png"), candidate("small.png", "n", 2, 2, "png")];
    let mut taken: Vec<String> = Vec::new();
    let actions = build_actions(group, &TargetMode::CopyTo("o".to_string()), &mut taken);
    assert_eq!(taken, vec!["o/n-[2x2].png".to_string(), "o/n-[30x30].png".to_string()]);
    let froms: Vec<String> = actions.iter().map(|a| parts(a).1).collect();
    assert_eq!(froms, vec!["small.png", "big.png"]);
    assert_eq!(parts(&actions[0]).2, "o/n-[2x2].png");
}

#[test]
fn every_candidate_acts_with_an_output_directory() {
    let cands = vec![
        candidate("a-[1x1].png", "a", 1, 1, "png"),
        candidate("b.png", "b", 1, 1, "png"),
        candidate("c.png", "a", 2, 2, "png"),
    ];
    assert_eq!(plan_actions(cands, &TargetMode::MoveTo("o".to_string()), Vec::new()).len(), 3);
}

#[test]
fn trimming_twice_is_trimming_once() {
    for s in ["__a b__", "(x)", "[]", "-x-y-"] {
        let once = trim_noise_chars(s);
        assert_eq!(trim_noise_chars(&once), once);
    }
}

#[test]
fn eq_ignore_ascii_case_is_symmetric() {
    for (a, b) in [("AbC", "aBc"), ("a", "B"), ("ZZ", "zz")] {
        assert_eq!(eq_ignore_ascii_case(a, b), eq_ignore_ascii_case(b, a));
    }
}

#[test]
fn renamed_stem_loses_only_its_label() {
    let stem = new_stem("a1b 123456", dims(1920, 1080));
    assert_eq!(strip_noise(&stem), format!("{}-", strip_noise("a1b 123456")));
    // Dimensions below three digits are not noise; cleaning takes the label off.
    assert_eq!(strip_noise("name-[99x99]"), "name-[99x99]");
    assert_eq!(clean_stem("name-[99x99]"), "name");
}

#[test]
fn rerun_in_place_leaves_renamed_file_alone() {
    let first = plan_actions(vec![candidate("/w/sunset.png", "sunset", 2560, 1440, "png")], &TargetMode::InPlace, Vec::new());
    let renamed = parts(&first[0]).2;
    assert_eq!(renamed, "/w/sunset-[2560x1440].png");
    let again = process_file(renamed.clone(), Some(dims(2560, 1440))).unwrap();
    assert_eq!(again.cleaned_name, "sunset");
    assert!(plan_actions(vec![again], &TargetMode::InPlace, Vec::new()).is_empty());
}

#[test]
fn readme_before_and_after() {
    let c = process_file("/w/cool_sunset (1)-[1920x1080]-12345678.jpg".to_string(), Some(dims(1920, 1080))).unwrap();
    assert_eq!(c.cleaned_name, "cool_sunset");
    let actions = plan_actions(vec![c], &TargetMode::InPlace, Vec::new());
    assert_eq!(parts(&actions[0]).2, "/w/cool_sunset-[1920x1080].jpg");
}

#[test]
fn copy_markers_are_noise() {
    assert_eq!(clean_stem("cool_sunset (1)"), "cool_sunset");
    assert_eq!(clean_stem("photo(12)"), "photo");
    assert_eq!(strip_noise("trip (2024)"), "trip (2024)");
    assert_eq!(strip_noise("a (1) b"), "a b");
}

#[test]
fn taken_paths_get_the_least_free_counter() {
    let taken = vec!["/out/a-[1x2].png".to_string()];
    assert_eq!(free_target_path("/out", "a-[1x2]", "png", &taken), Some("/out/a-[1x2][1].png".to_string()));
    let taken = vec!["/out/a-[1x2][1].png".to_string(), "/out/a-[1x2].png".to_string()];
    assert_eq!(free_target_path("/out", "a-[1x2]", "png", &taken), Some("/out/a-[1x2][2].png".to_string()));
    let taken = vec!["/out/a-[1x2][1].png".to_string()];
    assert_eq!(free_target_path("/out", "a-[1x2]", "png", &taken), Some("/out/a-[1x2].png".to_string()));
}

#[test]
fn two_files_of_one_name_and_size_get_distinct_targets() {
    let group = vec![
        candidate("w/a 1920x1080.jpg", "a", 1920, 1080, "jpg"),
        candidate("w/a_12345678.jpg", "a", 1920, 1080, "jpg"),
    ];
    let actions = plan_actions(group, &TargetMode::InPlace, Vec::new());
    let tos: Vec<String> = actions.iter().map(|a| parts(a).2).collect();
    assert_eq!(tos, vec!["w/a-[1920x1080].jpg", "w/a-[1920x1080][1].jpg"]);
    let moved = plan_actions(
        vec![candidate("p/a.jpg", "a", 5, 5, "jpg"), candidate("q/a.jpg", "a", 5, 5, "jpg")],
        &TargetMode::MoveTo("out".to_string()),
        Vec::new(),
    );
    let tos: Vec<String> = moved.iter().map(|a| parts(a).2).collect();
    assert_eq!(tos, vec!["out/a-[5x5].jpg", "out/a-[5x5][1].jpg"]);
}

#[test]
fn an_existing_file_is_never_a_target() {
    let existing = vec!["w/a-[1920x1080].jpg".to_string(), "w/a 1920x1080.jpg".to_string()];
    let actions = plan_actions(
        vec![candidate("w/a 1920x1080.jpg", "a", 1920, 1080, "jpg")],
        &TargetMode::InPlace,
        existing,
    );
    assert_eq!(parts(&actions[0]).2, "w/a-[1920x1080][1].jpg");
}

#[test]
fn small_sizes_converge_on_a_second_run() {
    let first = plan_actions(vec![candidate("w/icon.png", "icon", 64, 64, "png")], &TargetMode::InPlace, Vec::new());
    let renamed = parts(&first[0]).2;
    assert_eq!(renamed, "w/icon-[64x64].png");
    let again = process_file(renamed, Some(dims(64, 64))).unwrap();
    assert_eq!(again.cleaned_name, "icon");
    assert!(plan_actions(vec![again], &TargetMode::InPlace, Vec::new()).is_empty());
}

#[test]
fn a_name_made_only_of_noise_converges_too() {
    let c = process_file("w/1920x1080.jpg".to_string(), Some(dims(1920, 1080))).unwrap();
    assert_eq!(c.cleaned_name, "1920x1080");
    let first = plan_actions(vec![c], &TargetMode::InPlace, Vec::new());
    let renamed = parts(&first[0]).2;
    assert_eq!(renamed, "w/1920x1080-[1920x1080].jpg");
    assert_eq!(clean_stem("1920x1080-[1920x1080]"), "1920x1080");
    let again = process_file(renamed, Some(dims(1920, 1080))).unwrap();
    assert!(plan_actions(vec![again], &TargetMode::InPlace, Vec::new()).is_empty());
}

#[test]
fn a_counted_name_is_left_alone_in_place() {
    let c = process_file("w/a-[10x20][1].png".to_string(), Some(dims(10, 20))).unwrap();
    assert_eq!(c.cleaned_name, "a");
    assert!(plan_actions(vec![c], &TargetMode::InPlace, Vec::new()).is_empty());
    let other = process_file("w/a-[10x20][1].png".to_string(), Some(dims(30, 20))).unwrap();
    let acts = plan_actions(vec![other], &TargetMode::InPlace, Vec::new());
    assert_eq!(parts(&acts[0]).2, "w/a-[30x20].png");
}

#[test]
fn resolutions_may_be_spaced_without_an_x() {
    assert!(noise_is_match("1920 1080"));
    assert_eq!(strip_noise("wall 1920 1080"), "wall ");
    assert_eq!(clean_stem("wall 1920 1080"), "wall");
}

#[test]
fn digit_runs_lose_ten_digits_at_most() {
    assert_eq!(strip_noise("a_1234567890123456"), "a_123456");
    assert_eq!(strip_noise("1920x1080.12345678901234"), "1234");
    // Cleaning repeats: the six digits kept by the first step go in the next.
    assert_eq!(clean_stem("IMG_1234567890123456"), "IMG");
    assert_eq!(clean_stem("12345678901"), "1");
    assert_eq!(clean_stem("1234567"), "1234567");
}

#[test]
fn digit_runs_are_noise_in_stems() {
    assert_eq!(clean_stem("Movie.12345678.mkv"), "Movie..mkv");
    assert_eq!(clean_stem("scene-9876543210-final.jpg"), "scene--final.jpg");
    assert_eq!(clean_stem("ID_1234567890"), "ID");
    assert_eq!(clean_stem("photo12345678more"), "photomore");
    assert_eq!(clean_stem("photo 123456"), "photo");
    assert_eq!(strip_noise("(1280 x 720) 5555555555"), "() 5555555555");
}

#[test]
fn a_changed_name_is_trimmed() {
    assert_eq!(clean_stem("--[1x1]"), "1x1");
    assert_eq!(clean_stem("-a-[5x5]"), "a");
    assert_eq!(clean_stem("--"), "--");
    for stem in ["--[1x1]", "x_-[10x10]", "_a (1)", "[1920x1080] b", "--"] {
        let r = clean_stem(stem);
        assert!(!r.is_empty());
        let seps: &[char] = &[' ', '-', '_', '[', ']', '(', ')'];
        assert!(r == stem || (!r.starts_with(seps) && !r.ends_with(seps)), "{} -> {}", stem, r);
    }
}

#[test]
fn names_with_colons_and_backslashes_get_free_targets() {
    let taken = vec!["w/a:b-[1x1].png".to_string(), "w/a:b-[1x1][1].png".to_string()];
    assert_eq!(free_target_path("w", "a:b-[1x1]", "png", &taken), Some("w/a:b-[1x1][2].png".to_string()));
    let taken = vec!["w/c\\d-[1x1].png".to_string()];
    assert_eq!(free_target_path("w", "c\\d-[1x1]", "png", &taken), Some("w/c\\d-[1x1][1].png".to_string()));
    let cands = vec![
        candidate("w/a:b.png", "a:b", 1, 1, "png"),
        candidate("w/a:b (1).png", "a:b", 1, 1, "png"),
    ];
    let acts = plan_actions(cands, &TargetMode::InPlace, vec!["w/a:b-[1x1].png".to_string()]);
    let tos: Vec<String> = acts.iter().map(|a| parts(a).2).collect();
    assert_eq!(tos, vec!["w/a:b-[1x1][1].png", "w/a:b-[1x1][2].png"]);
}

#[test]
fn unicode_digits_and_spaces_count() {
    assert!(noise_is_match("\u{0661}\u{0669}\u{0662}\u{0660}x\u{0661}\u{0660}\u{0668}\u{0660}"));
    assert_eq!(strip_noise("a\u{3000}1920x1080"), "a\u{3000}");
    assert_eq!(strip_noise("trip\u{00a0}(2)"), "trip");
}

#[test]
fn separators_other_than_space_or_dot_stay_between_resolution_and_id() {
    assert_eq!(strip_noise("x-[1920x1080]-12345678"), "x--");
    assert_eq!(strip_noise("x_1920x1080_12345678"), "x__");
    assert_eq!(strip_noise("x 1920x1080.12345678"), "x ");
}
