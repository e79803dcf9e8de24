use mrn::model::DEFAULT_EXTENSIONS;
use mrn::noise::{noise_is_match, strip_noise};

fn re_clean_is_match(text: &str) -> bool {
    noise_is_match(text)
}

fn re_clean_replace_all(text: &str) -> String {
    strip_noise(text)
}

#[test]
fn test_re_clean_matches_resolutions() {
    let cases = vec![
        "1920x1080",
        "1920 X 1080",
        "3840×2160", // Unicode multiply sign
        "[1920x1080]",
        "(  1280  x  720  )",
        "  4096  ×  2160  ",
        "[3840 x 2160]",
        "(2560×1440",
        "1920x1080)",
        "Test.1920x1080.BluRay.mkv",
    ];

    for case in cases {
        assert!(re_clean_is_match(case), "Should match resolution: {}", case);
    }
}

#[test]
fn test_re_clean_matches_digit_runs() {
    // A run of six or more digits is noise unless it follows white space right after `)`.
    let cases = vec![
        "123456", // 6 digits
        "1234567",
        "9876543210", // 10 digits
        "0000123456",
        "Movie.12345678.mkv",
        "scene-9876543210-final.jpg",
        "ID_1234567890",
        "photo12345678more", // embedded digit run (no word boundary needed)
        "12345678901",       // 11-digit run still matches a 6-10 substring
    ];

    for case in cases {
        assert!(re_clean_is_match(case), "Should match digit run: {}", case);
    }
}

#[test]
fn test_re_clean_does_not_match() {
    let cases = vec![
        "1080p", // common but only 4 digits
        "720",
        "4k",
        "12345",     // too short (5 digits)
        "abc123def", // 3 digits
        "version.1.2.3",
        "99x99",          // dimensions too small
        "photo12345more", // 5-digit run
    ];

    for case in cases {
        assert!(!re_clean_is_match(case), "Should NOT match: {}", case);
    }
}

#[test]
fn test_re_clean_replace_all_cleaning() {
    let test_cases = vec![
        ("Amazing.Scene.1920x1080.1234567890.HDR.mkv", "Amazing.Scene..HDR.mkv"),
        ("Show.S01E01.[3840×2160] ID-9876543210 2024", "Show.S01E01. ID- 2024"),
        (
            "Cool.Movie.(1280 x 720) 5555555555.jpg",
            "Cool.Movie.() 5555555555.jpg", // a digit run after white space is kept
        ),
        ("No.Junk.Here.png", "No.Junk.Here.png"),
        ("123456-video-2560x1440-final-version.webm", "-video--final-version.webm"),
    ];

    for (input, expected) in test_cases {
        let cleaned = re_clean_replace_all(input);
        assert_eq!(cleaned, expected, "Cleaning failed for: {}", input);
    }
}

#[test]
fn test_re_clean_multiple_matches() {
    let input = "Video 1920x1080 12345678 [3840×2160] 9876543210";
    let cleaned = re_clean_replace_all(input);
    assert_eq!(cleaned, "Video  ");
}

#[test]
fn test_re_clean_with_default_extensions_context() {
    // Noise removal is often used together with extensions (e.g. only clean image
    // filenames). It does not itself care about extensions.
    let filename = "photo.1920x1080.1234567890.jpg";
    let cleaned = re_clean_replace_all(filename);

    // After cleaning you would typically check the extension
    let ext = cleaned.rsplit('.').next().unwrap_or("").to_lowercase();

    assert!(DEFAULT_EXTENSIONS.contains(&ext.as_str()));
    assert_eq!(cleaned, "photo..jpg");
}

#[test]
fn strip_noise_changes_exactly_the_matching_texts() {
    for case in ["1920x1080", "ID_1234567890", "[3840 x 2160]"] {
        assert_ne!(re_clean_replace_all(case), case);
    }
    for case in ["1080p", "99x99", "photo12345more", "Clip) 5555555555"] {
        assert_eq!(re_clean_replace_all(case), case);
    }
}
