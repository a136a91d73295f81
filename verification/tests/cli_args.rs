use paperlite::backend::WallpaperMode;
use paperlite::cli::{parse_args, CliCommand};

fn args(v: &[&str]) -> Vec<String> {
    v.iter().map(|s| s.to_string()).collect()
}

#[test]
fn no_arguments_opens_gallery() {
    assert!(matches!(parse_args(&args(&["paperlite"])), CliCommand::Launch { candidate: None }));
    assert!(matches!(parse_args(&args(&[])), CliCommand::Launch { candidate: None }));
}

#[test]
fn help_flags() {
    assert!(matches!(parse_args(&args(&["paperlite", "--help"])), CliCommand::ShowHelp));
    assert!(matches!(parse_args(&args(&["paperlite", "-h", "x"])), CliCommand::ShowHelp));
}

#[test]
fn apply_without_path_is_an_error() {
    assert!(matches!(parse_args(&args(&["paperlite", "--apply"])), CliCommand::ApplyMissingPath));
    assert!(matches!(parse_args(&args(&["paperlite", "-a"])), CliCommand::ApplyMissingPath));
}

#[test]
fn apply_with_default_mode() {
    match parse_args(&args(&["paperlite", "--apply", "/p/sunset.jpg"])) {
        CliCommand::Apply { path, mode } => {
            assert_eq!(path, "/p/sunset.jpg");
            assert_eq!(mode, WallpaperMode::Fill);
        }
        _ => panic!("expected apply"),
    }
}

#[test]
fn apply_with_mode() {
    match parse_args(&args(&["paperlite", "-a", "img.png", "--mode", "FIT"])) {
        CliCommand::Apply { path, mode } => {
            assert_eq!(path, "img.png");
            assert_eq!(mode, WallpaperMode::Fit);
        }
        _ => panic!("expected apply"),
    }
    match parse_args(&args(&["paperlite", "--apply", "img.png", "-m", "tile"])) {
        CliCommand::Apply { mode, .. } => assert_eq!(mode, WallpaperMode::Tile),
        _ => panic!("expected apply"),
    }
    match parse_args(&args(&["paperlite", "--apply", "img.png", "-m", "zoom"])) {
        CliCommand::Apply { mode, .. } => assert_eq!(mode, WallpaperMode::Fill),
        _ => panic!("expected apply"),
    }
}

#[test]
fn apply_mode_flag_without_value_is_ignored() {
    match parse_args(&args(&["paperlite", "--apply", "img.png", "--mode"])) {
        CliCommand::Apply { mode, .. } => assert_eq!(mode, WallpaperMode::Fill),
        _ => panic!("expected apply"),
    }
    match parse_args(&args(&["paperlite", "--apply", "img.png", "--fit", "stretch"])) {
        CliCommand::Apply { mode, .. } => assert_eq!(mode, WallpaperMode::Fill),
        _ => panic!("expected apply"),
    }
}

#[test]
fn folder_argument_is_a_candidate() {
    match parse_args(&args(&["paperlite", "C:\\Users\\User\\Pictures"])) {
        CliCommand::Launch { candidate: Some(p) } => assert_eq!(p, "C:\\Users\\User\\Pictures"),
        _ => panic!("expected launch"),
    }
}
