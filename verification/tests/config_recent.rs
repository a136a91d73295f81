use paperlite::backend::WallpaperMode;
use paperlite::config::AppConfig;

fn strings(v: &[&str]) -> Vec<String> {
    v.iter().map(|s| s.to_string()).collect()
}

fn config_with(recent: &[&str]) -> AppConfig {
    let mut c = AppConfig::with_last_folder(None);
    c.recent_folders = strings(recent);
    c
}

#[test]
fn first_run_defaults() {
    let c = AppConfig::with_last_folder(Some("/home/u/Pictures".to_string()));
    assert_eq!(c.last_folder, Some("/home/u/Pictures".to_string()));
    assert!(c.recent_folders.is_empty());
    assert_eq!(c.default_mode, WallpaperMode::Fill);
    assert!(!c.recursive_scan);
    let c = AppConfig::with_last_folder(None);
    assert_eq!(c.last_folder, None);
}

#[test]
fn add_recent_puts_folder_first() {
    let mut c = config_with(&["/a", "/b"]);
    c.add_recent("/c".to_string());
    assert_eq!(c.recent_folders, strings(&["/c", "/a", "/b"]));
    assert_eq!(c.last_folder, Some("/c".to_string()));
}

#[test]
fn add_recent_moves_existing_folder_to_front() {
    let mut c = config_with(&["/a", "/b", "/c"]);
    c.add_recent("/b".to_string());
    assert_eq!(c.recent_folders, strings(&["/b", "/a", "/c"]));
}

#[test]
fn add_recent_removes_every_copy() {
    let mut c = config_with(&["/a", "/x", "/b", "/x"]);
    c.add_recent("/x".to_string());
    assert_eq!(c.recent_folders, strings(&["/x", "/a", "/b"]));
}

#[test]
fn add_recent_keeps_eight() {
    let mut c = config_with(&["/1", "/2", "/3", "/4", "/5", "/6", "/7", "/8"]);
    c.add_recent("/9".to_string());
    assert_eq!(c.recent_folders, strings(&["/9", "/1", "/2", "/3", "/4", "/5", "/6", "/7"]));
    assert_eq!(c.recent_folders.len(), 8);
}

#[test]
fn add_recent_twice_is_once() {
    let mut c = config_with(&["/a", "/b", "/c"]);
    c.add_recent("/b".to_string());
    let once = c.recent_folders.clone();
    c.add_recent("/b".to_string());
    assert_eq!(c.recent_folders, once);
}

#[test]
fn add_recent_keeps_other_settings() {
    let mut c = config_with(&[]);
    c.default_mode = WallpaperMode::Tile;
    c.recursive_scan = true;
    c.add_recent("/pics".to_string());
    assert_eq!(c.default_mode, WallpaperMode::Tile);
    assert!(c.recursive_scan);
    assert_eq!(c.recent_folders, strings(&["/pics"]));
}
