use paperlite::backend::WallpaperMode;
use paperlite::config::AppConfig;
use paperlite::gallery::{LaunchTarget, WallpaperApp};
use paperlite::ordering::SortOption;
use paperlite::scanner::WallpaperItem;

fn item(name: &str, size: u64, modified: i128) -> WallpaperItem {
    WallpaperItem {
        path: format!("/w/{}", name),
        name: name.to_string(),
        size_bytes: size,
        modified,
        dimensions: None,
    }
}

fn sample() -> Vec<WallpaperItem> {
    vec![
        item("beach.png", 300, 20),
        item("Sunset.jpg", 100, 30),
        item("aurora.png", 200, 10),
        item("sunrise.webp", 300, 30),
    ]
}

fn opened() -> (WallpaperApp, Option<String>) {
    let mut app = WallpaperApp::new(AppConfig::with_last_folder(None), None);
    let job = app.load_folder("/w".to_string(), sample());
    (app, job)
}

#[test]
fn sort_labels() {
    assert_eq!(SortOption::NameAsc.as_str(), "Name (A-Z)");
    assert_eq!(SortOption::NameDesc.as_str(), "Name (Z-A)");
    assert_eq!(SortOption::DateNewest.as_str(), "Date (Newest)");
    assert_eq!(SortOption::DateOldest.as_str(), "Date (Oldest)");
    assert_eq!(SortOption::SizeLargest.as_str(), "Size (Largest)");
    assert_eq!(SortOption::ALL.len(), 5);
    assert_eq!(SortOption::ALL[0], SortOption::NameAsc);
}

#[test]
fn new_gallery_is_empty() {
    let mut config = AppConfig::with_last_folder(None);
    config.default_mode = WallpaperMode::Fit;
    let app = WallpaperApp::new(config, Some("/w".to_string()));
    assert_eq!(app.current_dir(), &Some("/w".to_string()));
    assert!(app.items().is_empty());
    assert!(app.filtered_indices().is_empty());
    assert_eq!(app.selected_index(), None);
    assert_eq!(app.selected_mode(), WallpaperMode::Fit);
    assert_eq!(app.sort_by(), SortOption::NameAsc);
    assert_eq!(app.search_query(), "");
    assert!(app.status_message().is_none());
}

#[test]
fn launch_locations() {
    let last = Some("/last".to_string());
    assert_eq!(
        WallpaperApp::launch_location(LaunchTarget::Directory("/d".to_string()), last.clone()),
        (Some("/d".to_string()), None)
    );
    assert_eq!(
        WallpaperApp::launch_location(
            LaunchTarget::File { file: "/d/a.png".to_string(), parent: Some("/d".to_string()) },
            last.clone()
        ),
        (Some("/d".to_string()), Some("/d/a.png".to_string()))
    );
    assert_eq!(WallpaperApp::launch_location(LaunchTarget::Nothing, last.clone()), (last, None));
}

#[test]
fn load_folder_sorts_by_name_and_selects_first() {
    let (app, job) = opened();
    // names compared lower-cased: aurora, beach, sunrise, sunset
    assert_eq!(app.filtered_indices(), &vec![2, 0, 3, 1]);
    assert_eq!(app.selected_index(), Some(2));
    assert_eq!(job, Some("/w/aurora.png".to_string()));
    assert_eq!(app.loading_preview(), &Some("/w/aurora.png".to_string()));
    assert_eq!(app.current_dir(), &Some("/w".to_string()));
    assert_eq!(app.config().last_folder, Some("/w".to_string()));
    assert_eq!(app.config().recent_folders, vec!["/w".to_string()]);
}

#[test]
fn load_empty_folder() {
    let mut app = WallpaperApp::new(AppConfig::with_last_folder(None), None);
    let job = app.load_folder("/empty".to_string(), Vec::new());
    assert_eq!(job, None);
    assert_eq!(app.selected_index(), None);
    assert!(app.filtered_indices().is_empty());
}

#[test]
fn sort_orders() {
    let (mut app, _) = opened();
    app.set_sort_by(SortOption::NameDesc);
    app.apply_sort_and_filter();
    assert_eq!(app.filtered_indices(), &vec![1, 3, 0, 2]);
    app.set_sort_by(SortOption::DateNewest);
    app.apply_sort_and_filter();
    // equal times keep scan order
    assert_eq!(app.filtered_indices(), &vec![1, 3, 0, 2]);
    app.set_sort_by(SortOption::DateOldest);
    app.apply_sort_and_filter();
    assert_eq!(app.filtered_indices(), &vec![2, 0, 1, 3]);
    app.set_sort_by(SortOption::SizeLargest);
    app.apply_sort_and_filter();
    assert_eq!(app.filtered_indices(), &vec![0, 3, 2, 1]);
}

#[test]
fn search_ignores_case_and_outer_space() {
    let (mut app, _) = opened();
    app.set_search_query("  SUN ".to_string());
    app.apply_sort_and_filter();
    assert_eq!(app.filtered_indices(), &vec![3, 1]);
    app.set_search_query("png".to_string());
    app.apply_sort_and_filter();
    assert_eq!(app.filtered_indices(), &vec![2, 0]);
    app.set_search_query("   ".to_string());
    app.apply_sort_and_filter();
    assert_eq!(app.filtered_indices().len(), 4);
    app.set_search_query("zzz".to_string());
    app.apply_sort_and_filter();
    assert!(app.filtered_indices().is_empty());
}

#[test]
fn selection_follows_the_filter() {
    let (mut app, _) = opened();
    assert_eq!(app.selected_index(), Some(2));
    app.preview_loaded("/w/aurora.png".to_string());
    // aurora is hidden: the first shown item is selected and previewed
    app.set_search_query("sun".to_string());
    let job = app.apply_sort_and_filter();
    assert_eq!(app.selected_index(), Some(3));
    assert_eq!(job, Some("/w/sunrise.webp".to_string()));
    // still shown: the selection stays, nothing to load
    app.set_search_query("sunrise".to_string());
    let job = app.apply_sort_and_filter();
    assert_eq!(app.selected_index(), Some(3));
    assert_eq!(job, None);
    // nothing shown: no selection
    app.set_search_query("nothing".to_string());
    let job = app.apply_sort_and_filter();
    assert_eq!(app.selected_index(), None);
    assert_eq!(job, None);
    // no selection stays none
    app.set_search_query("".to_string());
    app.apply_sort_and_filter();
    assert_eq!(app.selected_index(), None);
}

#[test]
fn previews_are_requested_once() {
    let (mut app, _) = opened();
    app.preview_loaded("/w/aurora.png".to_string());
    assert_eq!(app.preview_path(), &Some("/w/aurora.png".to_string()));
    assert_eq!(app.request_preview("/w/aurora.png".to_string()), None);
    assert_eq!(app.request_preview("/w/beach.png".to_string()), Some("/w/beach.png".to_string()));
    assert_eq!(app.loading_preview(), &Some("/w/beach.png".to_string()));
}

#[test]
fn select_items_and_files() {
    let (mut app, _) = opened();
    let job = app.select_item(1);
    assert_eq!(app.selected_index(), Some(0));
    assert_eq!(job, Some("/w/beach.png".to_string()));
    let job = app.select_item(9);
    assert_eq!(app.selected_index(), Some(0));
    assert_eq!(job, None);
    let job = app.select_file("/w/Sunset.jpg");
    assert_eq!(app.selected_index(), Some(1));
    assert_eq!(job, Some("/w/Sunset.jpg".to_string()));
    let job = app.select_file("/elsewhere/x.png");
    assert_eq!(app.selected_index(), Some(1));
    assert_eq!(job, None);
}

#[test]
fn apply_uses_selection_and_mode() {
    let (mut app, _) = opened();
    app.set_selected_mode(WallpaperMode::Center);
    assert_eq!(app.config().default_mode, WallpaperMode::Center);
    assert_eq!(
        app.wallpaper_to_apply(),
        Some(("/w/aurora.png".to_string(), WallpaperMode::Center))
    );
    app.record_apply_result(Ok("done".to_string()));
    assert_eq!(app.status_message(), &Some(("done".to_string(), false)));
    app.record_apply_result(Err("failed".to_string()));
    assert_eq!(app.status_message(), &Some(("failed".to_string(), true)));
    app.clear_status();
    assert!(app.status_message().is_none());
    let empty = WallpaperApp::new(AppConfig::with_last_folder(None), None);
    assert_eq!(empty.wallpaper_to_apply(), None);
}

#[test]
fn recursive_setting() {
    let (mut app, _) = opened();
    app.set_recursive_scan(true);
    assert!(app.config().recursive_scan);
}

#[test]
fn name_desc_is_name_asc_backwards() {
    let (mut app, _) = opened();
    app.set_sort_by(SortOption::NameAsc);
    app.apply_sort_and_filter();
    let mut asc = app.filtered_indices().clone();
    app.set_sort_by(SortOption::NameDesc);
    app.apply_sort_and_filter();
    asc.reverse();
    assert_eq!(app.filtered_indices(), &asc);
}
