use paperlite::display::{
    card_title, folder_label, grid_position, grid_rows, no_match_message, status_line, summary,
};

#[test]
fn card_titles() {
    assert_eq!(card_title("short.png"), "short.png");
    assert_eq!(card_title("exactly_22_bytes_x.png"), "exactly_22_bytes_x.png");
    assert_eq!(card_title("a_rather_long_wallpaper_name.png"), "a_rather_long_wallp...");
    // 'é' takes two bytes: 17 ASCII bytes + é ends at byte 19
    assert_eq!(card_title("abcdefghijklmnopqéstuvwxyz.png"), "abcdefghijklmnopqé...");
}

#[test]
fn folder_labels() {
    assert_eq!(folder_label("/home/u/Pictures"), "/home/u/Pictures");
    let long = "/home/user/Pictures/Wallpapers/Landscapes/Mountains";
    assert_eq!(long.len(), 51);
    assert_eq!(folder_label(long), format!("...{}", &long[14..]));
}

#[test]
fn status_lines() {
    assert_eq!(status_line("Wallpaper set", false), "[OK] Wallpaper set");
    assert_eq!(status_line("No such file", true), "[X] No such file");
}

#[test]
fn counts_and_notices() {
    assert_eq!(summary(3, 10), "Showing 3 of 10 wallpapers");
    assert_eq!(summary(0, 0), "Showing 0 of 0 wallpapers");
    assert_eq!(no_match_message("cat"), "No wallpapers matched 'cat'");
}

#[test]
fn grid_shape() {
    assert_eq!(grid_rows(0, 4), 0);
    assert_eq!(grid_rows(1, 4), 1);
    assert_eq!(grid_rows(8, 4), 2);
    assert_eq!(grid_rows(9, 4), 3);
    assert_eq!(grid_position(2, 1, 4, 10), Some(9));
    assert_eq!(grid_position(2, 2, 4, 10), None);
}
