use paperlite::paths::is_image_file;
use paperlite::scanner::{scan_directory, scan_max_depth, ScanEntry, WallpaperItem};

fn item(size: u64, dims: Option<(u32, u32)>) -> WallpaperItem {
    WallpaperItem {
        path: "/p/a.png".to_string(),
        name: "a.png".to_string(),
        size_bytes: size,
        modified: 0,
        dimensions: dims,
    }
}

#[test]
fn sizes_in_kilobytes() {
    assert_eq!(item(0, None).formatted_size(), "0.0 KB");
    assert_eq!(item(512, None).formatted_size(), "0.5 KB");
    assert_eq!(item(1536, None).formatted_size(), "1.5 KB");
    assert_eq!(item(1000, None).formatted_size(), "1.0 KB");
    assert_eq!(item(1048575, None).formatted_size(), "1024.0 KB");
}

#[test]
fn sizes_round_half_to_even() {
    // 256 B is 0.25 KiB and 768 B is 0.75 KiB, exactly
    assert_eq!(item(256, None).formatted_size(), "0.2 KB");
    assert_eq!(item(768, None).formatted_size(), "0.8 KB");
}

#[test]
fn sizes_in_megabytes() {
    assert_eq!(item(1048576, None).formatted_size(), "1.00 MB");
    assert_eq!(item(3407872, None).formatted_size(), "3.25 MB");
    assert_eq!(item(5 * 1024 * 1024 + 10, None).formatted_size(), "5.00 MB");
    assert_eq!(item(u64::MAX, None).formatted_size(), "17592186044416.00 MB");
}

#[test]
fn dimension_badges() {
    assert_eq!(item(0, Some((3840, 2160))).formatted_dimensions(), "3840x2160 (4K)");
    assert_eq!(item(2560, Some((2560, 1440))).formatted_dimensions(), "2560x1440 (2K)");
    assert_eq!(item(0, Some((3440, 1440))).formatted_dimensions(), "3440x1440 (2K)");
    assert_eq!(item(0, Some((1920, 1080))).formatted_dimensions(), "1920x1080 (FHD)");
    assert_eq!(item(0, Some((2560, 1080))).formatted_dimensions(), "2560x1080 (FHD)");
    assert_eq!(item(0, Some((1000, 400))).formatted_dimensions(), "1000x400 (UW)");
    assert_eq!(item(0, Some((800, 400))).formatted_dimensions(), "800x400");
    assert_eq!(item(0, Some((1280, 720))).formatted_dimensions(), "1280x720");
    assert_eq!(item(0, Some((5, 0))).formatted_dimensions(), "5x0 (UW)");
    assert_eq!(item(0, Some((0, 0))).formatted_dimensions(), "0x0");
    assert_eq!(item(0, None).formatted_dimensions(), "Loading...");
}

#[test]
fn aspect_ratio_names() {
    assert_eq!(item(0, Some((1920, 1080))).aspect_ratio_str(), "16:9");
    assert_eq!(item(0, Some((1920, 1200))).aspect_ratio_str(), "16:10");
    assert_eq!(item(0, Some((2560, 1080))).aspect_ratio_str(), "21:9 Ultrawide");
    assert_eq!(item(0, Some((5120, 1440))).aspect_ratio_str(), "32:9 Super Ultrawide");
    assert_eq!(item(0, Some((1024, 768))).aspect_ratio_str(), "4:3");
    assert_eq!(item(0, Some((1000, 1000))).aspect_ratio_str(), "1:1 Square");
    assert_eq!(item(0, Some((1080, 1920))).aspect_ratio_str(), "Portrait");
    assert_eq!(item(0, Some((0, 5))).aspect_ratio_str(), "Portrait");
}

#[test]
fn aspect_ratio_numbers() {
    assert_eq!(item(0, Some((1500, 1000))).aspect_ratio_str(), "1.50:1");
    assert_eq!(item(0, Some((3000, 1000))).aspect_ratio_str(), "3.00:1");
    // 1.125 and 1.875 are exact: ties round to the even digit
    assert_eq!(item(0, Some((9, 8))).aspect_ratio_str(), "1.12:1");
    assert_eq!(item(0, Some((15, 8))).aspect_ratio_str(), "1.88:1");
    assert_eq!(item(0, Some((4_000_000_000, 1))).aspect_ratio_str(), "4000000000.00:1");
}

#[test]
fn aspect_ratio_tolerance_edges() {
    // exactly 0.05 above 16/9: the floating-point difference is not below 0.05
    assert_eq!(item(0, Some((329, 180))).aspect_ratio_str(), "1.83:1");
    // exactly 0.05 below 16/9: the floating-point difference is below 0.05
    assert_eq!(item(0, Some((311, 180))).aspect_ratio_str(), "16:9");
}

#[test]
fn aspect_ratio_unknown() {
    assert_eq!(item(0, None).aspect_ratio_str(), "Unknown");
    assert_eq!(item(0, Some((1920, 0))).aspect_ratio_str(), "Unknown");
}

#[test]
fn aspect_ratio_depends_on_ratio_only() {
    assert_eq!(
        item(0, Some((16, 9))).aspect_ratio_str(),
        item(0, Some((3840, 2160))).aspect_ratio_str()
    );
    assert_eq!(
        item(0, Some((9, 8))).aspect_ratio_str(),
        item(0, Some((900, 800))).aspect_ratio_str()
    );
}

#[test]
fn image_extensions() {
    assert!(is_image_file("a.png"));
    assert!(is_image_file("A.JPEG"));
    assert!(is_image_file("x/y.Jpg"));
    assert!(is_image_file("dir/b.Webp"));
    assert!(is_image_file("/w/c.bmp"));
    assert!(is_image_file("a.tar.bmp"));
    assert!(!is_image_file("x.gif"));
    assert!(!is_image_file("a.png.txt"));
    assert!(!is_image_file("noext"));
    assert!(!is_image_file(""));
    assert!(!is_image_file("/"));
    assert!(!is_image_file("dir.png/file"));
}

#[test]
fn image_extension_edge_names() {
    // a leading dot is part of the name, not an extension
    assert!(!is_image_file(".png"));
    assert!(!is_image_file("/p/.jpg"));
    assert!(is_image_file("..png"));
    // trailing separators and `.` components are skipped; `..` has no name
    assert!(is_image_file("photo.png/"));
    assert!(is_image_file("photo.png/."));
    assert!(is_image_file("photo.png//./"));
    assert!(!is_image_file("photo.png/.."));
    assert!(!is_image_file("a."));
}

#[test]
fn scan_depths() {
    assert_eq!(scan_max_depth(true), 10);
    assert_eq!(scan_max_depth(false), 1);
}

fn entry(path: &str, is_file: bool, size: Option<u64>, modified: Option<i128>) -> ScanEntry {
    ScanEntry { path: path.to_string(), is_file, size_bytes: size, modified, dimensions: None }
}

#[test]
fn scan_keeps_image_files_in_order() {
    let mut e = vec![
        entry("/w", false, Some(4096), Some(5)),
        entry("/w/b.png", true, Some(100), Some(7)),
        entry("/w/notes.txt", true, Some(3), Some(1)),
        entry("/w/sub.jpg", false, None, None),
        entry("/w/a.JPG", true, None, None),
    ];
    e[4].dimensions = Some((640, 480));
    let items = scan_directory(&e);
    assert_eq!(items.len(), 2);
    assert_eq!(items[0].path, "/w/b.png");
    assert_eq!(items[0].name, "b.png");
    assert_eq!(items[0].size_bytes, 100);
    assert_eq!(items[0].modified, 7);
    assert_eq!(items[0].dimensions, None);
    assert_eq!(items[1].path, "/w/a.JPG");
    assert_eq!(items[1].name, "a.JPG");
    assert_eq!(items[1].size_bytes, 0);
    assert_eq!(items[1].modified, 0);
    assert_eq!(items[1].dimensions, Some((640, 480)));
}

#[test]
fn scan_of_nothing() {
    assert!(scan_directory(&Vec::new()).is_empty());
}
