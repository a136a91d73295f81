use paperlite::backend::{plan_windows_wallpaper, windows_outcome, WallpaperMode};

#[test]
fn mode_labels() {
    assert_eq!(WallpaperMode::Fill.as_str(), "Fill");
    assert_eq!(WallpaperMode::Fit.as_str(), "Fit");
    assert_eq!(WallpaperMode::Stretch.as_str(), "Stretch");
    assert_eq!(WallpaperMode::Center.as_str(), "Center");
    assert_eq!(WallpaperMode::Tile.as_str(), "Tile");
}

#[test]
fn swaybg_names() {
    assert_eq!(WallpaperMode::Fill.to_swaybg_mode(), "fill");
    assert_eq!(WallpaperMode::Fit.to_swaybg_mode(), "fit");
    assert_eq!(WallpaperMode::Stretch.to_swaybg_mode(), "stretch");
    assert_eq!(WallpaperMode::Center.to_swaybg_mode(), "center");
    assert_eq!(WallpaperMode::Tile.to_swaybg_mode(), "tile");
}

#[test]
fn swaybg_name_is_lowercase_label() {
    for m in WallpaperMode::ALL {
        assert_eq!(m.as_str().to_lowercase(), m.to_swaybg_mode());
    }
}

#[test]
fn all_modes_listed_once() {
    let all = WallpaperMode::ALL;
    assert_eq!(all.len(), 5);
    for i in 0..all.len() {
        for j in 0..all.len() {
            assert_eq!(i == j, all[i] == all[j]);
        }
    }
    assert_eq!(all[0], WallpaperMode::Fill);
}

#[test]
fn parse_mode_names() {
    assert_eq!(WallpaperMode::parse_name("fit"), WallpaperMode::Fit);
    assert_eq!(WallpaperMode::parse_name("FIT"), WallpaperMode::Fit);
    assert_eq!(WallpaperMode::parse_name("Stretch"), WallpaperMode::Stretch);
    assert_eq!(WallpaperMode::parse_name("cEnTeR"), WallpaperMode::Center);
    assert_eq!(WallpaperMode::parse_name("tile"), WallpaperMode::Tile);
    assert_eq!(WallpaperMode::parse_name("fill"), WallpaperMode::Fill);
    assert_eq!(WallpaperMode::parse_name("zoom"), WallpaperMode::Fill);
    assert_eq!(WallpaperMode::parse_name(""), WallpaperMode::Fill);
    assert_eq!(WallpaperMode::parse_name(" fit"), WallpaperMode::Fill);
}

#[test]
fn mode_names_parse_back() {
    for m in WallpaperMode::ALL {
        assert_eq!(WallpaperMode::parse_name(m.to_swaybg_mode()), m);
        assert_eq!(WallpaperMode::parse_name(m.as_str()), m);
    }
}

#[test]
fn registry_values() {
    assert_eq!(WallpaperMode::Fill.windows_registry_values(), ("10", "0"));
    assert_eq!(WallpaperMode::Fit.windows_registry_values(), ("6", "0"));
    assert_eq!(WallpaperMode::Stretch.windows_registry_values(), ("2", "0"));
    assert_eq!(WallpaperMode::Center.windows_registry_values(), ("0", "0"));
    assert_eq!(WallpaperMode::Tile.windows_registry_values(), ("0", "1"));
}

#[test]
fn plan_missing_file() {
    match plan_windows_wallpaper("C:/pics/a.png", false, WallpaperMode::Fill) {
        Err(msg) => assert_eq!(msg, "File does not exist: C:/pics/a.png"),
        Ok(_) => panic!("a missing file must be refused"),
    }
}

#[test]
fn plan_converts_webp_and_avif() {
    let p = plan_windows_wallpaper("/pics/a.WebP", true, WallpaperMode::Tile).unwrap();
    assert!(p.convert_to_png);
    assert_eq!(p.wallpaper_style, "0");
    assert_eq!(p.tile_wallpaper, "1");
    let p = plan_windows_wallpaper("/pics/b.avif", true, WallpaperMode::Fit).unwrap();
    assert!(p.convert_to_png);
    assert_eq!(p.wallpaper_style, "6");
    let p = plan_windows_wallpaper("/pics/c.png", true, WallpaperMode::Stretch).unwrap();
    assert!(!p.convert_to_png);
    assert_eq!(p.wallpaper_style, "2");
    assert_eq!(p.tile_wallpaper, "0");
    let p = plan_windows_wallpaper("/pics/.webp", true, WallpaperMode::Fill).unwrap();
    assert!(!p.convert_to_png);
}

#[test]
fn windows_outcome_messages() {
    assert_eq!(
        windows_outcome(true, WallpaperMode::Center),
        Ok("Wallpaper set successfully on Windows (Center)".to_string())
    );
    assert_eq!(
        windows_outcome(false, WallpaperMode::Center),
        Err("Failed to set wallpaper via Windows SystemParametersInfoW API".to_string())
    );
}
