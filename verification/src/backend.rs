//! Wallpaper display modes, their names, and the decisions taken when a
//! wallpaper is set through the Windows desktop settings.
use vstd::prelude::*;
use crate::text::{ascii_ci_eq, ascii_ci_eq_range, ascii_lower, chars_of};
use crate::paths::{extension_range, path_extension};

verus! {

/// How a wallpaper image is fitted to the screen.
#[derive(Debug, Clone, Copy, PartialEq, Eq, Structural)]
pub enum WallpaperMode {
    Fill,
    Fit,
    Stretch,
    Center,
    Tile,
}

impl WallpaperMode {
    /// Every mode, in the order the settings offer them.
    pub const ALL: [WallpaperMode; 5] = [
        WallpaperMode::Fill,
        WallpaperMode::Fit,
        WallpaperMode::Stretch,
        WallpaperMode::Center,
        WallpaperMode::Tile,
    ];

    /// The name shown to the user.
    pub open spec fn label(self) -> Seq<char> {
        match self {
            WallpaperMode::Fill => "Fill"@,
            WallpaperMode::Fit => "Fit"@,
            WallpaperMode::Stretch => "Stretch"@,
            WallpaperMode::Center => "Center"@,
            WallpaperMode::Tile => "Tile"@,
        }
    }

    pub fn as_str(&self) -> (r: &'static str)
        ensures
            r@ == self.label(),
    {
        match self {
            WallpaperMode::Fill => "Fill",
            WallpaperMode::Fit => "Fit",
            WallpaperMode::Stretch => "Stretch",
            WallpaperMode::Center => "Center",
            WallpaperMode::Tile => "Tile",
        }
    }

    /// The value of `swaybg`'s `-m` option.
    pub open spec fn swaybg_name(self) -> Seq<char> {
        match self {
            WallpaperMode::Fill => "fill"@,
            WallpaperMode::Fit => "fit"@,
            WallpaperMode::Stretch => "stretch"@,
            WallpaperMode::Center => "center"@,
            WallpaperMode::Tile => "tile"@,
        }
    }

    pub fn to_swaybg_mode(&self) -> (r: &'static str)
        ensures
            r@ == self.swaybg_name(),
    {
        match self {
            WallpaperMode::Fill => "fill",
            WallpaperMode::Fit => "fit",
            WallpaperMode::Stretch => "stretch",
            WallpaperMode::Center => "center",
            WallpaperMode::Tile => "tile",
        }
    }

    /// The mode a `--mode` argument names, compared without ASCII case;
    /// anything unknown means `Fill`.
    pub open spec fn from_name(s: Seq<char>) -> WallpaperMode {
        if ascii_ci_eq(s, "fit"@) {
            WallpaperMode::Fit
        } else if ascii_ci_eq(s, "stretch"@) {
            WallpaperMode::Stretch
        } else if ascii_ci_eq(s, "center"@) {
            WallpaperMode::Center
        } else if ascii_ci_eq(s, "tile"@) {
            WallpaperMode::Tile
        } else {
            WallpaperMode::Fill
        }
    }

    pub fn parse_name(name: &str) -> (m: WallpaperMode)
        ensures
            m == Self::from_name(name@),
    {
        let v = chars_of(name);
        let n = v.len();
        if ascii_ci_eq_range(&v, 0, n, "fit") {
            assert(v@.subrange(0, n as int) =~= name@);
            WallpaperMode::Fit
        } else if ascii_ci_eq_range(&v, 0, n, "stretch") {
            assert(v@.subrange(0, n as int) =~= name@);
            WallpaperMode::Stretch
        } else if ascii_ci_eq_range(&v, 0, n, "center") {
            assert(v@.subrange(0, n as int) =~= name@);
            WallpaperMode::Center
        } else if ascii_ci_eq_range(&v, 0, n, "tile") {
            assert(v@.subrange(0, n as int) =~= name@);
            WallpaperMode::Tile
        } else {
            assert(v@.subrange(0, n as int) =~= name@);
            WallpaperMode::Fill
        }
    }

    /// The `WallpaperStyle` and `TileWallpaper` values of the Windows desktop
    /// settings for this mode.
    pub open spec fn registry_style(self) -> (Seq<char>, Seq<char>) {
        match self {
            WallpaperMode::Fill => ("10"@, "0"@),
            WallpaperMode::Fit => ("6"@, "0"@),
            WallpaperMode::Stretch => ("2"@, "0"@),
            WallpaperMode::Center => ("0"@, "0"@),
            WallpaperMode::Tile => ("0"@, "1"@),
        }
    }

    pub fn windows_registry_values(&self) -> (r: (&'static str, &'static str))
        ensures
            (r.0@, r.1@) == self.registry_style(),
    {
        match self {
            WallpaperMode::Fill => ("10", "0"),
            WallpaperMode::Fit => ("6", "0"),
            WallpaperMode::Stretch => ("2", "0"),
            WallpaperMode::Center => ("0", "0"),
            WallpaperMode::Tile => ("0", "1"),
        }
    }
}

/// The `swaybg` mode name is the display name in small letters.
pub proof fn lemma_swaybg_name_lowercases_label(m: WallpaperMode)
    ensures
        ascii_ci_eq(m.label(), m.swaybg_name()),
{
    reveal_strlit("Fill");
    reveal_strlit("fill");
    reveal_strlit("Fit");
    reveal_strlit("fit");
    reveal_strlit("Stretch");
    reveal_strlit("stretch");
    reveal_strlit("Center");
    reveal_strlit("center");
    reveal_strlit("Tile");
    reveal_strlit("tile");
}

/// Reading back a mode's `swaybg` name or its display name gives the mode.
pub proof fn lemma_mode_names_parse_back(m: WallpaperMode)
    ensures
        WallpaperMode::from_name(m.swaybg_name()) == m,
        WallpaperMode::from_name(m.label()) == m,
{
    reveal_strlit("Fill");
    reveal_strlit("fill");
    reveal_strlit("Fit");
    reveal_strlit("fit");
    reveal_strlit("Stretch");
    reveal_strlit("stretch");
    reveal_strlit("Center");
    reveal_strlit("center");
    reveal_strlit("Tile");
    reveal_strlit("tile");
    match m {
        WallpaperMode::Fill => {
            assert(!ascii_ci_eq("fill"@, "fit"@));
            assert(!ascii_ci_eq("fill"@, "tile"@)) by {
                assert(ascii_lower("fill"@[0]) != "tile"@[0]);
            }
            assert(!ascii_ci_eq("Fill"@, "fit"@));
            assert(!ascii_ci_eq("Fill"@, "tile"@)) by {
                assert(ascii_lower("Fill"@[0]) != "tile"@[0]);
            }
        },
        WallpaperMode::Fit => {
            assert(ascii_ci_eq("fit"@, "fit"@));
            assert(ascii_ci_eq("Fit"@, "fit"@));
        },
        WallpaperMode::Stretch => {
            assert(ascii_ci_eq("stretch"@, "stretch"@));
            assert(ascii_ci_eq("Stretch"@, "stretch"@));
        },
        WallpaperMode::Center => {
            assert(ascii_ci_eq("center"@, "center"@));
            assert(ascii_ci_eq("Center"@, "center"@));
            assert(!ascii_ci_eq("center"@, "stretch"@));
            assert(!ascii_ci_eq("Center"@, "stretch"@));
        },
        WallpaperMode::Tile => {
            assert(ascii_ci_eq("tile"@, "tile"@));
            assert(ascii_ci_eq("Tile"@, "tile"@));
        },
    }
}

/// What to do to set a wallpaper through the Windows desktop settings.
pub struct WindowsWallpaperPlan {
    /// The image is first converted to PNG (formats the desktop cannot show).
    pub convert_to_png: bool,
    /// Value for `WallpaperStyle`.
    pub wallpaper_style: &'static str,
    /// Value for `TileWallpaper`.
    pub tile_wallpaper: &'static str,
}

/// The image must be converted before Windows can show it: its extension is
/// `webp` or `avif` in any ASCII case.
pub open spec fn needs_conversion(p: Seq<char>) -> bool {
    match path_extension(p) {
        Some(e) => ascii_ci_eq(e, "webp"@) || ascii_ci_eq(e, "avif"@),
        None => false,
    }
}

/// The message for a wallpaper path that does not exist.
pub open spec fn missing_file_text(path: Seq<char>) -> Seq<char> {
    "File does not exist: "@ + path
}

/// Plans setting `path` as the Windows wallpaper in `mode`; `exists` tells
/// whether the file is there.
pub fn plan_windows_wallpaper(path: &str, exists: bool, mode: WallpaperMode) -> (r: Result<
    WindowsWallpaperPlan,
    String,
>)
    ensures
        match r {
            Ok(plan) => exists && plan.convert_to_png == needs_conversion(path@) && (
            plan.wallpaper_style@,
            plan.tile_wallpaper@,
            ) == mode.registry_style(),
            Err(msg) => !exists && msg@ == missing_file_text(path@),
        },
{
    if !exists {
        let mut msg = String::new();
        msg.push_str("File does not exist: ");
        msg.push_str(path);
        return Err(msg);
    }
    let v = chars_of(path);
    let convert = match extension_range(&v) {
        None => false,
        Some((a, b)) => ascii_ci_eq_range(&v, a, b, "webp") || ascii_ci_eq_range(&v, a, b, "avif"),
    };
    let (style, tile) = mode.windows_registry_values();
    Ok(WindowsWallpaperPlan { convert_to_png: convert, wallpaper_style: style, tile_wallpaper: tile })
}

/// The outcome text once the desktop settings call returned.
pub open spec fn windows_outcome_text(succeeded: bool, mode: WallpaperMode) -> Result<
    Seq<char>,
    Seq<char>,
> {
    if succeeded {
        Ok("Wallpaper set successfully on Windows ("@ + mode.label() + ")"@)
    } else {
        Err("Failed to set wallpaper via Windows SystemParametersInfoW API"@)
    }
}

/// The result reported after the desktop settings call returned.
pub fn windows_outcome(succeeded: bool, mode: WallpaperMode) -> (r: Result<String, String>)
    ensures
        match (r, windows_outcome_text(succeeded, mode)) {
            (Ok(m), Ok(t)) => m@ == t,
            (Err(m), Err(t)) => m@ == t,
            _ => false,
        },
{
    if succeeded {
        let mut msg = String::new();
        msg.push_str("Wallpaper set successfully on Windows (");
        msg.push_str(mode.as_str());
        msg.push_str(")");
        Ok(msg)
    } else {
        let mut msg = String::new();
        msg.push_str("Failed to set wallpaper via Windows SystemParametersInfoW API");
        Err(msg)
    }
}

/// A file `base.ext` in any folder is converted before Windows shows it
/// exactly when its extension, with ASCII capitals made small, is `webp` or
/// `avif`.
pub proof fn lemma_conversion_by_extension(q: Seq<char>, base: Seq<char>, ext: Seq<char>)
    requires
        base.len() > 0,
        forall|i: int| 0 <= i < base.len() ==> base[i] != '/',
        forall|i: int| 0 <= i < ext.len() ==> ext[i] != '/' && ext[i] != '.',
    ensures
        ({
            let e = ext.map_values(|c: char| ascii_lower(c));
            needs_conversion(q + seq!['/'] + base + seq!['.'] + ext) == (e == "webp"@ || e
                == "avif"@)
        }),
{
    crate::paths::lemma_path_extension_of_joined(q, base, ext);
    crate::paths::lemma_ci_eq_lowered(ext, "webp"@);
    crate::paths::lemma_ci_eq_lowered(ext, "avif"@);
    reveal_strlit("webp");
    reveal_strlit("avif");
}

/// A `--mode` name is read without ASCII case: with its capitals made
/// small it is `fit`, `stretch`, `center` or `tile` for those modes, and
/// anything else means `Fill`.
pub proof fn lemma_mode_name_cases(s: Seq<char>)
    ensures
        ({
            let e = s.map_values(|c: char| ascii_lower(c));
            WallpaperMode::from_name(s) == if e == "fit"@ {
                WallpaperMode::Fit
            } else if e == "stretch"@ {
                WallpaperMode::Stretch
            } else if e == "center"@ {
                WallpaperMode::Center
            } else if e == "tile"@ {
                WallpaperMode::Tile
            } else {
                WallpaperMode::Fill
            }
        }),
{
    crate::paths::lemma_ci_eq_lowered(s, "fit"@);
    crate::paths::lemma_ci_eq_lowered(s, "stretch"@);
    crate::paths::lemma_ci_eq_lowered(s, "center"@);
    crate::paths::lemma_ci_eq_lowered(s, "tile"@);
}

} // verus!
