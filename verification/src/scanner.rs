//! Wallpaper files found in a folder, and the texts shown about them.
use vstd::prelude::*;
use crate::numfmt::{exp2, f64_of_nat, f64_of_u64, f64_quotient, fixed_text, lemma_exp2_values, push_fixed, quotient_value, unit};
use crate::paths::{file_name, file_name_range, has_image_extension};
use crate::text::{chars_of, decimal, push_chars, push_decimal};
pub use crate::paths::is_image_file;

verus! {

/// One image file of the gallery. `modified` is the modification time in
/// nanoseconds after the Unix epoch (negative before it).
#[derive(Debug, Clone)]
pub struct WallpaperItem {
    pub path: String,
    pub name: String,
    pub size_bytes: u64,
    pub modified: i128,
    pub dimensions: Option<(u32, u32)>,
}

/// The size text: the size in KiB to one decimal below 1 MiB, else in MiB to
/// two decimals, each computed from `size as f64` as `f64` arithmetic would.
pub open spec fn size_text(size: u64) -> Seq<char> {
    let f = f64_of_nat(size as nat);
    if f < 1048576 {
        fixed_text(f, 1024, 1) + " KB"@
    } else {
        fixed_text(f, 1048576, 2) + " MB"@
    }
}

/// `w as f64 / h as f64 > 2.0`: with `h == 0` the quotient is infinite for a
/// positive `w` and not a number for zero.
pub open spec fn wider_than_two(w: u32, h: u32) -> bool {
    if h == 0 {
        w > 0
    } else {
        f64_quotient(w as nat, h as nat) > 2 * unit()
    }
}

/// The resolution badge appended to the dimensions.
pub open spec fn resolution_tag(w: u32, h: u32) -> Seq<char> {
    if w >= 3840 && h >= 2160 {
        " (4K)"@
    } else if w >= 2560 && h >= 1440 {
        " (2K)"@
    } else if w >= 1920 && h >= 1080 {
        " (FHD)"@
    } else if wider_than_two(w, h) {
        " (UW)"@
    } else {
        ""@
    }
}

/// `WIDTHxHEIGHT` with its badge, or `Loading...` while unknown.
pub open spec fn dimensions_text(d: Option<(u32, u32)>) -> Seq<char> {
    match d {
        Some((w, h)) => decimal(w as nat) + "x"@ + decimal(h as nat) + resolution_tag(w, h),
        None => "Loading..."@,
    }
}

/// `|r - c| < t` for values scaled alike.
pub open spec fn within(r: nat, c: nat, t: nat) -> bool {
    if r >= c {
        r - c < t
    } else {
        c - r < t
    }
}

/// The ratio `r = w / h` as `f64` lies within the `f64` tolerance `a / b` of
/// the `f64` constant `c / d`. (The `f64` difference of `r` and a constant
/// of at least 1 is exact wherever it could fall below the tolerance, so the
/// exact comparison is the floating-point one.)
pub open spec fn ratio_near(r: nat, c: nat, d: nat, a: nat, b: nat) -> bool {
    within(r, f64_quotient(c, d), f64_quotient(a, b))
}

/// The aspect-ratio label of a `w` by `h` image.
pub open spec fn ratio_label(w: u32, h: u32) -> Seq<char> {
    let r = f64_quotient(w as nat, h as nat);
    if ratio_near(r, 16, 9, 1, 20) {
        "16:9"@
    } else if ratio_near(r, 16, 10, 1, 20) {
        "16:10"@
    } else if ratio_near(r, 21, 9, 2, 25) {
        "21:9 Ultrawide"@
    } else if ratio_near(r, 32, 9, 2, 25) {
        "32:9 Super Ultrawide"@
    } else if ratio_near(r, 4, 3, 1, 20) {
        "4:3"@
    } else if ratio_near(r, 1, 1, 1, 20) {
        "1:1 Square"@
    } else if r < unit() {
        "Portrait"@
    } else {
        fixed_text(r, unit(), 2) + ":1"@
    }
}

/// The aspect-ratio text, `Unknown` without dimensions or with zero height.
pub open spec fn aspect_text(d: Option<(u32, u32)>) -> Seq<char> {
    match d {
        Some((w, h)) => if h == 0 {
            "Unknown"@
        } else {
            ratio_label(w, h)
        },
        None => "Unknown"@,
    }
}

fn near(r: u128, c: u128, t: u128) -> (b: bool)
    ensures
        b == within(r as nat, c as nat, t as nat),
{
    if r >= c {
        r - c < t
    } else {
        c - r < t
    }
}

fn ratio_label_string(w: u32, h: u32) -> (s: String)
    requires
        h > 0,
    ensures
        s@ == ratio_label(w, h),
{
    let r = quotient_value(w, h);
    let tight = quotient_value(1, 20);
    let loose = quotient_value(2, 25);
    let mut s = String::new();
    if near(r, quotient_value(16, 9), tight) {
        s.push_str("16:9");
    } else if near(r, quotient_value(16, 10), tight) {
        s.push_str("16:10");
    } else if near(r, quotient_value(21, 9), loose) {
        s.push_str("21:9 Ultrawide");
    } else if near(r, quotient_value(32, 9), loose) {
        s.push_str("32:9 Super Ultrawide");
    } else if near(r, quotient_value(4, 3), tight) {
        s.push_str("4:3");
    } else if near(r, quotient_value(1, 1), tight) {
        s.push_str("1:1 Square");
    } else if r < 0x20_0000_0000_0000_0000_0000 {
        proof {
            lemma_exp2_values();
        }
        s.push_str("Portrait");
    } else {
        proof {
            lemma_exp2_values();
        }
        push_fixed(&mut s, r, 0x20_0000_0000_0000_0000_0000, 2);
        s.push_str(":1");
    }
    proof {
        lemma_exp2_values();
    }
    assert(s@ =~= ratio_label(w, h));
    s
}

impl WallpaperItem {
    /// The file size for display, such as `512.0 KB` or `3.25 MB`.
    pub fn formatted_size(&self) -> (r: String)
        ensures
            r@ == size_text(self.size_bytes),
    {
        let f = f64_of_u64(self.size_bytes);
        let mut s = String::new();
        if f < 1048576 {
            push_fixed(&mut s, f, 1024, 1);
            s.push_str(" KB");
        } else {
            push_fixed(&mut s, f, 1048576, 2);
            s.push_str(" MB");
        }
        assert(s@ =~= size_text(self.size_bytes));
        s
    }

    /// The dimensions for display, such as `3840x2160 (4K)`.
    pub fn formatted_dimensions(&self) -> (r: String)
        ensures
            r@ == dimensions_text(self.dimensions),
    {
        let mut s = String::new();
        match self.dimensions {
            Some((w, h)) => {
                push_decimal(&mut s, w as u128);
                s.push_str("x");
                push_decimal(&mut s, h as u128);
                if w >= 3840 && h >= 2160 {
                    s.push_str(" (4K)");
                } else if w >= 2560 && h >= 1440 {
                    s.push_str(" (2K)");
                } else if w >= 1920 && h >= 1080 {
                    s.push_str(" (FHD)");
                } else if (h == 0 && w > 0) || (h > 0 && quotient_value(w, h)
                    > 0x40_0000_0000_0000_0000_0000) {
                    proof {
                        lemma_exp2_values();
                    }
                    s.push_str(" (UW)");
                } else {
                    proof {
                        lemma_exp2_values();
                        reveal_strlit("");
                    }
                }
            },
            None => {
                s.push_str("Loading...");
            },
        }
        assert(s@ =~= dimensions_text(self.dimensions));
        s
    }

    /// The aspect ratio for display, such as `16:9` or `1.50:1`.
    pub fn aspect_ratio_str(&self) -> (r: String)
        ensures
            r@ == aspect_text(self.dimensions),
    {
        match self.dimensions {
            Some((w, h)) => {
                if h == 0 {
                    let mut s = String::new();
                    s.push_str("Unknown");
                    assert(s@ =~= aspect_text(self.dimensions));
                    s
                } else {
                    ratio_label_string(w, h)
                }
            },
            None => {
                let mut s = String::new();
                s.push_str("Unknown");
                assert(s@ =~= aspect_text(self.dimensions));
                s
            },
        }
    }
}

// ---------------------------------------------------------------------------
// Scanning
// ---------------------------------------------------------------------------

/// What a directory walk reports of one entry: its path, whether it is a
/// regular file, its size and modification time where the metadata could be
/// read, and the image dimensions where the header could be read.
#[derive(Debug, Clone)]
pub struct ScanEntry {
    pub path: String,
    pub is_file: bool,
    pub size_bytes: Option<u64>,
    pub modified: Option<i128>,
    pub dimensions: Option<(u32, u32)>,
}

/// How many directory levels a scan descends.
pub open spec fn depth_limit(recursive: bool) -> usize {
    if recursive {
        10
    } else {
        1
    }
}

pub fn scan_max_depth(recursive: bool) -> (d: usize)
    ensures
        d == depth_limit(recursive),
{
    if recursive {
        10
    } else {
        1
    }
}

/// The entries that become gallery items: files with an image extension.
pub open spec fn is_wallpaper_entry(e: ScanEntry) -> bool {
    e.is_file && has_image_extension(e.path@)
}

/// The wallpaper entries of `es`, in order.
pub open spec fn wallpaper_entries(es: Seq<ScanEntry>) -> Seq<ScanEntry>
    decreases es.len(),
{
    if es.len() == 0 {
        Seq::empty()
    } else {
        let rest = wallpaper_entries(es.drop_last());
        if is_wallpaper_entry(es.last()) {
            rest.push(es.last())
        } else {
            rest
        }
    }
}

/// The name shown for a path: its file name, or `Unknown`.
pub open spec fn display_name(p: Seq<char>) -> Seq<char> {
    match file_name(p) {
        Some(n) => n,
        None => "Unknown"@,
    }
}

/// `item` is the gallery item made from `e`: missing size reads as 0, a
/// missing time as the epoch.
pub open spec fn item_from_entry(item: WallpaperItem, e: ScanEntry) -> bool {
    &&& item.path@ == e.path@
    &&& item.name@ == display_name(e.path@)
    &&& item.size_bytes == (match e.size_bytes {
        Some(s) => s,
        None => 0,
    })
    &&& item.modified == (match e.modified {
        Some(m) => m,
        None => 0,
    })
    &&& item.dimensions == e.dimensions
}

fn entry_item(e: &ScanEntry) -> (item: WallpaperItem)
    ensures
        item_from_entry(item, *e),
{
    let v = chars_of(e.path.as_str());
    let mut name = String::new();
    match file_name_range(&v) {
        Some((a, b)) => push_chars(&mut name, &v, a, b),
        None => name.push_str("Unknown"),
    }
    assert(name@ =~= display_name(e.path@));
    let size_bytes = match e.size_bytes {
        Some(s) => s,
        None => 0,
    };
    let modified = match e.modified {
        Some(m) => m,
        None => 0,
    };
    WallpaperItem {
        path: e.path.clone(),
        name,
        size_bytes,
        modified,
        dimensions: e.dimensions,
    }
}

/// The gallery items of a directory walk: one per wallpaper entry, in the
/// walk's order.
pub fn scan_directory(entries: &Vec<ScanEntry>) -> (items: Vec<WallpaperItem>)
    ensures
        items.len() == wallpaper_entries(entries@).len(),
        forall|i: int|
            0 <= i < items.len() ==> item_from_entry(
                #[trigger] items@[i],
                wallpaper_entries(entries@)[i],
            ),
{
    let mut items: Vec<WallpaperItem> = Vec::new();
    let mut i: usize = 0;
    while i < entries.len()
        invariant
            i <= entries.len(),
            items.len() == wallpaper_entries(entries@.take(i as int)).len(),
            forall|j: int|
                0 <= j < items.len() ==> item_from_entry(
                    #[trigger] items@[j],
                    wallpaper_entries(entries@.take(i as int))[j],
                ),
        decreases entries.len() - i,
    {
        let e = &entries[i];
        assert(entries@.take(i + 1).drop_last() =~= entries@.take(i as int));
        if e.is_file && is_image_file(e.path.as_str()) {
            let item = entry_item(e);
            items.push(item);
        }
        i = i + 1;
    }
    assert(entries@.take(entries.len() as int) =~= entries@);
    items
}

// ---------------------------------------------------------------------------
// Properties
// ---------------------------------------------------------------------------

/// The aspect-ratio text depends only on the ratio: an image scaled by a
/// whole factor gets the same text.
pub proof fn lemma_aspect_depends_on_ratio(w: u32, h: u32, w2: u32, h2: u32, k: nat)
    requires
        h > 0,
        k > 0,
        w2 == k * w,
        h2 == k * h,
    ensures
        aspect_text(Some((w2, h2))) == aspect_text(Some((w, h))),
{
    crate::numfmt::lemma_quotient_scaled(w as nat, h as nat, k);
    assert(h2 > 0) by (nonlinear_arith)
        requires
            h2 == k * h,
            k > 0,
            h > 0,
    ;
}

/// Below `2^53` bytes the size is exact; below 1 MiB it is shown in KiB
/// with one decimal, from 1 MiB on in MiB with two.
pub proof fn lemma_size_text_units(size: u64)
    requires
        size < 0x20_0000_0000_0000,
    ensures
        size < 1048576 ==> size_text(size) == fixed_text(size as nat, 1024, 1) + " KB"@,
        size >= 1048576 ==> size_text(size) == fixed_text(size as nat, 1048576, 2) + " MB"@,
{
    lemma_exp2_values();
}

/// Every item a scan yields comes from a regular file with an image
/// extension.
pub proof fn lemma_scan_keeps_only_images(es: Seq<ScanEntry>)
    ensures
        forall|i: int|
            0 <= i < wallpaper_entries(es).len() ==> is_wallpaper_entry(
                #[trigger] wallpaper_entries(es)[i],
            ),
        wallpaper_entries(es).len() <= es.len(),
    decreases es.len(),
{
    if es.len() > 0 {
        lemma_scan_keeps_only_images(es.drop_last());
    }
}

/// The aspect-ratio label of a `w` by `h` image (`h > 0`), with `r` the
/// `f64` quotient `w / h` and each constant and tolerance the `f64` nearest
/// to it (all scaled by `2^85`): the first of these that holds gives the
/// label. `|r - 16/9| < 0.05` gives `16:9`; `|r - 16/10| < 0.05` gives
/// `16:10`; `|r - 21/9| < 0.08` gives `21:9 Ultrawide`; `|r - 32/9| < 0.08`
/// gives `32:9 Super Ultrawide`; `|r - 4/3| < 0.05` gives `4:3`;
/// `|r - 1| < 0.05` gives `1:1 Square`; `r < 1` gives `Portrait`; otherwise
/// `r` with two decimals and `:1`.
pub proof fn lemma_aspect_label_cases(w: u32, h: u32)
    requires
        h > 0,
    ensures
        ({
            let r = f64_quotient(w as nat, h as nat) as int;
            let t5 = f64_quotient(1, 20) as int;
            let t8 = f64_quotient(2, 25) as int;
            let d_16_9 = r - f64_quotient(16, 9) as int;
            let d_16_10 = r - f64_quotient(16, 10) as int;
            let d_21_9 = r - f64_quotient(21, 9) as int;
            let d_32_9 = r - f64_quotient(32, 9) as int;
            let d_4_3 = r - f64_quotient(4, 3) as int;
            let d_1_1 = r - f64_quotient(1, 1) as int;
            let n_16_9 = -t5 < d_16_9 < t5;
            let n_16_10 = -t5 < d_16_10 < t5;
            let n_21_9 = -t8 < d_21_9 < t8;
            let n_32_9 = -t8 < d_32_9 < t8;
            let n_4_3 = -t5 < d_4_3 < t5;
            let n_1_1 = -t5 < d_1_1 < t5;
            let t = aspect_text(Some((w, h)));
            &&& n_16_9 ==> t == "16:9"@
            &&& !n_16_9 && n_16_10 ==> t == "16:10"@
            &&& !n_16_9 && !n_16_10 && n_21_9 ==> t == "21:9 Ultrawide"@
            &&& !n_16_9 && !n_16_10 && !n_21_9 && n_32_9 ==> t == "32:9 Super Ultrawide"@
            &&& !n_16_9 && !n_16_10 && !n_21_9 && !n_32_9 && n_4_3 ==> t == "4:3"@
            &&& !n_16_9 && !n_16_10 && !n_21_9 && !n_32_9 && !n_4_3 && n_1_1 ==> t
                == "1:1 Square"@
            &&& !n_16_9 && !n_16_10 && !n_21_9 && !n_32_9 && !n_4_3 && !n_1_1 && r < exp2(85)
                ==> t == "Portrait"@
            &&& !n_16_9 && !n_16_10 && !n_21_9 && !n_32_9 && !n_4_3 && !n_1_1 && r >= exp2(85)
                ==> t == fixed_text(r as nat, exp2(85), 2) + ":1"@
        }),
{
}

/// The dimensions text of a `w` by `h` image: `WIDTHxHEIGHT` in decimal,
/// then ` (4K)` from 3840 by 2160 on, else ` (2K)` from 2560 by 1440 on,
/// else ` (FHD)` from 1920 by 1080 on, else ` (UW)` when `w / h` as `f64`
/// exceeds 2 (or `h` is 0 and `w` is not), else nothing.
pub proof fn lemma_dimensions_badge_cases(w: u32, h: u32)
    ensures
        ({
            let p = decimal(w as nat) + "x"@ + decimal(h as nat);
            let t = dimensions_text(Some((w, h)));
            let k4 = w >= 3840 && h >= 2160;
            let k2 = w >= 2560 && h >= 1440;
            let fhd = w >= 1920 && h >= 1080;
            let uw = (h == 0 && w > 0) || (h > 0 && f64_quotient(w as nat, h as nat) > 2 * exp2(
                85,
            ));
            &&& k4 ==> t == p + " (4K)"@
            &&& !k4 && k2 ==> t == p + " (2K)"@
            &&& !k4 && !k2 && fhd ==> t == p + " (FHD)"@
            &&& !k4 && !k2 && !fhd && uw ==> t == p + " (UW)"@
            &&& !k4 && !k2 && !fhd && !uw ==> t == p
        }),
{
    let p = decimal(w as nat) + "x"@ + decimal(h as nat);
    reveal_strlit("");
    assert(p + ""@ =~= p);
}

/// The rank of the resolution badge that ends the dimensions text `t` of a
/// `w` by `h` image: 3 for 4K, 2 for 2K, 1 for FHD, 0 for none or UW.
pub open spec fn badge_rank(w: u32, h: u32, t: Seq<char>) -> int {
    let p = decimal(w as nat) + "x"@ + decimal(h as nat);
    if t == p + " (4K)"@ {
        3
    } else if t == p + " (2K)"@ {
        2
    } else if t == p + " (FHD)"@ {
        1
    } else {
        0
    }
}

proof fn lemma_suffix_differs(p: Seq<char>, a: Seq<char>, b: Seq<char>)
    requires
        a != b,
    ensures
        p + a != p + b,
{
    if p + a == p + b {
        assert((p + a).skip(p.len() as int) =~= a);
        assert((p + b).skip(p.len() as int) =~= b);
    }
}

/// The resolution badge never drops as an image grows: a larger width and
/// height get at least the badge of the smaller ones (4K over 2K over FHD).
pub proof fn lemma_badge_grows(w1: u32, h1: u32, w2: u32, h2: u32)
    requires
        w1 <= w2,
        h1 <= h2,
    ensures
        badge_rank(w1, h1, dimensions_text(Some((w1, h1)))) <= badge_rank(
            w2,
            h2,
            dimensions_text(Some((w2, h2))),
        ),
{
    lemma_dimensions_badge_cases(w1, h1);
    lemma_dimensions_badge_cases(w2, h2);
    reveal_strlit(" (4K)");
    reveal_strlit(" (2K)");
    reveal_strlit(" (FHD)");
    reveal_strlit(" (UW)");
    reveal_strlit("");
    assert(" (4K)"@[2] != " (2K)"@[2]);
    assert(" (4K)"@[2] != " (UW)"@[2]);
    assert(" (2K)"@[2] != " (UW)"@[2]);
    let p1 = decimal(w1 as nat) + "x"@ + decimal(h1 as nat);
    let p2 = decimal(w2 as nat) + "x"@ + decimal(h2 as nat);
    lemma_suffix_differs(p1, " (4K)"@, " (2K)"@);
    lemma_suffix_differs(p1, " (2K)"@, " (4K)"@);
    lemma_suffix_differs(p1, " (FHD)"@, " (4K)"@);
    lemma_suffix_differs(p1, " (FHD)"@, " (2K)"@);
    lemma_suffix_differs(p2, " (4K)"@, " (2K)"@);
    lemma_suffix_differs(p2, " (2K)"@, " (4K)"@);
    lemma_suffix_differs(p2, " (FHD)"@, " (4K)"@);
    lemma_suffix_differs(p2, " (FHD)"@, " (2K)"@);
    lemma_unranked_suffixes(p1);
    lemma_unranked_suffixes(p2);
}

proof fn lemma_unranked_suffixes(p: Seq<char>)
    ensures
        p + " (UW)"@ != p + " (4K)"@,
        p + " (UW)"@ != p + " (2K)"@,
        p + " (UW)"@ != p + " (FHD)"@,
        p != p + " (4K)"@,
        p != p + " (2K)"@,
        p != p + " (FHD)"@,
{
    reveal_strlit(" (4K)");
    reveal_strlit(" (2K)");
    reveal_strlit(" (FHD)");
    reveal_strlit(" (UW)");
    assert(" (UW)"@[2] != " (4K)"@[2]);
    assert(" (UW)"@[2] != " (2K)"@[2]);
    lemma_suffix_differs(p, " (UW)"@, " (4K)"@);
    lemma_suffix_differs(p, " (UW)"@, " (2K)"@);
    lemma_suffix_differs(p, " (UW)"@, " (FHD)"@);
}

/// A scan keeps exactly the entries that are regular files with an image
/// extension, each once and in the walk's order.
pub proof fn lemma_scan_is_image_files(es: Seq<ScanEntry>)
    ensures
        wallpaper_entries(es) == es.filter(|e: ScanEntry| e.is_file && has_image_extension(e.path@)),
    decreases es.len(),
{
    reveal_with_fuel(Seq::filter, 1);
    if es.len() > 0 {
        lemma_scan_is_image_files(es.drop_last());
    }
}

} // verus!
