//! The gallery's state and its decisions: which folder is open, which items
//! the search shows in which order, which item is selected, which preview to
//! load and what to report. The caller does the I/O each decision asks for.
use vstd::prelude::*;
use crate::backend::WallpaperMode;
use crate::config::{recent_after, texts, AppConfig};
use crate::ordering::{
    in_order, lists_matches, matching_indices, name_keys, query_key, search_key, sort_indices,
    SortOption,
};
use crate::scanner::WallpaperItem;

verus! {

/// The characters of an optional string.
pub open spec fn opt_text(o: Option<String>) -> Option<Seq<char>> {
    match o {
        Some(s) => Some(s@),
        None => None,
    }
}

/// The selection after the shown items became `f`: a selection still shown
/// stays, one no longer shown moves to the first shown item (or none).
pub open spec fn reselect(sel: Option<usize>, f: Seq<usize>) -> Option<usize> {
    match sel {
        Some(s) => if f.contains(s) {
            Some(s)
        } else if f.len() > 0 {
            Some(f[0])
        } else {
            None
        },
        None => None,
    }
}

/// The selection moved to the first shown item.
pub open spec fn moved_to_first(sel: Option<usize>, f: Seq<usize>) -> bool {
    sel is Some && !f.contains(sel->0) && f.len() > 0
}

/// A preview of `path` must be loaded: the loaded preview is another one.
pub open spec fn preview_needed(preview: Option<Seq<char>>, path: Seq<char>) -> bool {
    preview != Some(path)
}

/// Where the gallery opens at launch.
pub enum LaunchTarget {
    /// A folder was named.
    Directory(String),
    /// An image file was named; `parent` is its folder.
    File { file: String, parent: Option<String> },
    /// Nothing usable was named.
    Nothing,
}

/// The gallery.
pub struct WallpaperApp {
    config: AppConfig,
    current_dir: Option<String>,
    items: Vec<WallpaperItem>,
    filtered_indices: Vec<usize>,
    selected_index: Option<usize>,
    selected_mode: WallpaperMode,
    search_query: String,
    sort_by: SortOption,
    status_message: Option<(String, bool)>,
    preview_path: Option<String>,
    loading_preview: Option<String>,
}

impl WallpaperApp {
    #[verifier::type_invariant]
    spec fn well_formed(self) -> bool {
        &&& forall|i: int|
            0 <= i < self.filtered_indices.len() ==> self.filtered_indices@[i] < self.items.len()
        &&& (self.selected_index matches Some(s) ==> s < self.items.len())
    }

    /// The settings.
    pub closed spec fn config_view(&self) -> AppConfig {
        self.config
    }

    /// The open folder.
    pub closed spec fn dir_view(&self) -> Option<Seq<char>> {
        opt_text(self.current_dir)
    }

    /// All items of the open folder, in scan order.
    pub closed spec fn items_view(&self) -> Seq<WallpaperItem> {
        self.items@
    }

    /// The items shown, as indices into `items_view`, in display order.
    pub closed spec fn filtered_view(&self) -> Seq<usize> {
        self.filtered_indices@
    }

    /// The selected item, as an index into `items_view`.
    pub closed spec fn selected_view(&self) -> Option<usize> {
        self.selected_index
    }

    /// The display mode chosen for applying.
    pub closed spec fn mode_view(&self) -> WallpaperMode {
        self.selected_mode
    }

    /// The search text.
    pub closed spec fn search_view(&self) -> Seq<char> {
        self.search_query@
    }

    /// The order of the gallery.
    pub closed spec fn sort_view(&self) -> SortOption {
        self.sort_by
    }

    /// The last status report: its text and whether it is an error.
    pub closed spec fn status_view(&self) -> Option<(Seq<char>, bool)> {
        match self.status_message {
            Some((m, e)) => Some((m@, e)),
            None => None,
        }
    }

    /// The path whose preview is loaded.
    pub closed spec fn preview_view(&self) -> Option<Seq<char>> {
        opt_text(self.preview_path)
    }

    /// The path whose preview was last asked for.
    pub closed spec fn loading_view(&self) -> Option<Seq<char>> {
        opt_text(self.loading_preview)
    }

    /// Indices in the state are in range (the type's invariant).
    pub closed spec fn indices_valid(&self) -> bool {
        self.well_formed()
    }

    /// The two states agree on everything but the shown items, the
    /// selection and the preview being loaded.
    pub open spec fn same_settings(&self, other: &Self) -> bool {
        &&& self.config_view() == other.config_view()
        &&& self.dir_view() == other.dir_view()
        &&& self.items_view() == other.items_view()
        &&& self.mode_view() == other.mode_view()
        &&& self.search_view() == other.search_view()
        &&& self.sort_view() == other.sort_view()
        &&& self.status_view() == other.status_view()
        &&& self.preview_view() == other.preview_view()
    }

    /// The gallery at launch: settings loaded, `current_dir` the folder to
    /// open, nothing scanned yet, sorted by name, mode from the settings.
    pub fn new(config: AppConfig, current_dir: Option<String>) -> (app: Self)
        ensures
            app.config_view() == config,
            app.dir_view() == opt_text(current_dir),
            app.items_view().len() == 0,
            app.filtered_view().len() == 0,
            app.selected_view() is None,
            app.mode_view() == config.default_mode,
            app.search_view().len() == 0,
            app.sort_view() == SortOption::NameAsc,
            app.status_view() is None,
            app.preview_view() is None,
            app.loading_view() is None,
    {
        let mode = config.default_mode;
        WallpaperApp {
            config,
            current_dir,
            items: Vec::new(),
            filtered_indices: Vec::new(),
            selected_index: None,
            selected_mode: mode,
            search_query: String::new(),
            sort_by: SortOption::NameAsc,
            status_message: None,
            preview_path: None,
            loading_preview: None,
        }
    }

    /// The folder to open at launch and the file to select in it: a named
    /// folder; a named file's folder and the file; else the last folder.
    pub fn launch_location(target: LaunchTarget, last_folder: Option<String>) -> (r: (
        Option<String>,
        Option<String>,
    ))
        ensures
            match target {
                LaunchTarget::Directory(d) => r.0 == Some(d) && r.1 is None,
                LaunchTarget::File { file, parent } => r.0 == parent && r.1 == Some(file),
                LaunchTarget::Nothing => r.0 == last_folder && r.1 is None,
            },
    {
        match target {
            LaunchTarget::Directory(d) => (Some(d), None),
            LaunchTarget::File { file, parent } => (parent, Some(file)),
            LaunchTarget::Nothing => (last_folder, None),
        }
    }

    /// Asks for the preview of `path`: unless it is the one loaded, it
    /// becomes the one loading and is returned, to be loaded.
    pub fn request_preview(&mut self, path: String) -> (r: Option<String>)
        ensures
            final(self).same_settings(old(self)),
            final(self).items_view() == old(self).items_view(),
            final(self).filtered_view() == old(self).filtered_view(),
            final(self).selected_view() == old(self).selected_view(),
            r is Some == preview_needed(old(self).preview_view(), path@),
            r is Some ==> r->0@ == path@ && final(self).loading_view() == Some(path@),
            r is None ==> final(self).loading_view() == old(self).loading_view(),
    {
        proof {
            use_type_invariant(&*self);
        }
        if let Some(current) = &self.preview_path {
            if *current == path {
                return None;
            }
        }
        self.loading_preview = Some(path.clone());
        Some(path)
    }

    /// Records that the preview of `path` has been loaded.
    pub fn preview_loaded(&mut self, path: String)
        ensures
            final(self).preview_view() == Some(path@),
            final(self).config_view() == old(self).config_view(),
            final(self).dir_view() == old(self).dir_view(),
            final(self).items_view() == old(self).items_view(),
            final(self).filtered_view() == old(self).filtered_view(),
            final(self).selected_view() == old(self).selected_view(),
            final(self).mode_view() == old(self).mode_view(),
            final(self).search_view() == old(self).search_view(),
            final(self).sort_view() == old(self).sort_view(),
            final(self).status_view() == old(self).status_view(),
            final(self).loading_view() == old(self).loading_view(),
    {
        proof {
            use_type_invariant(&*self);
        }
        self.preview_path = Some(path);
    }

    /// Selects the item at position `filtered_pos` of the shown items and
    /// returns the preview to load, if any; past the end nothing changes.
    pub fn select_item(&mut self, filtered_pos: usize) -> (r: Option<String>)
        ensures
            final(self).same_settings(old(self)),
            final(self).filtered_view() == old(self).filtered_view(),
            filtered_pos < old(self).filtered_view().len() ==> final(self).selected_view() == Some(
                old(self).filtered_view()[filtered_pos as int],
            ),
            filtered_pos >= old(self).filtered_view().len() ==> final(self).selected_view() == old(
                self,
            ).selected_view() && r is None && final(self).loading_view() == old(
                self,
            ).loading_view(),
            filtered_pos < old(self).filtered_view().len() ==> ({
                let path = old(self).items_view()[old(
                    self,
                ).filtered_view()[filtered_pos as int] as int].path@;
                &&& r is Some == preview_needed(old(self).preview_view(), path)
                &&& r is Some ==> r->0@ == path && final(self).loading_view() == Some(path)
                &&& r is None ==> final(self).loading_view() == old(self).loading_view()
            }),
    {
        proof {
            use_type_invariant(&*self);
        }
        if filtered_pos < self.filtered_indices.len() {
            let item_idx = self.filtered_indices[filtered_pos];
            self.selected_index = Some(item_idx);
            let path = self.items[item_idx].path.clone();
            self.request_preview(path)
        } else {
            None
        }
    }

    /// Recomputes the shown items from the search text and the order, and
    /// keeps the selection valid; returns the preview to load, if any.
    pub fn apply_sort_and_filter(&mut self) -> (r: Option<String>)
        ensures
            final(self).same_settings(old(self)),
            lists_matches(
                final(self).items_view(),
                query_key(final(self).search_view()),
                final(self).filtered_view(),
            ),
            in_order(final(self).sort_view(), final(self).items_view(), final(self).filtered_view()),
            final(self).selected_view() == reselect(
                old(self).selected_view(),
                final(self).filtered_view(),
            ),
            ({
                let f = final(self).filtered_view();
                let moved = moved_to_first(old(self).selected_view(), f);
                &&& moved ==> ({
                    let path = final(self).items_view()[f[0] as int].path@;
                    &&& r is Some == preview_needed(old(self).preview_view(), path)
                    &&& r is Some ==> r->0@ == path && final(self).loading_view() == Some(path)
                    &&& r is None ==> final(self).loading_view() == old(self).loading_view()
                })
                &&& !moved ==> r is None && final(self).loading_view() == old(
                    self,
                ).loading_view()
            }),
    {
        proof {
            use_type_invariant(&*self);
        }
        let keys = name_keys(&self.items);
        let key = search_key(self.search_query.as_str());
        let shown = matching_indices(&self.items, &keys, &key);
        let sorted = sort_indices(&self.items, &keys, self.sort_by, &shown);
        proof {
            assert forall|x: usize| sorted@.contains(x) <==> shown@.contains(x) by {}
        }
        self.filtered_indices = sorted;
        if let Some(sel) = self.selected_index {
            if !contains_index(&self.filtered_indices, sel) {
                if self.filtered_indices.len() > 0 {
                    let first = self.filtered_indices[0];
                    self.selected_index = Some(first);
                    let path = self.items[first].path.clone();
                    return self.request_preview(path);
                } else {
                    self.selected_index = None;
                }
            }
        }
        None
    }

    /// Opens `dir`, whose scan found `items`: it becomes the current and
    /// first recent folder, the items are filtered and sorted, the preview is
    /// dropped, and the first shown item is selected; returns the preview to
    /// load, if any. The caller saves the settings.
    pub fn load_folder(&mut self, dir: String, items: Vec<WallpaperItem>) -> (r: Option<String>)
        ensures
            final(self).dir_view() == Some(dir@),
            texts(final(self).config_view().recent_folders@) == recent_after(
                texts(old(self).config_view().recent_folders@),
                dir@,
            ),
            final(self).config_view().last_folder == Some(dir),
            final(self).config_view().default_mode == old(self).config_view().default_mode,
            final(self).config_view().recursive_scan == old(self).config_view().recursive_scan,
            final(self).items_view() == items@,
            final(self).mode_view() == old(self).mode_view(),
            final(self).search_view() == old(self).search_view(),
            final(self).sort_view() == old(self).sort_view(),
            final(self).status_view() == old(self).status_view(),
            final(self).preview_view() is None,
            lists_matches(items@, query_key(old(self).search_view()), final(self).filtered_view()),
            in_order(old(self).sort_view(), items@, final(self).filtered_view()),
            final(self).filtered_view().len() > 0 ==> ({
                let first = final(self).filtered_view()[0];
                let path = items@[first as int].path@;
                &&& final(self).selected_view() == Some(first)
                &&& r is Some && r->0@ == path
                &&& final(self).loading_view() == Some(path)
            }),
            final(self).filtered_view().len() == 0 ==> final(self).selected_view() is None
                && r is None && final(self).loading_view() is None,
    {
        proof {
            use_type_invariant(&*self);
        }
        self.current_dir = Some(dir.clone());
        let mut cfg = AppConfig::with_last_folder(None);
        std::mem::swap(&mut cfg, &mut self.config);
        cfg.add_recent(dir);
        std::mem::swap(&mut cfg, &mut self.config);
        self.selected_index = None;
        self.filtered_indices = Vec::new();
        self.items = items;
        self.preview_path = None;
        self.loading_preview = None;
        let none = self.apply_sort_and_filter();
        if self.filtered_indices.len() > 0 {
            self.select_item(0)
        } else {
            none
        }
    }

    /// Selects the item whose path is `file`, if it is shown; returns the
    /// preview to load, if any.
    pub fn select_file(&mut self, file: &str) -> (r: Option<String>)
        ensures
            final(self).same_settings(old(self)),
            final(self).filtered_view() == old(self).filtered_view(),
            ({
                let items = old(self).items_view();
                let f = old(self).filtered_view();
                match first_item_with_path(items, file@) {
                    Some(i) => match first_position(f, i as usize) {
                        Some(p) => final(self).selected_view() == Some(f[p]) && ({
                            let path = items[f[p] as int].path@;
                            &&& r is Some == preview_needed(old(self).preview_view(), path)
                            &&& r is Some ==> r->0@ == path && final(self).loading_view() == Some(
                                path,
                            )
                            &&& r is None ==> final(self).loading_view() == old(
                                self,
                            ).loading_view()
                        }),
                        None => final(self).selected_view() == old(self).selected_view() && r is None
                            && final(self).loading_view() == old(self).loading_view(),
                    },
                    None => final(self).selected_view() == old(self).selected_view() && r is None
                        && final(self).loading_view() == old(self).loading_view(),
                }
            }),
    {
        proof {
            use_type_invariant(&*self);
        }
        let mut i: usize = 0;
        let file_chars = crate::text::chars_of(file);
        while i < self.items.len() && !crate::text::str_is(self.items[i].path.as_str(), &file_chars)
            invariant
                i <= self.items.len(),
                forall|j: int| 0 <= j < i ==> self.items@[j].path@ != file@,
                file_chars@ == file@,
            decreases self.items.len() - i,
        {
            i = i + 1;
        }
        if i == self.items.len() {
            proof {
                lemma_no_item_with_path(self.items@, file@);
            }
            return None;
        }
        proof {
            lemma_first_item_with_path(self.items@, file@, i as int);
        }
        let mut p: usize = 0;
        while p < self.filtered_indices.len() && self.filtered_indices[p] != i
            invariant
                p <= self.filtered_indices.len(),
                forall|q: int| 0 <= q < p ==> self.filtered_indices@[q] != i,
            decreases self.filtered_indices.len() - p,
        {
            p = p + 1;
        }
        if p == self.filtered_indices.len() {
            proof {
                lemma_no_position(self.filtered_indices@, i);
            }
            return None;
        }
        proof {
            lemma_first_position(self.filtered_indices@, i, p as int);
        }
        self.select_item(p)
    }

    /// The wallpaper to apply: the selected item's path and the chosen mode.
    pub fn wallpaper_to_apply(&self) -> (r: Option<(String, WallpaperMode)>)
        ensures
            match self.selected_view() {
                Some(i) => r matches Some((p, m)) && p@ == self.items_view()[i as int].path@ && m
                    == self.mode_view(),
                None => r is None,
            },
    {
        proof {
            use_type_invariant(self);
        }
        match self.selected_index {
            Some(i) => Some((self.items[i].path.clone(), self.selected_mode)),
            None => None,
        }
    }

    /// Reports the outcome of applying a wallpaper.
    pub fn record_apply_result(&mut self, result: Result<String, String>)
        ensures
            final(self).status_view() == (match result {
                Ok(m) => Some((m@, false)),
                Err(m) => Some((m@, true)),
            }),
            final(self).config_view() == old(self).config_view(),
            final(self).dir_view() == old(self).dir_view(),
            final(self).items_view() == old(self).items_view(),
            final(self).filtered_view() == old(self).filtered_view(),
            final(self).selected_view() == old(self).selected_view(),
            final(self).mode_view() == old(self).mode_view(),
            final(self).search_view() == old(self).search_view(),
            final(self).sort_view() == old(self).sort_view(),
            final(self).preview_view() == old(self).preview_view(),
            final(self).loading_view() == old(self).loading_view(),
    {
        proof {
            use_type_invariant(&*self);
        }
        match result {
            Ok(m) => {
                self.status_message = Some((m, false));
            },
            Err(m) => {
                self.status_message = Some((m, true));
            },
        }
    }

    /// Removes the status report once it has been shown long enough.
    pub fn clear_status(&mut self)
        ensures
            final(self).status_view() is None,
            final(self).config_view() == old(self).config_view(),
            final(self).dir_view() == old(self).dir_view(),
            final(self).items_view() == old(self).items_view(),
            final(self).filtered_view() == old(self).filtered_view(),
            final(self).selected_view() == old(self).selected_view(),
            final(self).mode_view() == old(self).mode_view(),
            final(self).search_view() == old(self).search_view(),
            final(self).sort_view() == old(self).sort_view(),
            final(self).preview_view() == old(self).preview_view(),
            final(self).loading_view() == old(self).loading_view(),
    {
        proof {
            use_type_invariant(&*self);
        }
        self.status_message = None;
    }

    /// Chooses the display mode; it also becomes the default in the
    /// settings, which the caller saves.
    pub fn set_selected_mode(&mut self, mode: WallpaperMode)
        ensures
            final(self).mode_view() == mode,
            final(self).config_view().default_mode == mode,
            final(self).config_view().last_folder == old(self).config_view().last_folder,
            final(self).config_view().recent_folders == old(self).config_view().recent_folders,
            final(self).config_view().recursive_scan == old(self).config_view().recursive_scan,
            final(self).dir_view() == old(self).dir_view(),
            final(self).items_view() == old(self).items_view(),
            final(self).filtered_view() == old(self).filtered_view(),
            final(self).selected_view() == old(self).selected_view(),
            final(self).search_view() == old(self).search_view(),
            final(self).sort_view() == old(self).sort_view(),
            final(self).status_view() == old(self).status_view(),
            final(self).preview_view() == old(self).preview_view(),
            final(self).loading_view() == old(self).loading_view(),
    {
        proof {
            use_type_invariant(&*self);
        }
        self.selected_mode = mode;
        self.config.default_mode = mode;
    }

    /// Sets the search text (the shown items change on the next
    /// `apply_sort_and_filter`).
    pub fn set_search_query(&mut self, query: String)
        ensures
            final(self).search_view() == query@,
            final(self).config_view() == old(self).config_view(),
            final(self).dir_view() == old(self).dir_view(),
            final(self).items_view() == old(self).items_view(),
            final(self).filtered_view() == old(self).filtered_view(),
            final(self).selected_view() == old(self).selected_view(),
            final(self).mode_view() == old(self).mode_view(),
            final(self).sort_view() == old(self).sort_view(),
            final(self).status_view() == old(self).status_view(),
            final(self).preview_view() == old(self).preview_view(),
            final(self).loading_view() == old(self).loading_view(),
    {
        proof {
            use_type_invariant(&*self);
        }
        self.search_query = query;
    }

    /// Sets the order (applied on the next `apply_sort_and_filter`).
    pub fn set_sort_by(&mut self, sort_by: SortOption)
        ensures
            final(self).sort_view() == sort_by,
            final(self).config_view() == old(self).config_view(),
            final(self).dir_view() == old(self).dir_view(),
            final(self).items_view() == old(self).items_view(),
            final(self).filtered_view() == old(self).filtered_view(),
            final(self).selected_view() == old(self).selected_view(),
            final(self).mode_view() == old(self).mode_view(),
            final(self).search_view() == old(self).search_view(),
            final(self).status_view() == old(self).status_view(),
            final(self).preview_view() == old(self).preview_view(),
            final(self).loading_view() == old(self).loading_view(),
    {
        proof {
            use_type_invariant(&*self);
        }
        self.sort_by = sort_by;
    }

    /// Sets whether subfolders are scanned; the caller saves the settings
    /// and reloads the folder.
    pub fn set_recursive_scan(&mut self, recursive: bool)
        ensures
            final(self).config_view().recursive_scan == recursive,
            final(self).config_view().last_folder == old(self).config_view().last_folder,
            final(self).config_view().recent_folders == old(self).config_view().recent_folders,
            final(self).config_view().default_mode == old(self).config_view().default_mode,
            final(self).dir_view() == old(self).dir_view(),
            final(self).items_view() == old(self).items_view(),
            final(self).filtered_view() == old(self).filtered_view(),
            final(self).selected_view() == old(self).selected_view(),
            final(self).mode_view() == old(self).mode_view(),
            final(self).search_view() == old(self).search_view(),
            final(self).sort_view() == old(self).sort_view(),
            final(self).status_view() == old(self).status_view(),
            final(self).preview_view() == old(self).preview_view(),
            final(self).loading_view() == old(self).loading_view(),
    {
        proof {
            use_type_invariant(&*self);
        }
        self.config.recursive_scan = recursive;
    }

    pub fn config(&self) -> (r: &AppConfig)
        ensures
            *r == self.config_view(),
    {
        &self.config
    }

    pub fn current_dir(&self) -> (r: &Option<String>)
        ensures
            opt_text(*r) == self.dir_view(),
    {
        &self.current_dir
    }

    pub fn items(&self) -> (r: &Vec<WallpaperItem>)
        ensures
            r@ == self.items_view(),
    {
        &self.items
    }

    pub fn filtered_indices(&self) -> (r: &Vec<usize>)
        ensures
            r@ == self.filtered_view(),
            forall|i: int| 0 <= i < r.len() ==> r@[i] < self.items_view().len(),
    {
        proof {
            use_type_invariant(self);
        }
        &self.filtered_indices
    }

    pub fn selected_index(&self) -> (r: Option<usize>)
        ensures
            r == self.selected_view(),
            r matches Some(i) ==> i < self.items_view().len(),
    {
        proof {
            use_type_invariant(self);
        }
        self.selected_index
    }

    pub fn selected_mode(&self) -> (r: WallpaperMode)
        ensures
            r == self.mode_view(),
    {
        self.selected_mode
    }

    pub fn search_query(&self) -> (r: &String)
        ensures
            r@ == self.search_view(),
    {
        &self.search_query
    }

    pub fn sort_by(&self) -> (r: SortOption)
        ensures
            r == self.sort_view(),
    {
        self.sort_by
    }

    pub fn status_message(&self) -> (r: &Option<(String, bool)>)
        ensures
            (match *r {
                Some((m, e)) => Some((m@, e)),
                None => None,
            }) == self.status_view(),
    {
        &self.status_message
    }

    pub fn preview_path(&self) -> (r: &Option<String>)
        ensures
            opt_text(*r) == self.preview_view(),
    {
        &self.preview_path
    }

    pub fn loading_preview(&self) -> (r: &Option<String>)
        ensures
            opt_text(*r) == self.loading_view(),
    {
        &self.loading_preview
    }
}

/// Whether `x` occurs in `v`.
fn contains_index(v: &Vec<usize>, x: usize) -> (r: bool)
    ensures
        r == v@.contains(x),
{
    let mut i: usize = 0;
    while i < v.len()
        invariant
            i <= v.len(),
            forall|j: int| 0 <= j < i ==> v@[j] != x,
        decreases v.len() - i,
    {
        if v[i] == x {
            return true;
        }
        i = i + 1;
    }
    false
}

/// The first item whose path is `file`.
pub open spec fn first_item_with_path(items: Seq<WallpaperItem>, file: Seq<char>) -> Option<int> {
    if exists|i: int| 0 <= i < items.len() && #[trigger] items[i].path@ == file {
        Some(
            choose|i: int|
                0 <= i < items.len() && #[trigger] items[i].path@ == file && forall|j: int|
                    0 <= j < i ==> items[j].path@ != file,
        )
    } else {
        None
    }
}

/// The first position of `x` in `s`.
pub open spec fn first_position(s: Seq<usize>, x: usize) -> Option<int> {
    if s.contains(x) {
        Some(choose|p: int| 0 <= p < s.len() && s[p] == x && forall|q: int| 0 <= q < p ==> s[q] != x)
    } else {
        None
    }
}

proof fn lemma_no_item_with_path(items: Seq<WallpaperItem>, file: Seq<char>)
    requires
        forall|j: int| 0 <= j < items.len() ==> items[j].path@ != file,
    ensures
        first_item_with_path(items, file) is None,
{
}

proof fn lemma_first_item_with_path(items: Seq<WallpaperItem>, file: Seq<char>, i: int)
    requires
        0 <= i < items.len(),
        items[i].path@ == file,
        forall|j: int| 0 <= j < i ==> items[j].path@ != file,
    ensures
        first_item_with_path(items, file) == Some(i),
{
    let c = choose|c: int|
        0 <= c < items.len() && #[trigger] items[c].path@ == file && forall|j: int|
            0 <= j < c ==> items[j].path@ != file;
    assert(items[i].path@ == file);
    if c < i {
    } else if c > i {
    }
}

proof fn lemma_no_position(s: Seq<usize>, x: usize)
    requires
        forall|q: int| 0 <= q < s.len() ==> s[q] != x,
    ensures
        first_position(s, x) is None,
{
}

proof fn lemma_first_position(s: Seq<usize>, x: usize, p: int)
    requires
        0 <= p < s.len(),
        s[p] == x,
        forall|q: int| 0 <= q < p ==> s[q] != x,
    ensures
        first_position(s, x) == Some(p),
{
    assert(s.contains(x));
    let c = choose|c: int| 0 <= c < s.len() && s[c] == x && forall|q: int| 0 <= q < c ==> s[q] != x;
    if c < p {
    } else if c > p {
    }
}

/// After the shown items are recomputed the selection, if any, is shown.
pub proof fn lemma_reselect_is_shown(sel: Option<usize>, f: Seq<usize>)
    ensures
        reselect(sel, f) matches Some(s) ==> f.contains(s),
{
    if let Some(s) = sel {
        if !f.contains(s) && f.len() > 0 {
            assert(f[0] == f[0]);
            assert(f.contains(f[0]));
        }
    }
}

/// How the selection follows a change of the shown items `f`: a selection
/// that is still shown stays; one that is no longer shown moves to the
/// first shown item, or goes when nothing is shown; no selection stays
/// none; and doing it twice changes nothing more.
pub proof fn lemma_reselect_follows_shown(sel: Option<usize>, f: Seq<usize>)
    ensures
        sel matches Some(s) && f.contains(s) ==> reselect(sel, f) == sel,
        sel matches Some(s) && !f.contains(s) && f.len() > 0 ==> reselect(sel, f) == Some(f[0]),
        f.len() == 0 ==> reselect(sel, f) is None,
        sel is None ==> reselect(sel, f) is None,
        reselect(reselect(sel, f), f) == reselect(sel, f),
{
    lemma_reselect_is_shown(sel, f);
    if f.len() == 0 {
        if let Some(s) = sel {
            assert(!f.contains(s));
        }
    }
}

/// The item a file is looked up as: the first item whose path is the
/// file, none when no item has that path.
pub proof fn lemma_first_item_with_path_is_first(items: Seq<WallpaperItem>, file: Seq<char>)
    ensures
        first_item_with_path(items, file) matches Some(i) ==> 0 <= i < items.len()
            && items[i].path@ == file && forall|j: int| 0 <= j < i ==> items[j].path@ != file,
        first_item_with_path(items, file) is None ==> forall|j: int|
            0 <= j < items.len() ==> items[j].path@ != file,
{
    if exists|i: int| 0 <= i < items.len() && #[trigger] items[i].path@ == file {
        let i = choose|i: int| 0 <= i < items.len() && #[trigger] items[i].path@ == file;
        lemma_first_index_exists(items, file, i);
    }
}

proof fn lemma_first_index_exists(items: Seq<WallpaperItem>, file: Seq<char>, i: int)
    requires
        0 <= i < items.len(),
        items[i].path@ == file,
    ensures
        exists|c: int|
            0 <= c < items.len() && #[trigger] items[c].path@ == file && forall|j: int|
                0 <= j < c ==> items[j].path@ != file,
    decreases i,
{
    if exists|j: int| 0 <= j < i && #[trigger] items[j].path@ == file {
        let j = choose|j: int| 0 <= j < i && #[trigger] items[j].path@ == file;
        lemma_first_index_exists(items, file, j);
    } else {
        assert(items[i].path@ == file);
    }
}

/// The position a shown item is found at: its first position among the
/// shown items, none when it is not shown.
pub proof fn lemma_first_position_is_first(s: Seq<usize>, x: usize)
    ensures
        first_position(s, x) matches Some(p) ==> 0 <= p < s.len() && s[p] == x && forall|q: int|
            0 <= q < p ==> s[q] != x,
        first_position(s, x) is None ==> !s.contains(x),
{
    if s.contains(x) {
        let i = choose|i: int| 0 <= i < s.len() && s[i] == x;
        lemma_first_position_exists(s, x, i);
    }
}

proof fn lemma_first_position_exists(s: Seq<usize>, x: usize, i: int)
    requires
        0 <= i < s.len(),
        s[i] == x,
    ensures
        exists|c: int| 0 <= c < s.len() && s[c] == x && forall|q: int| 0 <= q < c ==> s[q] != x,
    decreases i,
{
    if exists|j: int| 0 <= j < i && s[j] == x {
        let j = choose|j: int| 0 <= j < i && s[j] == x;
        lemma_first_position_exists(s, x, j);
    } else {
        assert(forall|q: int| 0 <= q < i ==> s[q] != x);
    }
}

} // verus!
