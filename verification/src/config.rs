//! The user settings: last and recent folders, display mode, scan depth.
use vstd::prelude::*;
use crate::backend::WallpaperMode;

verus! {

/// The settings kept between runs.
#[derive(Debug, Clone)]
pub struct AppConfig {
    pub last_folder: Option<String>,
    pub recent_folders: Vec<String>,
    pub default_mode: WallpaperMode,
    pub recursive_scan: bool,
}

/// How many recent folders are remembered.
pub const MAX_RECENT: usize = 8;

/// The characters of each string.
pub open spec fn texts(v: Seq<String>) -> Seq<Seq<char>> {
    v.map_values(|s: String| s@)
}

/// `list` without the entries equal to `x`, the others in their order.
pub open spec fn without(list: Seq<Seq<char>>, x: Seq<char>) -> Seq<Seq<char>>
    decreases list.len(),
{
    if list.len() == 0 {
        Seq::empty()
    } else {
        let rest = without(list.drop_last(), x);
        if list.last() == x {
            rest
        } else {
            rest.push(list.last())
        }
    }
}

/// The recent folders after `folder` is opened: `folder` first, its earlier
/// entries removed, the others after it in their order, at most eight kept.
pub open spec fn recent_after(list: Seq<Seq<char>>, folder: Seq<char>) -> Seq<Seq<char>> {
    let l = seq![folder] + without(list, folder);
    if l.len() > MAX_RECENT {
        l.take(MAX_RECENT as int)
    } else {
        l
    }
}

/// No entry occurs twice.
pub open spec fn no_duplicates(s: Seq<Seq<char>>) -> bool {
    forall|i: int, j: int| 0 <= i < j < s.len() ==> s[i] != s[j]
}

impl AppConfig {
    /// The settings of a first run, opening `last_folder` (the user's
    /// pictures folder where there is one): no recent folders, `Fill`, no
    /// subfolders.
    pub fn with_last_folder(last_folder: Option<String>) -> (c: AppConfig)
        ensures
            c.last_folder == last_folder,
            c.recent_folders@.len() == 0,
            c.default_mode == WallpaperMode::Fill,
            !c.recursive_scan,
    {
        AppConfig {
            last_folder,
            recent_folders: Vec::new(),
            default_mode: WallpaperMode::Fill,
            recursive_scan: false,
        }
    }

    /// Records that `folder` was opened: it becomes the last folder and the
    /// first recent one.
    pub fn add_recent(&mut self, folder: String)
        ensures
            texts(final(self).recent_folders@) == recent_after(
                texts(old(self).recent_folders@),
                folder@,
            ),
            final(self).last_folder == Some(folder),
            final(self).default_mode == old(self).default_mode,
            final(self).recursive_scan == old(self).recursive_scan,
    {
        let ghost old_list = texts(self.recent_folders@);
        let mut list: Vec<String> = Vec::new();
        list.push(folder.clone());
        assert(texts(list@) =~= seq![folder@]);
        let mut i: usize = 0;
        proof {
            assert(old_list.take(0) =~= Seq::<Seq<char>>::empty());
            assert(without(old_list.take(0), folder@) =~= Seq::<Seq<char>>::empty());
            assert(seq![folder@] + without(old_list.take(0), folder@) =~= seq![folder@]);
        }
        while i < self.recent_folders.len()
            invariant
                i <= self.recent_folders.len(),
                old_list == texts(self.recent_folders@),
                texts(list@) == seq![folder@] + without(old_list.take(i as int), folder@),
            decreases self.recent_folders.len() - i,
        {
            let ghost before = texts(list@);
            assert(old_list.take(i + 1).drop_last() =~= old_list.take(i as int));
            if !(self.recent_folders[i] == folder) {
                list.push(self.recent_folders[i].clone());
                assert(texts(list@) =~= before.push(old_list[i as int]));
            }
            i = i + 1;
        }
        assert(old_list.take(i as int) =~= old_list);
        list.truncate(MAX_RECENT);
        proof {
            let l = seq![folder@] + without(old_list, folder@);
            if l.len() > MAX_RECENT {
                assert(texts(list@) =~= l.take(MAX_RECENT as int));
            } else {
                assert(texts(list@) =~= l);
            }
        }
        self.recent_folders = list;
        self.last_folder = Some(folder);
    }
}

// ---------------------------------------------------------------------------
// Properties of the recent-folder list
// ---------------------------------------------------------------------------

pub proof fn lemma_without_excludes(list: Seq<Seq<char>>, x: Seq<char>)
    ensures
        forall|i: int| 0 <= i < without(list, x).len() ==> #[trigger] without(list, x)[i] != x,
        forall|i: int|
            0 <= i < without(list, x).len() ==> list.contains(#[trigger] without(list, x)[i]),
        without(list, x).len() <= list.len(),
    decreases list.len(),
{
    if list.len() > 0 {
        lemma_without_excludes(list.drop_last(), x);
        let rest = without(list.drop_last(), x);
        assert forall|i: int| 0 <= i < without(list, x).len() implies list.contains(
            #[trigger] without(list, x)[i],
        ) by {
            if i < rest.len() {
                let j = choose|j: int| 0 <= j < list.drop_last().len() && list.drop_last()[j] == rest[i];
                assert(list[j] == rest[i]);
            } else {
                assert(list[list.len() - 1] == list.last());
            }
        }
    }
}

pub proof fn lemma_without_absent(list: Seq<Seq<char>>, x: Seq<char>)
    requires
        !list.contains(x),
    ensures
        without(list, x) == list,
    decreases list.len(),
{
    if list.len() > 0 {
        assert(!list.drop_last().contains(x)) by {
            if list.drop_last().contains(x) {
                let j = choose|j: int| 0 <= j < list.drop_last().len() && list.drop_last()[j] == x;
                assert(list[j] == x);
            }
        }
        lemma_without_absent(list.drop_last(), x);
        assert(list.last() != x) by {
            assert(list[list.len() - 1] == list.last());
        }
        assert(list.drop_last().push(list.last()) =~= list);
    } else {
        assert(list =~= Seq::<Seq<char>>::empty());
    }
}

pub proof fn lemma_without_concat(a: Seq<Seq<char>>, b: Seq<Seq<char>>, x: Seq<char>)
    ensures
        without(a + b, x) == without(a, x) + without(b, x),
    decreases b.len(),
{
    if b.len() == 0 {
        assert(a + b =~= a);
        assert(without(a, x) + without(b, x) =~= without(a, x));
    } else {
        lemma_without_concat(a, b.drop_last(), x);
        assert((a + b).drop_last() =~= a + b.drop_last());
        assert((a + b).last() == b.last());
        if b.last() == x {
        } else {
            assert(without(a, x) + without(b.drop_last(), x).push(b.last()) =~= (without(a, x)
                + without(b.drop_last(), x)).push(b.last()));
        }
    }
}

pub proof fn lemma_without_no_duplicates(list: Seq<Seq<char>>, x: Seq<char>)
    requires
        no_duplicates(list),
    ensures
        no_duplicates(without(list, x)),
    decreases list.len(),
{
    if list.len() > 0 {
        assert(no_duplicates(list.drop_last()));
        lemma_without_no_duplicates(list.drop_last(), x);
        lemma_without_excludes(list.drop_last(), x);
        let rest = without(list.drop_last(), x);
        if list.last() != x {
            assert forall|i: int| 0 <= i < rest.len() implies rest[i] != list.last() by {
                let j = choose|j: int| 0 <= j < list.drop_last().len() && list.drop_last()[j] == rest[i];
                assert(list[j] == rest[i]);
                assert(list[list.len() - 1] == list.last());
            }
        }
    }
}

/// The opened folder heads the recent list.
pub proof fn lemma_recent_starts_with_folder(list: Seq<Seq<char>>, folder: Seq<char>)
    ensures
        recent_after(list, folder).len() >= 1,
        recent_after(list, folder)[0] == folder,
{
}

/// At most eight recent folders are kept.
pub proof fn lemma_recent_bounded(list: Seq<Seq<char>>, folder: Seq<char>)
    ensures
        recent_after(list, folder).len() <= MAX_RECENT,
{
}

/// The opened folder occurs in the recent list exactly once, and every other
/// entry was in the list before.
pub proof fn lemma_recent_folder_once(list: Seq<Seq<char>>, folder: Seq<char>)
    ensures
        forall|i: int|
            1 <= i < recent_after(list, folder).len() ==> #[trigger] recent_after(list, folder)[i]
                != folder && list.contains(recent_after(list, folder)[i]),
{
    lemma_without_excludes(list, folder);
    let w = without(list, folder);
    let l = seq![folder] + w;
    assert forall|i: int| 1 <= i < recent_after(list, folder).len() implies #[trigger] recent_after(
        list,
        folder,
    )[i] != folder && list.contains(recent_after(list, folder)[i]) by {
        assert(recent_after(list, folder)[i] == l[i]);
        assert(l[i] == w[i - 1]);
    }
}

/// The other folders keep their order: after the opened one comes a prefix
/// of the old list with the opened folder taken out.
pub proof fn lemma_recent_keeps_order(list: Seq<Seq<char>>, folder: Seq<char>)
    ensures
        recent_after(list, folder).drop_first() == without(list, folder).take(
            recent_after(list, folder).len() - 1,
        ),
{
    let w = without(list, folder);
    let r = recent_after(list, folder);
    assert(r.drop_first() =~= w.take(r.len() - 1));
}

/// A list without repeats stays without repeats.
pub proof fn lemma_recent_no_duplicates(list: Seq<Seq<char>>, folder: Seq<char>)
    requires
        no_duplicates(list),
    ensures
        no_duplicates(recent_after(list, folder)),
{
    lemma_without_no_duplicates(list, folder);
    lemma_without_excludes(list, folder);
    let w = without(list, folder);
    let l = seq![folder] + w;
    let r = recent_after(list, folder);
    assert forall|i: int, j: int| 0 <= i < j < r.len() implies r[i] != r[j] by {
        assert(r[i] == l[i]);
        assert(r[j] == l[j]);
        if i == 0 {
            assert(l[j] == w[j - 1]);
        } else {
            assert(l[i] == w[i - 1]);
            assert(l[j] == w[j - 1]);
        }
    }
}

/// Opening the same folder twice in a row leaves the list as the first time.
pub proof fn lemma_recent_idempotent(list: Seq<Seq<char>>, folder: Seq<char>)
    ensures
        recent_after(recent_after(list, folder), folder) == recent_after(list, folder),
{
    let r = recent_after(list, folder);
    lemma_without_excludes(list, folder);
    let w = without(list, folder);
    let tail = r.drop_first();
    assert(tail =~= w.take(r.len() - 1));
    assert(!tail.contains(folder)) by {
        if tail.contains(folder) {
            let j = choose|j: int| 0 <= j < tail.len() && tail[j] == folder;
            assert(w[j] == folder);
        }
    }
    lemma_without_absent(tail, folder);
    assert(r =~= seq![folder] + tail);
    lemma_without_concat(seq![folder], tail, folder);
    let single = seq![folder];
    assert(single.drop_last() =~= Seq::<Seq<char>>::empty());
    assert(single.last() == folder);
    assert(without(single.drop_last(), folder) =~= Seq::<Seq<char>>::empty());
    assert(without(single, folder) =~= Seq::<Seq<char>>::empty());
    assert(seq![folder] + without(r, folder) =~= r);
}

/// Nothing is dropped from a short list: opening a folder not in a list of
/// fewer than eight puts it in front of the whole list; and in general the
/// new list holds eight entries, or all the others and the folder where
/// those are fewer.
pub proof fn lemma_recent_keeps_short_lists(list: Seq<Seq<char>>, folder: Seq<char>)
    ensures
        !list.contains(folder) && list.len() < 8 ==> recent_after(list, folder) == seq![folder]
            + list,
        recent_after(list, folder).len() == if without(list, folder).len() + 1 > 8 {
            8
        } else {
            without(list, folder).len() + 1
        },
{
    if !list.contains(folder) {
        lemma_without_absent(list, folder);
    }
}

} // verus!
