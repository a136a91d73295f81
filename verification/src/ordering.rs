//! Which gallery items a search shows, and in which order.
use vstd::prelude::*;
use crate::scanner::WallpaperItem;
use crate::text::{
    chars_eq, chars_lt, chars_of, contains_chars, contains_seq, lemma_seq_lt_asymmetric,
    lemma_seq_lt_irreflexive, lemma_seq_lt_total, lemma_seq_lt_transitive, lower, lowercase,
    seq_lt, trim_chars, trimmed,
};

verus! {

/// The orders the gallery can be shown in.
#[derive(Debug, Clone, Copy, PartialEq, Eq, Structural)]
pub enum SortOption {
    NameAsc,
    NameDesc,
    DateNewest,
    DateOldest,
    SizeLargest,
}

impl SortOption {
    /// Every order, as the sort menu lists them.
    pub const ALL: [SortOption; 5] = [
        SortOption::NameAsc,
        SortOption::NameDesc,
        SortOption::DateNewest,
        SortOption::DateOldest,
        SortOption::SizeLargest,
    ];

    /// The name shown in the sort menu.
    pub open spec fn label(self) -> Seq<char> {
        match self {
            SortOption::NameAsc => "Name (A-Z)"@,
            SortOption::NameDesc => "Name (Z-A)"@,
            SortOption::DateNewest => "Date (Newest)"@,
            SortOption::DateOldest => "Date (Oldest)"@,
            SortOption::SizeLargest => "Size (Largest)"@,
        }
    }

    pub fn as_str(&self) -> (r: &'static str)
        ensures
            r@ == self.label(),
    {
        match self {
            SortOption::NameAsc => "Name (A-Z)",
            SortOption::NameDesc => "Name (Z-A)",
            SortOption::DateNewest => "Date (Newest)",
            SortOption::DateOldest => "Date (Oldest)",
            SortOption::SizeLargest => "Size (Largest)",
        }
    }
}

/// The search text as it is matched: trimmed, then lower-cased.
pub open spec fn query_key(search: Seq<char>) -> Seq<char> {
    lower(trimmed(search))
}

/// An item's name as it is searched and sorted: lower-cased.
pub open spec fn name_key(item: WallpaperItem) -> Seq<char> {
    lower(item.name@)
}

/// The item is shown for the search key: the key is empty or occurs in the
/// lower-cased name.
pub open spec fn matches_query(item: WallpaperItem, key: Seq<char>) -> bool {
    key.len() == 0 || contains_seq(name_key(item), key)
}

/// Item `a` is shown before item `b` in order `opt`. Items that compare
/// equal keep the order of the folder scan (a stable sort of the scan order).
pub open spec fn shown_before(opt: SortOption, items: Seq<WallpaperItem>, a: usize, b: usize) -> bool {
    let ka = name_key(items[a as int]);
    let kb = name_key(items[b as int]);
    let ma = items[a as int].modified;
    let mb = items[b as int].modified;
    let sa = items[a as int].size_bytes;
    let sb = items[b as int].size_bytes;
    match opt {
        SortOption::NameAsc => seq_lt(ka, kb) || (ka == kb && a < b),
        SortOption::NameDesc => seq_lt(kb, ka) || (ka == kb && a < b),
        SortOption::DateNewest => mb < ma || (ma == mb && a < b),
        SortOption::DateOldest => ma < mb || (ma == mb && a < b),
        SortOption::SizeLargest => sb < sa || (sa == sb && a < b),
    }
}

/// `s` lists items strictly in order `opt` (so none twice).
pub open spec fn in_order(opt: SortOption, items: Seq<WallpaperItem>, s: Seq<usize>) -> bool {
    forall|i: int, j: int| 0 <= i < j < s.len() ==> shown_before(opt, items, #[trigger] s[i], #[trigger] s[j])
}

/// `s` lists exactly the items shown for `key`.
pub open spec fn lists_matches(items: Seq<WallpaperItem>, key: Seq<char>, s: Seq<usize>) -> bool {
    forall|x: usize| s.contains(x) <==> (x < items.len() && matches_query(items[x as int], key))
}

pub proof fn lemma_shown_before_irreflexive(opt: SortOption, items: Seq<WallpaperItem>, a: usize)
    ensures
        !shown_before(opt, items, a, a),
{
    lemma_seq_lt_irreflexive(name_key(items[a as int]));
}

pub proof fn lemma_shown_before_total(
    opt: SortOption,
    items: Seq<WallpaperItem>,
    a: usize,
    b: usize,
)
    requires
        a != b,
    ensures
        shown_before(opt, items, a, b) || shown_before(opt, items, b, a),
{
    let ka = name_key(items[a as int]);
    let kb = name_key(items[b as int]);
    if ka != kb {
        lemma_seq_lt_total(ka, kb);
    }
}

pub proof fn lemma_shown_before_transitive(
    opt: SortOption,
    items: Seq<WallpaperItem>,
    a: usize,
    b: usize,
    c: usize,
)
    requires
        shown_before(opt, items, a, b),
        shown_before(opt, items, b, c),
    ensures
        shown_before(opt, items, a, c),
{
    let ka = name_key(items[a as int]);
    let kb = name_key(items[b as int]);
    let kc = name_key(items[c as int]);
    match opt {
        SortOption::NameAsc => {
            if seq_lt(ka, kb) && seq_lt(kb, kc) {
                lemma_seq_lt_transitive(ka, kb, kc);
            }
        },
        SortOption::NameDesc => {
            if seq_lt(kb, ka) && seq_lt(kc, kb) {
                lemma_seq_lt_transitive(kc, kb, ka);
            }
        },
        _ => {},
    }
}

pub proof fn lemma_shown_before_asymmetric(
    opt: SortOption,
    items: Seq<WallpaperItem>,
    a: usize,
    b: usize,
)
    requires
        shown_before(opt, items, a, b),
    ensures
        !shown_before(opt, items, b, a),
{
    if shown_before(opt, items, b, a) {
        lemma_shown_before_transitive(opt, items, a, b, a);
        lemma_shown_before_irreflexive(opt, items, a);
    }
}

/// The lower-cased names of all items.
pub fn name_keys(items: &Vec<WallpaperItem>) -> (keys: Vec<Vec<char>>)
    ensures
        keys.len() == items.len(),
        forall|i: int| 0 <= i < items.len() ==> #[trigger] keys@[i]@ == name_key(items@[i]),
{
    let mut keys: Vec<Vec<char>> = Vec::new();
    let mut i: usize = 0;
    while i < items.len()
        invariant
            i <= items.len(),
            keys.len() == i,
            forall|j: int| 0 <= j < i ==> #[trigger] keys@[j]@ == name_key(items@[j]),
        decreases items.len() - i,
    {
        let low = lowercase(items[i].name.as_str());
        keys.push(chars_of(low.as_str()));
        i = i + 1;
    }
    keys
}

/// The search key of a search text.
pub fn search_key(search: &str) -> (key: Vec<char>)
    ensures
        key@ == query_key(search@),
{
    let t = trim_chars(search);
    let mut s = String::new();
    let n = t.len();
    crate::text::push_chars(&mut s, &t, 0, n);
    assert(s@ =~= t@);
    let low = lowercase(s.as_str());
    chars_of(low.as_str())
}

fn shown_before_exec(
    items: &Vec<WallpaperItem>,
    keys: &Vec<Vec<char>>,
    opt: SortOption,
    a: usize,
    b: usize,
) -> (r: bool)
    requires
        a < items.len(),
        b < items.len(),
        keys.len() == items.len(),
        forall|i: int| 0 <= i < items.len() ==> #[trigger] keys@[i]@ == name_key(items@[i]),
    ensures
        r == shown_before(opt, items@, a, b),
{
    let ka = &keys[a];
    let kb = &keys[b];
    assert(ka@ == name_key(items@[a as int]));
    assert(kb@ == name_key(items@[b as int]));
    let ia = &items[a];
    let ib = &items[b];
    match opt {
        SortOption::NameAsc => chars_lt(ka, kb) || (chars_eq(ka, kb) && a < b),
        SortOption::NameDesc => chars_lt(kb, ka) || (chars_eq(ka, kb) && a < b),
        SortOption::DateNewest => ib.modified < ia.modified || (ia.modified == ib.modified && a < b),
        SortOption::DateOldest => ia.modified < ib.modified || (ia.modified == ib.modified && a < b),
        SortOption::SizeLargest => ib.size_bytes < ia.size_bytes || (ia.size_bytes == ib.size_bytes
            && a < b),
    }
}

/// The indices of the items shown for `key`, in scan order.
pub fn matching_indices(items: &Vec<WallpaperItem>, keys: &Vec<Vec<char>>, key: &Vec<char>) -> (r: Vec<
    usize,
>)
    requires
        keys.len() == items.len(),
        forall|i: int| 0 <= i < items.len() ==> #[trigger] keys@[i]@ == name_key(items@[i]),
    ensures
        lists_matches(items@, key@, r@),
        forall|i: int, j: int| 0 <= i < j < r.len() ==> r@[i] < r@[j],
        forall|i: int| 0 <= i < r.len() ==> r@[i] < items.len(),
{
    let mut r: Vec<usize> = Vec::new();
    let mut i: usize = 0;
    while i < items.len()
        invariant
            i <= items.len(),
            keys.len() == items.len(),
            forall|j: int| 0 <= j < items.len() ==> #[trigger] keys@[j]@ == name_key(items@[j]),
            forall|x: usize| r@.contains(x) <==> (x < i && matches_query(items@[x as int], key@)),
            forall|a: int, b: int| 0 <= a < b < r.len() ==> r@[a] < r@[b],
            forall|a: int| 0 <= a < r.len() ==> r@[a] < i,
        decreases items.len() - i,
    {
        assert(keys@[i as int]@ == name_key(items@[i as int]));
        let shown = key.len() == 0 || contains_chars(&keys[i], key);
        let ghost before = r@;
        if shown {
            r.push(i);
            assert forall|x: usize| r@.contains(x) <==> (x < i + 1 && matches_query(
                items@[x as int],
                key@,
            )) by {
                if x == i {
                    assert(r@[r.len() - 1] == i);
                }
                if r@.contains(x) && x != i {
                    let k = choose|k: int| 0 <= k < r.len() && r@[k] == x;
                    assert(before[k] == x);
                }
                if before.contains(x) {
                    let k = choose|k: int| 0 <= k < before.len() && before[k] == x;
                    assert(r@[k] == x);
                }
            }
        } else {
            assert forall|x: usize| r@.contains(x) <==> (x < i + 1 && matches_query(
                items@[x as int],
                key@,
            )) by {
                if x == i && r@.contains(x) {
                    let k = choose|k: int| 0 <= k < r.len() && r@[k] == x;
                }
            }
        }
        i = i + 1;
    }
    r
}

/// `input` (distinct, ascending) rearranged into order `opt`.
pub fn sort_indices(
    items: &Vec<WallpaperItem>,
    keys: &Vec<Vec<char>>,
    opt: SortOption,
    input: &Vec<usize>,
) -> (out: Vec<usize>)
    requires
        keys.len() == items.len(),
        forall|i: int| 0 <= i < items.len() ==> #[trigger] keys@[i]@ == name_key(items@[i]),
        forall|i: int, j: int| 0 <= i < j < input.len() ==> input@[i] < input@[j],
        forall|i: int| 0 <= i < input.len() ==> input@[i] < items.len(),
    ensures
        out.len() == input.len(),
        forall|x: usize| out@.contains(x) <==> input@.contains(x),
        in_order(opt, items@, out@),
        forall|i: int| 0 <= i < out.len() ==> out@[i] < items.len(),
{
    let mut out: Vec<usize> = Vec::new();
    let mut k: usize = 0;
    while k < input.len()
        invariant
            k <= input.len(),
            keys.len() == items.len(),
            forall|i: int| 0 <= i < items.len() ==> #[trigger] keys@[i]@ == name_key(items@[i]),
            forall|i: int, j: int| 0 <= i < j < input.len() ==> input@[i] < input@[j],
            forall|i: int| 0 <= i < input.len() ==> input@[i] < items.len(),
            out.len() == k,
            forall|x: usize| out@.contains(x) <==> input@.take(k as int).contains(x),
            in_order(opt, items@, out@),
            forall|i: int| 0 <= i < out.len() ==> out@[i] < items.len(),
        decreases input.len() - k,
    {
        let x = input[k];
        let ghost old_out = out@;
        proof {
            // x is larger than every index placed so far, so it is new
            assert forall|q: int| 0 <= q < old_out.len() implies old_out[q] != x by {
                assert(old_out.contains(old_out[q]));
                assert(input@.take(k as int).contains(old_out[q]));
                let m = choose|m: int| 0 <= m < input@.take(k as int).len() && input@.take(k as int)[m] == old_out[q];
                assert(input@[m] < input@[k as int]);
            }
        }
        // binary search for the place of x: after all that precede it
        let mut lo: usize = 0;
        let mut hi: usize = out.len();
        while lo < hi
            invariant
                lo <= hi <= out.len(),
                out@ == old_out,
                x < items.len(),
                keys.len() == items.len(),
                forall|i: int| 0 <= i < items.len() ==> #[trigger] keys@[i]@ == name_key(items@[i]),
                forall|i: int| 0 <= i < out.len() ==> out@[i] < items.len(),
                forall|q: int| 0 <= q < out.len() ==> out@[q] != x,
                in_order(opt, items@, out@),
                forall|q: int| 0 <= q < lo ==> shown_before(opt, items@, #[trigger] out@[q], x),
                forall|q: int| hi <= q < out.len() ==> shown_before(opt, items@, x, #[trigger] out@[q]),
            decreases hi - lo,
        {
            let mid = lo + (hi - lo) / 2;
            if shown_before_exec(items, keys, opt, out[mid], x) {
                proof {
                    assert forall|q: int| 0 <= q < mid + 1 implies shown_before(
                        opt,
                        items@,
                        #[trigger] out@[q],
                        x,
                    ) by {
                        if q < mid {
                            assert(shown_before(opt, items@, out@[q], out@[mid as int]));
                            lemma_shown_before_transitive(opt, items@, out@[q], out@[mid as int], x);
                        }
                    }
                }
                lo = mid + 1;
            } else {
                proof {
                    lemma_shown_before_total(opt, items@, x, out@[mid as int]);
                    assert forall|q: int| mid <= q < out.len() implies shown_before(
                        opt,
                        items@,
                        x,
                        #[trigger] out@[q],
                    ) by {
                        if mid < q < hi {
                            assert(shown_before(opt, items@, out@[mid as int], out@[q]));
                            lemma_shown_before_transitive(opt, items@, x, out@[mid as int], out@[q]);
                        }
                    }
                }
                hi = mid;
            }
        }
        let p = lo;
        out.insert(p, x);
        proof {
            old_out.insert_ensures(p as int, x);
            assert forall|i: int, j: int| 0 <= i < j < out.len() implies shown_before(
                opt,
                items@,
                #[trigger] out@[i],
                #[trigger] out@[j],
            ) by {
                if j < p {
                    assert(shown_before(opt, items@, old_out[i], old_out[j]));
                } else if j == p {
                    assert(shown_before(opt, items@, old_out[i], x));
                } else if i < p {
                    assert(out@[j] == old_out[j - 1]);
                    assert(shown_before(opt, items@, old_out[i], old_out[j - 1]));
                } else if i == p {
                    assert(out@[j] == old_out[j - 1]);
                    assert(shown_before(opt, items@, x, old_out[j - 1]));
                } else {
                    assert(out@[i] == old_out[i - 1]);
                    assert(out@[j] == old_out[j - 1]);
                    assert(shown_before(opt, items@, old_out[i - 1], old_out[j - 1]));
                }
            }
            assert(input@.take(k + 1) =~= input@.take(k as int).push(x));
            assert forall|y: usize| out@.contains(y) <==> input@.take(k + 1).contains(y) by {
                if out@.contains(y) {
                    let m = choose|m: int| 0 <= m < out.len() && out@[m] == y;
                    if m < p {
                        assert(old_out[m] == y);
                        assert(old_out.contains(y));
                        assert(input@.take(k as int).contains(y));
                        let t = choose|t: int| 0 <= t < k && input@.take(k as int)[t] == y;
                        assert(input@.take(k + 1)[t] == y);
                    } else if m == p {
                        assert(input@.take(k + 1)[k as int] == y);
                    } else {
                        assert(old_out[m - 1] == y);
                        assert(old_out.contains(y));
                        assert(input@.take(k as int).contains(y));
                        let t = choose|t: int| 0 <= t < k && input@.take(k as int)[t] == y;
                        assert(input@.take(k + 1)[t] == y);
                    }
                }
                if input@.take(k + 1).contains(y) {
                    let t = choose|t: int| 0 <= t < k + 1 && #[trigger] input@.take(k + 1)[t] == y;
                    if t == k {
                        assert(out@[p as int] == y);
                    } else {
                        assert(input@.take(k as int)[t] == y);
                        assert(old_out.contains(y));
                        let m = choose|m: int| 0 <= m < old_out.len() && old_out[m] == y;
                        if m < p {
                            assert(out@[m] == y);
                        } else {
                            assert(out@[m + 1] == y);
                        }
                    }
                }
            }
            assert forall|i: int| 0 <= i < out.len() implies out@[i] < items.len() by {
                if i < p {
                    assert(out@[i] == old_out[i]);
                } else if i > p {
                    assert(out@[i] == old_out[i - 1]);
                }
            }
        }
        k = k + 1;
    }
    assert(input@.take(input.len() as int) =~= input@);
    out
}

/// Two lists of the same items, each in order `opt`, are the same list:
/// the order of the gallery is fully determined by the items shown.
pub proof fn lemma_order_unique(
    opt: SortOption,
    items: Seq<WallpaperItem>,
    s: Seq<usize>,
    t: Seq<usize>,
)
    requires
        in_order(opt, items, s),
        in_order(opt, items, t),
        forall|x: usize| s.contains(x) <==> t.contains(x),
    ensures
        s == t,
    decreases s.len() + t.len(),
{
    if s.len() == 0 {
        if t.len() > 0 {
            assert(t.contains(t[0]));
        }
        assert(s =~= t);
    } else if t.len() == 0 {
        assert(s.contains(s[0]));
    } else {
        // the first elements agree: each precedes all others of its list
        let a = s[0];
        let b = t[0];
        if a != b {
            assert(t.contains(a));
            let j = choose|j: int| 0 <= j < t.len() && t[j] == a;
            assert(s.contains(b));
            let i = choose|i: int| 0 <= i < s.len() && s[i] == b;
            assert(j > 0);
            assert(i > 0);
            assert(shown_before(opt, items, t[0], t[j]));
            assert(shown_before(opt, items, s[0], s[i]));
            lemma_shown_before_asymmetric(opt, items, b, a);
        }
        let s1 = s.drop_first();
        let t1 = t.drop_first();
        assert forall|i: int, j: int| 0 <= i < j < s1.len() implies shown_before(
            opt,
            items,
            #[trigger] s1[i],
            #[trigger] s1[j],
        ) by {
            assert(shown_before(opt, items, s[i + 1], s[j + 1]));
        }
        assert forall|i: int, j: int| 0 <= i < j < t1.len() implies shown_before(
            opt,
            items,
            #[trigger] t1[i],
            #[trigger] t1[j],
        ) by {
            assert(shown_before(opt, items, t[i + 1], t[j + 1]));
        }
        assert forall|x: usize| s1.contains(x) <==> t1.contains(x) by {
            if s1.contains(x) {
                let i = choose|i: int| 0 <= i < s1.len() && s1[i] == x;
                assert(s[i + 1] == x);
                assert(shown_before(opt, items, s[0], s[i + 1]));
                if x == a {
                    lemma_shown_before_irreflexive(opt, items, a);
                }
                assert(t.contains(x));
                let j = choose|j: int| 0 <= j < t.len() && t[j] == x;
                assert(j != 0);
                assert(t1[j - 1] == x);
            }
            if t1.contains(x) {
                let j = choose|j: int| 0 <= j < t1.len() && t1[j] == x;
                assert(t[j + 1] == x);
                assert(shown_before(opt, items, t[0], t[j + 1]));
                if x == b {
                    lemma_shown_before_irreflexive(opt, items, b);
                }
                assert(s.contains(x));
                let i = choose|i: int| 0 <= i < s.len() && s[i] == x;
                assert(i != 0);
                assert(s1[i - 1] == x);
            }
        }
        lemma_order_unique(opt, items, s1, t1);
        assert(s =~= seq![a] + s1);
        assert(t =~= seq![b] + t1);
    }
}

/// With an empty search key every item is shown.
pub proof fn lemma_empty_key_shows_all(items: Seq<WallpaperItem>, key: Seq<char>, f: Seq<usize>)
    requires
        key.len() == 0,
        lists_matches(items, key, f),
    ensures
        forall|x: usize| x < items.len() ==> f.contains(x),
{
}

/// Outer white space does not change the search key.
pub proof fn lemma_query_key_ignores_outer_space(search: Seq<char>)
    ensures
        query_key(trimmed(search)) == query_key(search),
{
    crate::text::lemma_trimmed_idempotent(search);
}

/// When no two shown names are equal ignoring case, `Name (Z-A)` is
/// `Name (A-Z)` backwards.
pub proof fn lemma_name_desc_reverses_asc(items: Seq<WallpaperItem>, s: Seq<usize>)
    requires
        in_order(SortOption::NameAsc, items, s),
        forall|i: int, j: int|
            0 <= i < s.len() && 0 <= j < s.len() && i != j ==> name_key(items[s[i] as int])
                != name_key(items[s[j] as int]),
    ensures
        in_order(SortOption::NameDesc, items, s.reverse()),
{
    let r = s.reverse();
    let n = s.len();
    assert forall|i: int, j: int| 0 <= i < j < r.len() implies shown_before(
        SortOption::NameDesc,
        items,
        #[trigger] r[i],
        #[trigger] r[j],
    ) by {
        assert(r[i] == s[n - 1 - i]);
        assert(r[j] == s[n - 1 - j]);
        assert(shown_before(SortOption::NameAsc, items, s[n - 1 - j], s[n - 1 - i]));
    }
}

/// `key` occurs in `hay` at position `i`, character by character.
pub open spec fn chars_at(hay: Seq<char>, key: Seq<char>, i: int) -> bool {
    0 <= i && i + key.len() <= hay.len() && forall|j: int| 0 <= j < key.len() ==> hay[i + j] == key[j]
}

/// A search with a non-empty key shows an item exactly when the key occurs
/// in the item's lower-cased file name (its `name`), wherever the file is:
/// the folder path plays no part.
pub proof fn lemma_search_matches_file_name(
    items: Seq<WallpaperItem>,
    key: Seq<char>,
    f: Seq<usize>,
    x: usize,
)
    requires
        key.len() > 0,
        lists_matches(items, key, f),
    ensures
        f.contains(x) <==> (x < items.len() && exists|i: int|
            #[trigger] chars_at(lower(items[x as int].name@), key, i)),
{
    if x < items.len() {
        let hay = lower(items[x as int].name@);
        if exists|i: int| #[trigger] chars_at(hay, key, i) {
            let i = choose|i: int| #[trigger] chars_at(hay, key, i);
            assert(hay.subrange(i, i + key.len()) =~= key);
            assert(crate::text::occurs_at(hay, key, i));
        }
        if contains_seq(hay, key) {
            let i = choose|i: int| #[trigger] crate::text::occurs_at(hay, key, i);
            assert forall|j: int| 0 <= j < key.len() implies hay[i + j] == key[j] by {
                assert(hay.subrange(i, i + key.len())[j] == key[j]);
            }
            assert(chars_at(hay, key, i));
        }
    }
}

/// Two items with the same file name are shown or hidden together by any
/// search, whatever their folders.
pub proof fn lemma_search_ignores_folder(
    items: Seq<WallpaperItem>,
    key: Seq<char>,
    f: Seq<usize>,
    x: usize,
    y: usize,
)
    requires
        lists_matches(items, key, f),
        x < items.len(),
        y < items.len(),
        items[x as int].name@ == items[y as int].name@,
    ensures
        f.contains(x) == f.contains(y),
{
}

/// `a` comes before `b` in dictionary order with the first `k` characters
/// shared: `a` ends there while `b` goes on, or at `k` the character of `a`
/// is the smaller.
pub open spec fn lex_below_at(a: Seq<char>, b: Seq<char>, k: int) -> bool {
    0 <= k <= a.len() && k <= b.len() && a.subrange(0, k) == b.subrange(0, k) && ((k == a.len()
        && k < b.len()) || (k < a.len() && k < b.len() && a[k] < b[k]))
}

proof fn lemma_seq_lt_witness(a: Seq<char>, b: Seq<char>) -> (k: int)
    requires
        seq_lt(a, b),
    ensures
        lex_below_at(a, b, k),
    decreases a.len(),
{
    if a.len() == 0 || a[0] != b[0] {
        assert(a.subrange(0, 0) =~= b.subrange(0, 0));
        0
    } else {
        let k = lemma_seq_lt_witness(a.drop_first(), b.drop_first());
        assert(a.subrange(0, k + 1) =~= seq![a[0]] + a.drop_first().subrange(0, k));
        assert(b.subrange(0, k + 1) =~= seq![b[0]] + b.drop_first().subrange(0, k));
        k + 1
    }
}

proof fn lemma_lex_below_at_seq_lt(a: Seq<char>, b: Seq<char>, k: int)
    requires
        lex_below_at(a, b, k),
    ensures
        seq_lt(a, b),
    decreases k,
{
    if k > 0 {
        assert(a[0] == a.subrange(0, k)[0]);
        assert(b[0] == b.subrange(0, k)[0]);
        assert(a.drop_first().subrange(0, k - 1) =~= a.subrange(0, k).drop_first());
        assert(b.drop_first().subrange(0, k - 1) =~= b.subrange(0, k).drop_first());
        lemma_lex_below_at_seq_lt(a.drop_first(), b.drop_first(), k - 1);
    }
}

/// `seq_lt` is dictionary order: `a` is before `b` exactly when, after a
/// shared beginning, either `a` ends while `b` goes on or the next character
/// of `a` is the smaller.
pub proof fn lemma_seq_lt_lexicographic(a: Seq<char>, b: Seq<char>)
    ensures
        seq_lt(a, b) <==> exists|k: int| #[trigger] lex_below_at(a, b, k),
{
    if seq_lt(a, b) {
        let k = lemma_seq_lt_witness(a, b);
    }
    if exists|k: int| #[trigger] lex_below_at(a, b, k) {
        let k = choose|k: int| #[trigger] lex_below_at(a, b, k);
        lemma_lex_below_at_seq_lt(a, b, k);
    }
}

/// In a gallery list ordered by `opt`, an item before another never has the
/// worse key: by name (lower-cased) not after it for A-Z and not before it
/// for Z-A, not older for Newest, not newer for Oldest, not smaller for
/// Largest; items with equal keys keep their scan order.
pub proof fn lemma_order_by_key(
    opt: SortOption,
    items: Seq<WallpaperItem>,
    s: Seq<usize>,
    i: int,
    j: int,
)
    requires
        in_order(opt, items, s),
        0 <= i < j < s.len(),
    ensures
        ({
            let a = items[s[i] as int];
            let b = items[s[j] as int];
            match opt {
                SortOption::NameAsc => !seq_lt(lower(b.name@), lower(a.name@)) && (lower(a.name@)
                    == lower(b.name@) ==> s[i] < s[j]),
                SortOption::NameDesc => !seq_lt(lower(a.name@), lower(b.name@)) && (lower(a.name@)
                    == lower(b.name@) ==> s[i] < s[j]),
                SortOption::DateNewest => a.modified >= b.modified && (a.modified == b.modified
                    ==> s[i] < s[j]),
                SortOption::DateOldest => a.modified <= b.modified && (a.modified == b.modified
                    ==> s[i] < s[j]),
                SortOption::SizeLargest => a.size_bytes >= b.size_bytes && (a.size_bytes
                    == b.size_bytes ==> s[i] < s[j]),
            }
        }),
{
    assert(shown_before(opt, items, s[i], s[j]));
    let ka = lower(items[s[i] as int].name@);
    let kb = lower(items[s[j] as int].name@);
    lemma_seq_lt_irreflexive(ka);
    if seq_lt(ka, kb) {
        lemma_seq_lt_asymmetric(ka, kb);
    }
    if seq_lt(kb, ka) {
        lemma_seq_lt_asymmetric(kb, ka);
    }
}

/// Under `Size (Largest)` an item with more bytes is listed before one with
/// fewer; likewise newer first under `Date (Newest)`, older first under
/// `Date (Oldest)`.
pub proof fn lemma_larger_first(items: Seq<WallpaperItem>, s: Seq<usize>, i: int, j: int)
    requires
        0 <= i < s.len(),
        0 <= j < s.len(),
    ensures
        in_order(SortOption::SizeLargest, items, s) && items[s[i] as int].size_bytes
            > items[s[j] as int].size_bytes ==> i < j,
        in_order(SortOption::DateNewest, items, s) && items[s[i] as int].modified
            > items[s[j] as int].modified ==> i < j,
        in_order(SortOption::DateOldest, items, s) && items[s[i] as int].modified
            < items[s[j] as int].modified ==> i < j,
{
    if j < i {
        if in_order(SortOption::SizeLargest, items, s) {
            lemma_order_by_key(SortOption::SizeLargest, items, s, j, i);
        }
        if in_order(SortOption::DateNewest, items, s) {
            lemma_order_by_key(SortOption::DateNewest, items, s, j, i);
        }
        if in_order(SortOption::DateOldest, items, s) {
            lemma_order_by_key(SortOption::DateOldest, items, s, j, i);
        }
    }
}

} // verus!
