//! File names and extensions of `/`-separated paths, read the way
//! `Path::file_name` and `Path::extension` read them.
use vstd::prelude::*;
use crate::text::{ascii_ci_eq, ascii_ci_eq_range, ascii_lower, chars_of};

verus! {

/// Index of the last `c` in `s`, or -1.
pub open spec fn last_index_of(s: Seq<char>, c: char) -> int
    decreases s.len(),
{
    if s.len() == 0 {
        -1
    } else if s.last() == c {
        s.len() - 1
    } else {
        last_index_of(s.drop_last(), c)
    }
}

pub proof fn lemma_last_index_bounds(s: Seq<char>, c: char)
    ensures
        -1 <= last_index_of(s, c) < s.len(),
        last_index_of(s, c) >= 0 ==> s[last_index_of(s, c)] == c,
        forall|m: int| last_index_of(s, c) < m < s.len() ==> s[m] != c,
    decreases s.len(),
{
    if s.len() > 0 && s.last() != c {
        lemma_last_index_bounds(s.drop_last(), c);
        assert forall|m: int| last_index_of(s, c) < m < s.len() implies s[m] != c by {
            if m < s.len() - 1 {
                assert(s[m] == s.drop_last()[m]);
            }
        }
    }
}

/// Scanning back from `end` to `j` past no `c`, and `j` is the start or
/// follows a `c`: then `j - 1` is the last `c` before `end`.
proof fn lemma_last_index_scan(s: Seq<char>, c: char, j: int, end: int)
    requires
        0 <= j <= end <= s.len(),
        forall|m: int| j <= m < end ==> s[m] != c,
        j == 0 || s[j - 1] == c,
    ensures
        last_index_of(s.subrange(0, end), c) == j - 1,
    decreases end - j,
{
    if end > j {
        assert(s.subrange(0, end).drop_last() =~= s.subrange(0, end - 1));
        lemma_last_index_scan(s, c, j, end - 1);
    } else if j > 0 {
        assert(s.subrange(0, end).last() == c);
    }
}

/// The last component of `p` that is not empty and not `.`, as
/// `Path::components` yields them from the back.
pub open spec fn last_component(p: Seq<char>) -> Option<Seq<char>>
    decreases p.len(),
{
    if p.len() == 0 {
        None
    } else {
        let j = last_index_of(p, '/');
        let seg = p.subrange(j + 1, p.len() as int);
        if seg.len() > 0 && seg != seq!['.'] {
            Some(seg)
        } else if j < 0 {
            None
        } else {
            proof {
                lemma_last_index_bounds(p, '/');
            }
            last_component(p.subrange(0, j))
        }
    }
}

/// The file name of a path: its last component, unless that is `..` or
/// there is none (`Path::file_name`).
pub open spec fn file_name(p: Seq<char>) -> Option<Seq<char>> {
    match last_component(p) {
        Some(s) => if s == seq!['.', '.'] {
            None
        } else {
            Some(s)
        },
        None => None,
    }
}

/// The extension of a file name: what follows its last `.`, unless there is
/// no `.` or the only one leads the name (`Path::extension`).
pub open spec fn name_extension(name: Seq<char>) -> Option<Seq<char>> {
    let i = last_index_of(name, '.');
    if i <= 0 {
        None
    } else {
        Some(name.subrange(i + 1, name.len() as int))
    }
}

/// The extension of the path's file name.
pub open spec fn path_extension(p: Seq<char>) -> Option<Seq<char>> {
    match file_name(p) {
        Some(n) => name_extension(n),
        None => None,
    }
}

/// The positions `[a, b)` of the file name of `v`.
pub fn file_name_range(v: &Vec<char>) -> (r: Option<(usize, usize)>)
    ensures
        match r {
            Some((a, b)) => a <= b <= v.len() && file_name(v@) == Some(v@.subrange(
                a as int,
                b as int,
            )),
            None => file_name(v@) is None,
        },
{
    let mut end: usize = v.len();
    assert(v@.subrange(0, end as int) =~= v@);
    loop
        invariant
            end <= v.len(),
            last_component(v@) == last_component(v@.subrange(0, end as int)),
        decreases end,
    {
        let ghost p = v@.subrange(0, end as int);
        if end == 0 {
            assert(last_component(p) is None);
            return None;
        }
        let mut j: usize = end;
        while j > 0 && v[j - 1] != '/'
            invariant
                j <= end <= v.len(),
                forall|m: int| j <= m < end ==> v@[m] != '/',
            decreases j,
        {
            j = j - 1;
        }
        proof {
            lemma_last_index_scan(v@, '/', j as int, end as int);
            assert(p.subrange(j as int, end as int) =~= v@.subrange(j as int, end as int));
        }
        let seg_len = end - j;
        if seg_len > 0 && !(seg_len == 1 && v[j] == '.') {
            proof {
                let seg = v@.subrange(j as int, end as int);
                if seg == seq!['.'] {
                    assert(seg[0] == '.');
                }
                assert(last_component(p) == Some(seg));
            }
            if seg_len == 2 && v[j] == '.' && v[j + 1] == '.' {
                assert(v@.subrange(j as int, end as int) =~= seq!['.', '.']);
                return None;
            }
            proof {
                let seg = v@.subrange(j as int, end as int);
                if seg == seq!['.', '.'] {
                    assert(seg[0] == '.' && seg[1] == '.');
                }
            }
            return Some((j, end));
        }
        proof {
            let seg = v@.subrange(j as int, end as int);
            if seg_len == 1 {
                assert(seg =~= seq!['.']);
            }
        }
        if j == 0 {
            return None;
        }
        proof {
            assert(p.subrange(0, (j - 1) as int) =~= v@.subrange(0, (j - 1) as int));
        }
        end = j - 1;
    }
}

/// The positions of the extension within the name `v[a..b]`.
fn name_extension_range(v: &Vec<char>, a: usize, b: usize) -> (r: Option<(usize, usize)>)
    requires
        a <= b <= v.len(),
    ensures
        match r {
            Some((x, y)) => a <= x <= y <= b && name_extension(v@.subrange(a as int, b as int))
                == Some(v@.subrange(x as int, y as int)),
            None => name_extension(v@.subrange(a as int, b as int)) is None,
        },
{
    let ghost name = v@.subrange(a as int, b as int);
    let mut j: usize = b;
    while j > a && v[j - 1] != '.'
        invariant
            a <= j <= b <= v.len(),
            forall|m: int| j <= m < b ==> v@[m] != '.',
        decreases j,
    {
        j = j - 1;
    }
    proof {
        assert forall|m: int| j - a <= m < name.len() implies name[m] != '.' by {
            assert(name[m] == v@[a + m]);
        }
        if j > a {
            assert(name[j - a - 1] == '.');
        }
        lemma_last_index_scan(name, '.', j - a, name.len() as int);
        assert(name.subrange(0, name.len() as int) =~= name);
    }
    if j - a <= 1 {
        None
    } else {
        assert(name.subrange(j - a, name.len() as int) =~= v@.subrange(j as int, b as int));
        Some((j, b))
    }
}

/// The positions `[a, b)` of the extension of the file name of `v`.
pub fn extension_range(v: &Vec<char>) -> (r: Option<(usize, usize)>)
    ensures
        match r {
            Some((a, b)) => a <= b <= v.len() && path_extension(v@) == Some(v@.subrange(
                a as int,
                b as int,
            )),
            None => path_extension(v@) is None,
        },
{
    match file_name_range(v) {
        None => None,
        Some((a, b)) => name_extension_range(v, a, b),
    }
}

/// The path's extension is `png`, `jpg`, `jpeg`, `webp` or `bmp`, in any
/// ASCII case.
pub open spec fn has_image_extension(p: Seq<char>) -> bool {
    match path_extension(p) {
        Some(e) => ascii_ci_eq(e, "png"@) || ascii_ci_eq(e, "jpg"@) || ascii_ci_eq(e, "jpeg"@)
            || ascii_ci_eq(e, "webp"@) || ascii_ci_eq(e, "bmp"@),
        None => false,
    }
}

/// Whether the path names a file of a supported image type, judged by its
/// extension alone (lower-cased, as `to_lowercase` would).
pub fn is_image_file(path: &str) -> (r: bool)
    ensures
        r == has_image_extension(path@),
{
    let v = chars_of(path);
    match extension_range(&v) {
        None => false,
        Some((a, b)) => {
            ascii_ci_eq_range(&v, a, b, "png") || ascii_ci_eq_range(&v, a, b, "jpg")
                || ascii_ci_eq_range(&v, a, b, "jpeg") || ascii_ci_eq_range(&v, a, b, "webp")
                || ascii_ci_eq_range(&v, a, b, "bmp")
        },
    }
}

/// The file name of a path that ends in `/` and then a name `seg` (no `/`
/// in it, not `.` or `..`) is `seg`, whatever comes before; a path that is
/// such a name alone is its own file name.
pub proof fn lemma_file_name_of_joined(q: Seq<char>, seg: Seq<char>)
    requires
        seg.len() > 0,
        forall|i: int| 0 <= i < seg.len() ==> seg[i] != '/',
        seg != seq!['.'],
        seg != seq!['.', '.'],
    ensures
        file_name(q + seq!['/'] + seg) == Some(seg),
        file_name(seg) == Some(seg),
{
    let p = q + seq!['/'] + seg;
    lemma_last_index_scan(p, '/', q.len() as int + 1, p.len() as int);
    assert(p.subrange(0, p.len() as int) =~= p);
    assert(p.subrange(q.len() as int + 1, p.len() as int) =~= seg);
    lemma_last_index_scan(seg, '/', 0, seg.len() as int);
    assert(seg.subrange(0, seg.len() as int) =~= seg);
}

/// The extension of a name with a `.` after its first character is what
/// follows the last `.`; a name with no `.` after its first character has
/// none.
pub proof fn lemma_name_extension_cases(base: Seq<char>, ext: Seq<char>, name: Seq<char>)
    requires
        base.len() > 0,
        forall|i: int| 0 <= i < ext.len() ==> ext[i] != '.',
    ensures
        name_extension(base + seq!['.'] + ext) == Some(ext),
        (forall|i: int| 0 < i < name.len() ==> name[i] != '.') ==> name_extension(name) is None,
{
    let n = base + seq!['.'] + ext;
    lemma_last_index_scan(n, '.', base.len() as int + 1, n.len() as int);
    assert(n.subrange(0, n.len() as int) =~= n);
    assert(n.subrange(base.len() as int + 1, n.len() as int) =~= ext);
    lemma_last_index_bounds(name, '.');
}

/// The extension of a path that ends in `/`, then `base.ext` (`base` not
/// empty, no `/` in either, no `.` in `ext`) is `ext`; where `ext` is empty
/// it is empty or there is none.
pub proof fn lemma_path_extension_of_joined(q: Seq<char>, base: Seq<char>, ext: Seq<char>)
    requires
        base.len() > 0,
        forall|i: int| 0 <= i < base.len() ==> base[i] != '/',
        forall|i: int| 0 <= i < ext.len() ==> ext[i] != '/' && ext[i] != '.',
    ensures
        path_extension(q + seq!['/'] + base + seq!['.'] + ext) matches Some(e) ==> e == ext,
        ext.len() > 0 ==> path_extension(q + seq!['/'] + base + seq!['.'] + ext) == Some(ext),
{
    let seg = base + seq!['.'] + ext;
    let p = q + seq!['/'] + base + seq!['.'] + ext;
    assert(p =~= q + seq!['/'] + seg);
    if seg == seq!['.', '.'] {
        assert(ext.len() == 0);
        lemma_last_index_scan(p, '/', q.len() as int + 1, p.len() as int);
        assert(p.subrange(0, p.len() as int) =~= p);
        assert(p.subrange(q.len() as int + 1, p.len() as int) =~= seg);
    } else {
        assert forall|i: int| 0 <= i < seg.len() implies seg[i] != '/' by {
            if i < base.len() {
                assert(seg[i] == base[i]);
            } else if i > base.len() {
                assert(seg[i] == ext[i - base.len() - 1]);
            }
        }
        assert(seg.len() >= 2);
        lemma_file_name_of_joined(q, seg);
        lemma_name_extension_cases(base, ext, seg);
    }
}

/// Comparing without ASCII case against `b` is comparing `a` with its
/// ASCII capitals made small.
pub proof fn lemma_ci_eq_lowered(a: Seq<char>, b: Seq<char>)
    ensures
        ascii_ci_eq(a, b) == (a.map_values(|c: char| ascii_lower(c)) == b),
{
    let l = a.map_values(|c: char| ascii_lower(c));
    if ascii_ci_eq(a, b) {
        assert(l =~= b);
    }
    if l == b {
        assert forall|i: int| 0 <= i < a.len() implies #[trigger] ascii_lower(a[i]) == b[i] by {
            assert(l[i] == ascii_lower(a[i]));
        }
    }
}

/// A file `base.ext` in any folder is an image exactly when its extension,
/// with ASCII capitals made small, is `png`, `jpg`, `jpeg`, `webp` or
/// `bmp`.
pub proof fn lemma_image_by_extension(q: Seq<char>, base: Seq<char>, ext: Seq<char>)
    requires
        base.len() > 0,
        forall|i: int| 0 <= i < base.len() ==> base[i] != '/',
        forall|i: int| 0 <= i < ext.len() ==> ext[i] != '/' && ext[i] != '.',
    ensures
        ({
            let e = ext.map_values(|c: char| ascii_lower(c));
            has_image_extension(q + seq!['/'] + base + seq!['.'] + ext) == (e == "png"@ || e
                == "jpg"@ || e == "jpeg"@ || e == "webp"@ || e == "bmp"@)
        }),
{
    lemma_path_extension_of_joined(q, base, ext);
    lemma_ci_eq_lowered(ext, "png"@);
    lemma_ci_eq_lowered(ext, "jpg"@);
    lemma_ci_eq_lowered(ext, "jpeg"@);
    lemma_ci_eq_lowered(ext, "webp"@);
    lemma_ci_eq_lowered(ext, "bmp"@);
    reveal_strlit("png");
    reveal_strlit("jpg");
    reveal_strlit("jpeg");
    reveal_strlit("webp");
    reveal_strlit("bmp");
}

} // verus!
