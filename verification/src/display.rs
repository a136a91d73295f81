//! Texts of the gallery window: shortened names and folder paths (cut at
//! UTF-8 byte positions), the status line, counts, and the card grid.
use vstd::prelude::*;
use crate::text::{chars_of, decimal, push_chars, push_decimal};

verus! {

/// The number of bytes of `c` in UTF-8.
pub open spec fn utf8_width(c: char) -> nat {
    let u = c as u32;
    if u < 0x80 {
        1
    } else if u < 0x800 {
        2
    } else if u < 0x10000 {
        3
    } else {
        4
    }
}

/// The number of bytes of `s` in UTF-8 (`str::len`).
pub open spec fn utf8_len(s: Seq<char>) -> nat
    decreases s.len(),
{
    if s.len() == 0 {
        0
    } else {
        utf8_len(s.drop_last()) + utf8_width(s.last())
    }
}

/// Byte position `b` of `s` lies between characters.
pub open spec fn is_boundary(s: Seq<char>, b: nat) -> bool {
    exists|k: int| 0 <= k <= s.len() && utf8_len(#[trigger] s.take(k)) == b
}

fn width(c: char) -> (w: usize)
    ensures
        w == utf8_width(c),
{
    let u = c as u32;
    if u < 0x80 {
        1
    } else if u < 0x800 {
        2
    } else if u < 0x10000 {
        3
    } else {
        4
    }
}

proof fn lemma_utf8_len_take(s: Seq<char>, k: int)
    requires
        0 <= k < s.len(),
    ensures
        utf8_len(s.take(k + 1)) == utf8_len(s.take(k)) + utf8_width(s[k]),
{
    assert(s.take(k + 1).drop_last() =~= s.take(k));
}

/// A prefix that is one character longer has more bytes.
proof fn lemma_utf8_len_take_grows(s: Seq<char>, j: int, k: int)
    requires
        0 <= j < k <= s.len(),
    ensures
        utf8_len(s.take(j)) < utf8_len(s.take(k)),
    decreases k - j,
{
    lemma_utf8_len_take(s, k - 1);
    if j < k - 1 {
        lemma_utf8_len_take_grows(s, j, k - 1);
    }
}

/// The number of characters `k` whose UTF-8 bytes in `v` come to `bytes`,
/// if the position falls between characters; and the byte length of `v`.
fn char_count_at(v: &Vec<char>, bytes: u128) -> (r: (Option<usize>, u128))
    ensures
        r.1 == utf8_len(v@),
        match r.0 {
            Some(k) => k <= v.len() && utf8_len(v@.take(k as int)) == bytes,
            None => !is_boundary(v@, bytes as nat),
        },
{
    let mut total: u128 = 0;
    let mut found: Option<usize> = None;
    let mut i: usize = 0;
    assert(v@.take(0) =~= Seq::<char>::empty());
    while i < v.len()
        invariant
            i <= v.len(),
            total == utf8_len(v@.take(i as int)),
            total <= 4 * i,
            match found {
                Some(k) => k <= i && utf8_len(v@.take(k as int)) == bytes,
                None => forall|j: int| 0 <= j < i ==> utf8_len(v@.take(j)) != bytes,
            },
        decreases v.len() - i,
    {
        if found.is_none() && total == bytes {
            found = Some(i);
        }
        proof {
            lemma_utf8_len_take(v@, i as int);
        }
        let w = width(v[i]) as u128;
        total = total + w;
        i = i + 1;
    }
    if found.is_none() && total == bytes {
        found = Some(i);
    }
    assert(v@.take(v.len() as int) =~= v@);
    proof {
        if found is None {
            assert forall|k: int| 0 <= k <= v@.len() implies utf8_len(#[trigger] v@.take(k))
                != bytes by {
                if k == v@.len() {
                }
            }
        }
    }
    (found, total)
}

/// The title of a gallery card: a name longer than 22 bytes is cut to its
/// first 19 bytes and `...` is appended.
pub open spec fn card_title_text(name: Seq<char>, k: int) -> Seq<char> {
    if utf8_len(name) > 22 {
        name.take(k) + "..."@
    } else {
        name
    }
}

/// The title of a gallery card for `name`. Cutting a longer name requires
/// byte 19 to fall between characters (elsewhere slicing panics).
pub fn card_title(name: &str) -> (r: String)
    requires
        utf8_len(name@) > 22 ==> is_boundary(name@, 19),
    ensures
        forall|k: int|
            0 <= k <= name@.len() && utf8_len(#[trigger] name@.take(k)) == 19 ==> r@
                == card_title_text(name@, k),
        utf8_len(name@) <= 22 ==> r@ == name@,
{
    let v = chars_of(name);
    let (at, total) = char_count_at(&v, 19);
    let mut s = String::new();
    if total > 22 {
        match at {
            Some(k) => {
                push_chars(&mut s, &v, 0, k);
                s.push_str("...");
                proof {
                    assert forall|j: int|
                        0 <= j <= name@.len() && utf8_len(#[trigger] name@.take(j)) == 19 implies s@
                        == card_title_text(name@, j) by {
                        if j < k {
                            lemma_utf8_len_take_grows(name@, j, k as int);
                        } else if j > k {
                            lemma_utf8_len_take_grows(name@, k as int, j);
                        }
                        assert(v@.subrange(0, k as int) =~= name@.take(j));
                    }
                }
            },
            None => {
                assert(false);
            },
        }
    } else {
        let n = v.len();
        push_chars(&mut s, &v, 0, n);
        assert(s@ =~= name@);
    }
    s
}

/// The folder shown in the header: a path longer than 40 bytes is cut to
/// its last 37 bytes behind `...`.
pub open spec fn folder_label_text(path: Seq<char>, k: int) -> Seq<char> {
    if utf8_len(path) > 40 {
        "..."@ + path.skip(k)
    } else {
        path
    }
}

/// The folder label for `path`. Cutting a longer path requires the position
/// 37 bytes before its end to fall between characters.
pub fn folder_label(path: &str) -> (r: String)
    requires
        utf8_len(path@) > 40 ==> is_boundary(path@, (utf8_len(path@) - 37) as nat),
    ensures
        forall|k: int|
            0 <= k <= path@.len() && utf8_len(#[trigger] path@.take(k)) == utf8_len(path@) - 37
                ==> r@ == folder_label_text(path@, k),
        utf8_len(path@) <= 40 ==> r@ == path@,
{
    let v = chars_of(path);
    let (_, total) = char_count_at(&v, 0);
    let mut s = String::new();
    if total > 40 {
        let (at, _) = char_count_at(&v, total - 37);
        match at {
            Some(k) => {
                s.push_str("...");
                let n = v.len();
                push_chars(&mut s, &v, k, n);
                proof {
                    assert forall|j: int|
                        0 <= j <= path@.len() && utf8_len(#[trigger] path@.take(j)) == utf8_len(
                            path@,
                        ) - 37 implies s@ == folder_label_text(path@, j) by {
                        if j < k {
                            lemma_utf8_len_take_grows(path@, j, k as int);
                        } else if j > k {
                            lemma_utf8_len_take_grows(path@, k as int, j);
                        }
                        assert(v@.subrange(k as int, n as int) =~= path@.skip(j));
                    }
                }
            },
            None => {
                assert(false);
            },
        }
    } else {
        let n = v.len();
        push_chars(&mut s, &v, 0, n);
        assert(s@ =~= path@);
    }
    s
}

/// The status line: `[X]` before an error, `[OK]` before a success.
pub open spec fn status_line_text(msg: Seq<char>, is_err: bool) -> Seq<char> {
    if is_err {
        "[X] "@ + msg
    } else {
        "[OK] "@ + msg
    }
}

pub fn status_line(msg: &str, is_err: bool) -> (r: String)
    ensures
        r@ == status_line_text(msg@, is_err),
{
    let mut s = String::new();
    if is_err {
        s.push_str("[X] ");
    } else {
        s.push_str("[OK] ");
    }
    s.push_str(msg);
    s
}

/// `Showing N of M wallpapers`.
pub open spec fn summary_text(shown: nat, total: nat) -> Seq<char> {
    "Showing "@ + decimal(shown) + " of "@ + decimal(total) + " wallpapers"@
}

pub fn summary(shown: usize, total: usize) -> (r: String)
    ensures
        r@ == summary_text(shown as nat, total as nat),
{
    let mut s = String::new();
    s.push_str("Showing ");
    push_decimal(&mut s, shown as u128);
    s.push_str(" of ");
    push_decimal(&mut s, total as u128);
    s.push_str(" wallpapers");
    assert(s@ =~= summary_text(shown as nat, total as nat));
    s
}

/// The notice when the search shows nothing.
pub open spec fn no_match_text(query: Seq<char>) -> Seq<char> {
    "No wallpapers matched '"@ + query + "'"@
}

pub fn no_match_message(query: &str) -> (r: String)
    ensures
        r@ == no_match_text(query@),
{
    let mut s = String::new();
    s.push_str("No wallpapers matched '");
    s.push_str(query);
    s.push_str("'");
    assert(s@ =~= no_match_text(query@));
    s
}

/// The number of rows of `cols` cards that hold `total` cards.
pub fn grid_rows(total: usize, cols: usize) -> (r: usize)
    requires
        cols >= 1,
        total + cols - 1 <= usize::MAX,
    ensures
        r == (total + cols - 1) / (cols as int),
        r * cols >= total,
        total > 0 ==> (r - 1) * cols < total,
{
    let r = (total + (cols - 1)) / cols;
    assert(r * cols >= total && (total > 0 ==> (r - 1) * cols < total)) by (nonlinear_arith)
        requires
            r == (total + cols - 1) / (cols as int),
            cols >= 1,
    ;
    r
}

/// The card at row `row`, column `col` of a grid `cols` wide: its position
/// among the shown items, if there is one.
pub fn grid_position(row: usize, col: usize, cols: usize, total: usize) -> (r: Option<usize>)
    requires
        col < cols,
        row * cols + col <= usize::MAX,
    ensures
        r == (if row * cols + col < total {
            Some((row * cols + col) as usize)
        } else {
            None
        }),
{
    let pos = row * cols + col;
    if pos < total {
        Some(pos)
    } else {
        None
    }
}

proof fn lemma_utf8_len_concat(a: Seq<char>, b: Seq<char>)
    ensures
        utf8_len(a + b) == utf8_len(a) + utf8_len(b),
    decreases b.len(),
{
    if b.len() > 0 {
        assert((a + b).drop_last() =~= a + b.drop_last());
        lemma_utf8_len_concat(a, b.drop_last());
    } else {
        assert(a + b =~= a);
    }
}

proof fn lemma_utf8_len_dots()
    ensures
        utf8_len("..."@) == 3,
        "..."@.len() == 3,
{
    reveal_strlit("...");
    let d = "..."@;
    assert(d.drop_last().drop_last().drop_last() =~= Seq::<char>::empty());
    reveal_with_fuel(utf8_len, 4);
}

/// A card title never takes more than 22 bytes: a name of at most 22 bytes
/// is the title itself; a longer one gives a title of exactly 22 bytes, a
/// beginning of the name followed by `...`.
pub proof fn lemma_card_title_fits(name: Seq<char>, k: int)
    requires
        0 <= k <= name.len(),
        utf8_len(name.take(k)) == 19,
    ensures
        ({
            let t = card_title_text(name, k);
            &&& utf8_len(t) <= 22
            &&& utf8_len(name) <= 22 ==> t == name
            &&& utf8_len(name) > 22 ==> {
                &&& utf8_len(t) == 22
                &&& t.len() >= 3
                &&& t.skip(t.len() - 3) == "..."@
                &&& t.take(t.len() - 3) == name.take(t.len() - 3)
            }
        }),
{
    lemma_utf8_len_dots();
    let t = card_title_text(name, k);
    if utf8_len(name) > 22 {
        lemma_utf8_len_concat(name.take(k), "..."@);
        assert(t.skip(t.len() - 3) =~= "..."@);
        assert(t.take(t.len() - 3) =~= name.take(k));
    }
}

/// A folder label never takes more than 40 bytes: a path of at most 40
/// bytes is the label itself; a longer one gives a label of exactly 40
/// bytes, `...` followed by an end of the path.
pub proof fn lemma_folder_label_fits(path: Seq<char>, k: int)
    requires
        0 <= k <= path.len(),
        utf8_len(path.take(k)) == utf8_len(path) - 37,
    ensures
        ({
            let t = folder_label_text(path, k);
            &&& utf8_len(t) <= 40
            &&& utf8_len(path) <= 40 ==> t == path
            &&& utf8_len(path) > 40 ==> {
                &&& utf8_len(t) == 40
                &&& t.len() >= 3
                &&& t.take(3) == "..."@
                &&& t.skip(3) == path.skip(path.len() - (t.len() - 3))
            }
        }),
{
    lemma_utf8_len_dots();
    let t = folder_label_text(path, k);
    if utf8_len(path) > 40 {
        assert(path =~= path.take(k) + path.skip(k));
        lemma_utf8_len_concat(path.take(k), path.skip(k));
        lemma_utf8_len_concat("..."@, path.skip(k));
        assert(t.take(3) =~= "..."@);
        assert(t.skip(3) =~= path.skip(k));
    }
}

} // verus!
