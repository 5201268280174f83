//! A text under edit: the rows it takes on the screen, and the cursor in it.

use vstd::prelude::*;

use crate::mesh::layout;
use crate::text;

verus! {

// ---- rows -----------------------------------------------------------------

/// A row on the screen: where in the text it begins, and what it shows.
pub struct Row {
    pub start: int,
    pub shown: Seq<char>,
}

/// The rows of a text that are full, and the one at its end.
pub open spec fn row_scan(s: Seq<char>, w: nat) -> (Seq<Row>, Row)
    decreases s.len(),
{
    if s.len() == 0 {
        (Seq::empty(), Row { start: 0, shown: Seq::empty() })
    } else {
        let (done, row) = row_scan(s.drop_last(), w);
        let c = s.last();
        if c == '\n' {
            (done.push(row), Row { start: s.len() as int, shown: Seq::empty() })
        } else if row.shown.len() > 0 && layout::columns(row.shown) + layout::ch_columns(c) > w {
            (done.push(row), Row { start: s.len() - 1, shown: seq![c] })
        } else {
            (done, Row { start: row.start, shown: row.shown.push(c) })
        }
    }
}

/// The width that rows are broken at where `width` is asked for.
pub open spec fn row_width(width: nat) -> nat {
    if width < 4 {
        4
    } else {
        width
    }
}

/// The rows of a text: a new one after each newline, and one wherever the width
/// is full.
pub open spec fn rows_of(s: Seq<char>, width: nat) -> Seq<Row> {
    row_scan(s, row_width(width)).0.push(row_scan(s, row_width(width)).1)
}

/// A row as it is kept.
pub open spec fn row_view(p: (usize, String)) -> Row {
    Row { start: p.0 as int, shown: p.1@ }
}

/// The rows of a list.
pub open spec fn rows_view(v: Seq<(usize, String)>) -> Seq<Row> {
    v.map_values(|p: (usize, String)| row_view(p))
}

/// The rows of a text of at most `width` columns; there is always one.
pub fn visual_rows(s: &str, width: usize) -> (r: Vec<(usize, String)>)
    ensures
        rows_view(r@) == rows_of(s@, width as nat),
        r@.len() > 0,
        forall|i: int|
            0 <= i < r@.len() ==> layout::columns((#[trigger] r@[i]).1@) <= row_width(
                width as nat,
            ) && r@[i].0 + r@[i].1@.len() <= s@.len(),
{
    let w: usize = if width < 4 {
        4
    } else {
        width
    };
    let v = text::chars_of(s);
    let mut rows: Vec<(usize, String)> = Vec::new();
    let mut row = String::new();
    let mut row_w: usize = 0;
    let mut start: usize = 0;
    let mut i: usize = 0;
    assert(s@.take(0) =~= Seq::empty());
    assert(rows_view(rows@) =~= Seq::empty());
    while i < v.len()
        invariant
            i <= v.len(),
            v@ == s@,
            w == row_width(width as nat),
            row_scan(s@.take(i as int), w as nat) == (
                rows_view(rows@),
                Row { start: start as int, shown: row@ },
            ),
            row_w == layout::columns(row@),
            row_w <= w,
            start + row@.len() == i,
            forall|k: int|
                0 <= k < rows@.len() ==> layout::columns((#[trigger] rows@[k]).1@) <= w && rows@[k].0
                    + rows@[k].1@.len() <= i,
        decreases v@.len() - i,
    {
        let c = v[i];
        let ghost was = rows@;
        proof {
            assert(s@.take(i + 1).drop_last() =~= s@.take(i as int));
            layout::widths_add_up(row@, seq![c]);
            assert(row@ + seq![c] =~= row@.push(c));
            layout::widths_add_up(Seq::empty(), seq![c]);
            assert(Seq::empty() + seq![c] =~= seq![c]);
            assert(seq![c].drop_last() =~= Seq::empty());
        }
        if c == '\n' {
            rows.push((start, row));
            assert(rows_view(rows@) =~= rows_view(was).push(row_view(rows@.last())));
            row = String::new();
            row_w = 0;
            i = i + 1;
            start = i;
        } else {
            let cw = layout::ch_w(c);
            if cw > w - row_w && !row.as_str().is_empty() {
                rows.push((start, row));
                assert(rows_view(rows@) =~= rows_view(was).push(row_view(rows@.last())));
                row = String::new();
                row_w = 0;
                start = i;
            }
            row.push(c);
            row_w = row_w + cw;
            i = i + 1;
        }
    }
    assert(s@.take(i as int) =~= s@);
    let ghost was = rows@;
    rows.push((start, row));
    assert(rows_view(rows@) =~= rows_view(was).push(row_view(rows@.last())));
    rows
}

// ---- the cursor -----------------------------------------------------------

/// Whether a cursor stands in a row. At the end of one that is continued on the
/// next it stands there instead.
pub open spec fn stands_in(rows: Seq<Row>, i: int, cur: int) -> bool {
    let end = rows[i].start + rows[i].shown.len();
    rows[i].start <= cur <= end && !(cur == end && i + 1 < rows.len() && rows[i + 1].start == end)
}

/// The first row from `i` on that a cursor stands in; the number of rows where
/// there is none.
pub open spec fn row_from(rows: Seq<Row>, i: int, cur: int) -> int
    decreases rows.len() - i,
{
    if i >= rows.len() {
        rows.len() as int
    } else if stands_in(rows, i, cur) {
        i
    } else {
        row_from(rows, i + 1, cur)
    }
}

/// The row and the column of a cursor. One that stands in no row is put at the
/// end of the last.
pub open spec fn cell_of(rows: Seq<Row>, cur: int) -> (int, nat) {
    let i = row_from(rows, 0, cur);
    if i < rows.len() {
        (i, layout::columns(rows[i].shown.take(cur - rows[i].start)))
    } else if rows.len() > 0 {
        (rows.len() - 1, layout::columns(rows.last().shown))
    } else {
        (0, 0)
    }
}

/// The row and the column of a cursor.
pub fn cursor_rc(rows: &Vec<(usize, String)>, cur: usize) -> (r: (usize, usize))
    requires
        forall|i: int|
            0 <= i < rows@.len() ==> layout::columns((#[trigger] rows@[i]).1@) <= usize::MAX,
    ensures
        (r.0 as int, r.1 as nat) == cell_of(rows_view(rows@), cur as int),
        rows@.len() > 0 ==> r.0 < rows@.len(),
{
    let ghost all = rows_view(rows@);
    let mut i: usize = 0;
    while i < rows.len()
        invariant
            i <= rows.len(),
            all == rows_view(rows@),
            row_from(all, 0, cur as int) == row_from(all, i as int, cur as int),
            forall|k: int|
                0 <= k < rows@.len() ==> layout::columns((#[trigger] rows@[k]).1@) <= usize::MAX,
        decreases rows@.len() - i,
    {
        let start: usize = rows[i].0;
        let len: usize = rows[i].1.as_str().unicode_len();
        assert(all[i as int] == row_view(rows@[i as int]));
        if cur >= start && cur - start <= len {
            let continued = cur - start == len && i + 1 < rows.len() && rows[i + 1].0 == cur;
            assert(i + 1 < rows@.len() ==> all[i + 1] == row_view(rows@[i + 1]));
            if !continued {
                let ghost shown = rows@[i as int].1@;
                proof {
                    layout::lemma_columns_prefix(shown, cur - start);
                    assert(text::first_chars(shown, cur - start) =~= shown.take(cur - start));
                }
                return (i, layout::prefix_w(rows[i].1.as_str(), cur - start));
            }
        }
        i = i + 1;
    }
    if rows.len() == 0 {
        (0, 0)
    } else {
        let last: usize = rows.len() - 1;
        assert(all.last() == row_view(rows@[last as int]));
        (last, layout::str_w(rows[last].1.as_str()))
    }
}

/// The byte at which character `ci` of a text begins; that of its end where
/// there are not so many.
pub fn byte_of(s: &str, ci: usize) -> (r: usize)
    ensures
        r == text::byte_len(text::first_chars(s@, ci as int)),
{
    let v = text::chars_of(s);
    let whole = text::size(s);
    let mut bytes: usize = 0;
    let mut i: usize = 0;
    assert(s@.take(0) =~= Seq::empty());
    while i < v.len() && i < ci
        invariant
            i <= v@.len(),
            i <= ci,
            v@ == s@,
            whole == text::byte_len(s@),
            bytes == text::byte_len(s@.take(i as int)),
        decreases v@.len() - i,
    {
        proof {
            assert(s@.take(i + 1).drop_last() =~= s@.take(i as int));
            text::lemma_byte_len_concat(s@.take(i + 1), s@.skip(i + 1));
            assert(s@.take(i + 1) + s@.skip(i + 1) =~= s@);
        }
        bytes = bytes + text::char_size(v[i]);
        i = i + 1;
    }
    assert(text::first_chars(s@, ci as int) =~= s@.take(i as int));
    bytes
}

// ---- editing --------------------------------------------------------------

/// A text with `t` put in before character `i`.
pub open spec fn inserted(s: Seq<char>, i: int, t: Seq<char>) -> Seq<char> {
    s.take(i) + t + s.skip(i)
}

/// A text without character `i`.
pub open spec fn without(s: Seq<char>, i: int) -> Seq<char> {
    s.take(i) + s.skip(i + 1)
}

/// Puts `t` into a text before character `i`, and gives the place behind it.
pub fn insert_at(s: &str, i: usize, t: &str) -> (r: (String, usize))
    requires
        i <= s@.len(),
    ensures
        r.0@ == inserted(s@, i as int, t@),
        r.1 == i + t@.len(),
{
    let v = text::chars_of(s);
    let n: usize = v.len();
    let mut out = text::string_of(&v, 0, i);
    out.append(t);
    out.append(text::string_of(&v, i, n).as_str());
    assert(out@ =~= inserted(s@, i as int, t@));
    let total: usize = text::chars_of(out.as_str()).len();
    let behind: usize = n - i;
    (out, total - behind)
}

/// Takes character `i` out of a text.
pub fn remove_at(s: &str, i: usize) -> (r: String)
    requires
        i < s@.len(),
    ensures
        r@ == without(s@, i as int),
{
    let v = text::chars_of(s);
    let n: usize = v.len();
    let mut out = text::string_of(&v, 0, i);
    out.append(text::string_of(&v, i + 1, n).as_str());
    assert(out@ =~= without(s@, i as int));
    out
}

// ---- laws -----------------------------------------------------------------

/// Whether a row follows another: right behind it, or behind the newline that
/// ended it.
pub open spec fn follows(s: Seq<char>, a: Row, b: Row) -> bool {
    let end = a.start + a.shown.len();
    b.start == end || (b.start == end + 1 && end < s.len() && s[end] == '\n')
}

/// Whether a row shows its part of the text, on one line and within the width.
pub open spec fn shows(s: Seq<char>, row: Row, w: nat) -> bool {
    &&& 0 <= row.start
    &&& row.start + row.shown.len() <= s.len()
    &&& row.shown == s.subrange(row.start, row.start + row.shown.len())
    &&& !row.shown.contains('\n')
    &&& layout::columns(row.shown) <= w
}

proof fn lemma_shows_longer(s: Seq<char>, row: Row, w: nat)
    requires
        s.len() > 0,
        shows(s.drop_last(), row, w),
    ensures
        shows(s, row, w),
{
    assert(s.drop_last().subrange(row.start, row.start + row.shown.len()) =~= s.subrange(
        row.start,
        row.start + row.shown.len(),
    ));
}

proof fn lemma_row_scan(s: Seq<char>, w: nat)
    requires
        w >= 3,
    ensures
        ({
            let (done, row) = row_scan(s, w);
            let all = done.push(row);
            &&& forall|i: int| 0 <= i < all.len() ==> shows(s, #[trigger] all[i], w)
            &&& forall|i: int, j: int|
                0 <= i && j == i + 1 && j < all.len() ==> follows(
                    s,
                    #[trigger] all[i],
                    #[trigger] all[j],
                )
            &&& all[0].start == 0
            &&& row.start + row.shown.len() == s.len()
        }),
    decreases s.len(),
{
    let (done, row) = row_scan(s, w);
    let all = done.push(row);
    if s.len() == 0 {
        assert(s.subrange(0, 0) =~= row.shown);
    } else {
        let t = s.drop_last();
        let c = s.last();
        lemma_row_scan(t, w);
        let (pdone, prow) = row_scan(t, w);
        let before = pdone.push(prow);
        assert forall|i: int| 0 <= i < before.len() implies shows(s, #[trigger] before[i], w) by {
            lemma_shows_longer(s, before[i], w);
        }
        assert(before[pdone.len() as int] == prow);
        assert(shows(s, prow, w));
        layout::widths_add_up(prow.shown, seq![c]);
        assert(prow.shown + seq![c] =~= prow.shown.push(c));
        layout::widths_add_up(Seq::empty(), seq![c]);
        assert(Seq::empty() + seq![c] =~= seq![c]);
        assert(seq![c].drop_last() =~= Seq::empty());
        if c == '\n' {
            assert(all =~= before.push(row));
            assert(s.subrange(s.len() as int, s.len() as int) =~= row.shown);
            assert(shows(s, row, w));
        } else if prow.shown.len() > 0 && layout::columns(prow.shown) + layout::ch_columns(c) > w {
            assert(all =~= before.push(row));
            assert(s.subrange(s.len() - 1, s.len() as int) =~= row.shown);
            assert(shows(s, row, w));
        } else {
            assert(all =~= pdone.push(row));
            if prow.shown.len() == 0 {
                assert(prow.shown =~= Seq::empty());
            }
            assert(s.subrange(row.start, s.len() as int) =~= row.shown);
            assert forall|k: int| 0 <= k < row.shown.len() implies row.shown[k] != '\n' by {
                if k < prow.shown.len() {
                    assert(prow.shown.contains(prow.shown[k]));
                }
            }
            assert(shows(s, row, w));
        }
        assert forall|i: int| 0 <= i < all.len() implies shows(s, #[trigger] all[i], w) by {
            if i < done.len() {
                assert(all[i] == before[i]);
            }
        }
        assert forall|i: int, j: int| 0 <= i && j == i + 1 && j < all.len() implies follows(
            s,
            #[trigger] all[i],
            #[trigger] all[j],
        ) by {
            assert(all[i] == before[i]);
            if j < before.len() {
                assert(follows(t, before[i], before[j]));
                if j < done.len() {
                    assert(all[j] == before[j]);
                } else {
                    assert(all[j].start == before[j].start);
                }
            }
        }
        assert(all[0].start == before[0].start);
    }
}

/// The rows show the text: each row its own part of it, on one line and within
/// the width; each begins where the one before it ends, or behind the newline
/// there; the first begins the text and the last ends it.
pub proof fn rows_show_the_text(s: Seq<char>, width: nat)
    ensures
        ({
            let rows = rows_of(s, width);
            &&& rows.len() > 0
            &&& rows[0].start == 0
            &&& rows.last().start + rows.last().shown.len() == s.len()
            &&& forall|i: int| 0 <= i < rows.len() ==> shows(s, #[trigger] rows[i], row_width(width))
            &&& forall|i: int, j: int|
                0 <= i && j == i + 1 && j < rows.len() ==> follows(
                    s,
                    #[trigger] rows[i],
                    #[trigger] rows[j],
                )
        }),
{
    lemma_row_scan(s, row_width(width));
}

/// Whether a row is broken off before another where it must be: at a newline, or
/// where the next character no longer fits.
pub open spec fn breaks_off(s: Seq<char>, a: Row, b: Row, w: nat) -> bool {
    let end = a.start + a.shown.len();
    &&& 0 <= end < s.len()
    &&& if s[end] == '\n' {
        b.start == end + 1
    } else {
        b.start == end && layout::columns(a.shown) + layout::ch_columns(s[end]) > w
    }
}

proof fn lemma_row_breaks(s: Seq<char>, w: nat)
    requires
        w >= 3,
    ensures
        ({
            let all = row_scan(s, w).0.push(row_scan(s, w).1);
            forall|i: int, j: int|
                0 <= i && j == i + 1 && j < all.len() ==> breaks_off(
                    s,
                    #[trigger] all[i],
                    #[trigger] all[j],
                    w,
                )
        }),
    decreases s.len(),
{
    let (done, row) = row_scan(s, w);
    let all = done.push(row);
    if s.len() > 0 {
        let t = s.drop_last();
        let (pdone, prow) = row_scan(t, w);
        let before = pdone.push(prow);
        lemma_row_scan(t, w);
        lemma_row_breaks(t, w);
        assert forall|i: int, j: int| 0 <= i && j == i + 1 && j < all.len() implies breaks_off(
            s,
            #[trigger] all[i],
            #[trigger] all[j],
            w,
        ) by {
            assert(all[i] == before[i]);
            if j < before.len() {
                assert(breaks_off(t, before[i], before[j], w));
                assert(all[j].start == before[j].start) by {
                    if j < done.len() {
                        assert(all[j] == before[j]);
                    }
                }
                let end = before[i].start + before[i].shown.len();
                assert(s[end] == t[end]);
            } else {
                assert(before[i] == prow);
                assert(all[j] == row);
                assert(s[t.len() as int] == s.last());
            }
        }
    }
}

/// A row is broken only at a newline or where the next character no longer fits:
/// rows are filled before another begins.
pub proof fn rows_break_only_where_they_must(s: Seq<char>, width: nat)
    ensures
        ({
            let rows = rows_of(s, width);
            forall|i: int, j: int|
                0 <= i && j == i + 1 && j < rows.len() ==> breaks_off(
                    s,
                    #[trigger] rows[i],
                    #[trigger] rows[j],
                    row_width(width),
                )
        }),
{
    lemma_row_breaks(s, row_width(width));
}

proof fn lemma_row_found(s: Seq<char>, width: nat, cur: int, i: int)
    requires
        0 <= cur <= s.len(),
        0 <= i < rows_of(s, width).len(),
        rows_of(s, width)[i].start <= cur,
    ensures
        i <= row_from(rows_of(s, width), i, cur) < rows_of(s, width).len(),
        stands_in(rows_of(s, width), row_from(rows_of(s, width), i, cur), cur),
    decreases rows_of(s, width).len() - i,
{
    let rows = rows_of(s, width);
    rows_show_the_text(s, width);
    if !stands_in(rows, i, cur) {
        let end = rows[i].start + rows[i].shown.len();
        if i + 1 == rows.len() {
            assert(rows[i] == rows.last());
            assert(false);
        }
        assert(follows(s, rows[i], rows[i + 1]));
        lemma_row_found(s, width, cur, i + 1);
    }
}

/// Every place in a text has its cell on the screen: a row that holds it, and
/// the columns of what stands before it there.
pub proof fn cursor_stands_in_its_row(s: Seq<char>, width: nat, cur: int)
    requires
        0 <= cur <= s.len(),
    ensures
        ({
            let rows = rows_of(s, width);
            let (r, c) = cell_of(rows, cur);
            &&& 0 <= r < rows.len()
            &&& rows[r].start <= cur <= rows[r].start + rows[r].shown.len()
            &&& c == layout::columns(s.subrange(rows[r].start, cur))
            &&& c <= row_width(width)
        }),
{
    let rows = rows_of(s, width);
    rows_show_the_text(s, width);
    lemma_row_found(s, width, cur, 0);
    let r = row_from(rows, 0, cur);
    assert(shows(s, rows[r], row_width(width)));
    assert(rows[r].shown.take(cur - rows[r].start) =~= s.subrange(rows[r].start, cur));
    layout::lemma_columns_prefix(rows[r].shown, cur - rows[r].start);
}

/// Taking out a character that was put in gives the text back.
pub proof fn backspace_undoes_insert(s: Seq<char>, i: int, c: char)
    requires
        0 <= i <= s.len(),
    ensures
        without(inserted(s, i, seq![c]), i) == s,
{
    assert(without(inserted(s, i, seq![c]), i) =~= s);
}

/// What is put into a text stands where it was put, and all that was there stays
/// around it.
pub proof fn inserting_keeps_the_rest(s: Seq<char>, i: int, t: Seq<char>)
    requires
        0 <= i <= s.len(),
    ensures
        inserted(s, i, t).len() == s.len() + t.len(),
        forall|k: int| 0 <= k < i ==> #[trigger] inserted(s, i, t)[k] == s[k],
        forall|k: int| 0 <= k < t.len() ==> inserted(s, i, t)[i + k] == #[trigger] t[k],
        forall|k: int| i <= k < s.len() ==> inserted(s, i, t)[k + t.len()] == #[trigger] s[k],
{
}

/// Taking a character out leaves all others, in their order.
pub proof fn removing_keeps_the_rest(s: Seq<char>, i: int)
    requires
        0 <= i < s.len(),
    ensures
        without(s, i).len() == s.len() - 1,
        forall|k: int| 0 <= k < i ==> #[trigger] without(s, i)[k] == s[k],
        forall|k: int| i < k < s.len() ==> without(s, i)[k - 1] == #[trigger] s[k],
{
}

/// Rows are as wide as the field, and never narrower than four columns.
pub proof fn rows_are_as_wide_as_the_field(width: nat)
    ensures
        width >= 4 ==> row_width(width) == width,
        width < 4 ==> row_width(width) == 4,
{
}

} // verus!
