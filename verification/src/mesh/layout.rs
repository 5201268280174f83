//! Text on a screen: how many columns it takes, and how it is broken into lines.

use vstd::prelude::*;

use crate::text;

verus! {

// ---- columns --------------------------------------------------------------

/// The columns that a character takes; `None` for a control character.
pub uninterp spec fn char_columns(c: char) -> Option<usize>;

/// `unicode_width::UnicodeWidthChar::width`. The character alone decides the
/// result. The visible characters of ASCII take one column, control characters
/// have no width, and nothing is wider than three columns. How wide the other
/// characters are is left unsaid.
#[verifier::external_body]
fn char_width(c: char) -> (r: Option<usize>)
    ensures
        r == char_columns(c),
        ' ' <= c <= '~' ==> r == Some(1usize),
        (c as u32) < 0x20 || 0x7f <= (c as u32) < 0xa0 ==> r is None,
        r matches Some(n) ==> n <= 3,
{
    unicode_width::UnicodeWidthChar::width(c)
}

/// The columns that a character takes on the screen: one in ASCII, none for a
/// control character, and at most three.
pub open spec fn ch_columns(c: char) -> nat {
    if ' ' <= c <= '~' {
        1
    } else if (c as u32) < 0xa0 {
        0
    } else {
        match char_columns(c) {
            Some(n) => if n <= 3 {
                n as nat
            } else {
                3
            },
            None => 0,
        }
    }
}

/// The columns that a text takes.
pub open spec fn columns(s: Seq<char>) -> nat
    decreases s.len(),
{
    if s.len() == 0 {
        0
    } else {
        columns(s.drop_last()) + ch_columns(s.last())
    }
}

/// The columns that a character takes.
pub fn ch_w(c: char) -> (r: usize)
    ensures
        r == ch_columns(c),
        r <= 3,
{
    match char_width(c) {
        Some(n) => n,
        None => 0,
    }
}

/// An empty text takes no columns, and two texts one after the other take as many
/// as both together.
pub proof fn widths_add_up(a: Seq<char>, b: Seq<char>)
    ensures
        columns(Seq::empty()) == 0,
        columns(a + b) == columns(a) + columns(b),
    decreases b.len(),
{
    if b.len() == 0 {
        assert(a + b =~= a);
    } else {
        widths_add_up(a, b.drop_last());
        assert((a + b).drop_last() =~= a + b.drop_last());
    }
}

/// The columns of a text that grows by a character.
proof fn lemma_columns_push(s: Seq<char>, c: char)
    ensures
        columns(s.push(c)) == columns(s) + ch_columns(c),
{
    assert(s.push(c).drop_last() =~= s);
}

/// The beginning of a text takes no more columns than the whole.
pub proof fn lemma_columns_prefix(s: Seq<char>, n: int)
    requires
        0 <= n <= s.len(),
    ensures
        columns(s.take(n)) <= columns(s),
{
    widths_add_up(s.take(n), s.skip(n));
    assert(s.take(n) + s.skip(n) =~= s);
}

/// A text takes at most three columns per character.
pub proof fn lemma_columns_bound(s: Seq<char>)
    ensures
        columns(s) <= 3 * s.len(),
    decreases s.len(),
{
    if s.len() > 0 {
        lemma_columns_bound(s.drop_last());
    }
}

/// The columns that the first `n` characters of a text take.
pub fn prefix_w(s: &str, n: usize) -> (r: usize)
    requires
        columns(text::first_chars(s@, n as int)) <= usize::MAX,
    ensures
        r == columns(text::first_chars(s@, n as int)),
{
    let v = text::chars_of(s);
    let m: usize = if n < v.len() {
        n
    } else {
        v.len()
    };
    let ghost all = text::first_chars(s@, n as int);
    let mut sum: usize = 0;
    let mut i: usize = 0;
    assert(all =~= s@.take(m as int));
    assert(s@.take(0) =~= Seq::empty());
    while i < m
        invariant
            i <= m <= v@.len(),
            v@ == s@,
            all == s@.take(m as int),
            columns(all) <= usize::MAX,
            sum == columns(s@.take(i as int)),
        decreases m - i,
    {
        proof {
            assert(s@.take(i + 1) =~= s@.take(i as int).push(s@[i as int]));
            lemma_columns_push(s@.take(i as int), s@[i as int]);
            lemma_columns_prefix(all, i + 1);
            assert(all.take(i + 1) =~= s@.take(i + 1));
        }
        sum = sum + ch_w(v[i]);
        i = i + 1;
    }
    sum
}

/// The columns that a text takes.
pub fn str_w(s: &str) -> (r: usize)
    requires
        columns(s@) <= usize::MAX,
    ensures
        r == columns(s@),
{
    let n: usize = text::chars_of(s).len();
    assert(text::first_chars(s@, n as int) =~= s@);
    prefix_w(s, n)
}

/// The columns that a text takes, where they are no more than `limit`.
pub fn fitting_w(s: &str, limit: usize) -> (r: Option<usize>)
    ensures
        r == (if columns(s@) <= limit {
            Some(columns(s@) as usize)
        } else {
            None
        }),
{
    let v = text::chars_of(s);
    let mut sum: usize = 0;
    let mut i: usize = 0;
    assert(s@.take(0) =~= Seq::empty());
    while i < v.len()
        invariant
            i <= v@.len(),
            v@ == s@,
            sum == columns(s@.take(i as int)),
            sum <= limit,
        decreases v@.len() - i,
    {
        let w = ch_w(v[i]);
        proof {
            assert(s@.take(i + 1) =~= s@.take(i as int).push(s@[i as int]));
            lemma_columns_push(s@.take(i as int), s@[i as int]);
            lemma_columns_prefix(s@, i + 1);
        }
        if w > limit - sum {
            return None;
        }
        sum = sum + w;
        i = i + 1;
    }
    assert(s@.take(i as int) =~= s@);
    Some(sum)
}

// ---- wrapping -------------------------------------------------------------

/// The parts of a word that is broken wherever `avail` columns are full, and the
/// part at its end that is not full yet.
pub open spec fn cut_scan(word: Seq<char>, avail: nat) -> (Seq<Seq<char>>, Seq<char>)
    decreases word.len(),
{
    if word.len() == 0 {
        (Seq::empty(), Seq::empty())
    } else {
        let (done, cur) = cut_scan(word.drop_last(), avail);
        if cur.len() > 0 && columns(cur) + ch_columns(word.last()) > avail {
            (done.push(cur), seq![word.last()])
        } else {
            (done, cur.push(word.last()))
        }
    }
}

/// What becomes of a word: itself where it fits `avail` columns, else the parts
/// it is broken into.
pub open spec fn cuts(word: Seq<char>, avail: nat) -> Seq<Seq<char>> {
    if columns(word) > avail {
        cut_scan(word, avail).0.push(cut_scan(word, avail).1)
    } else {
        seq![word]
    }
}

/// What becomes of the words of a list, one after the other.
pub open spec fn all_cuts(words: Seq<Seq<char>>, avail: nat) -> Seq<Seq<char>>
    decreases words.len(),
{
    if words.len() == 0 {
        Seq::empty()
    } else {
        all_cuts(words.drop_last(), avail) + cuts(words.last(), avail)
    }
}

/// Lines that are full, and the one that is being filled.
pub struct Filling {
    pub full: Seq<Seq<char>>,
    pub line: Seq<char>,
}

/// Whether anything visible follows the indent of a line.
pub open spec fn begun(line: Seq<char>, indent: Seq<char>) -> bool {
    columns(line) > columns(indent)
}

/// A line with one more part, after a space where anything visible stands before
/// it.
pub open spec fn extended(line: Seq<char>, part: Seq<char>, indent: Seq<char>) -> Seq<char> {
    if begun(line, indent) {
        line.push(' ') + part
    } else {
        line + part
    }
}

/// Lines with one more part: on the line that is being filled, or on a new one
/// where that would become wider than `w`.
pub open spec fn filled(f: Filling, part: Seq<char>, w: nat, indent: Seq<char>) -> Filling {
    if begun(f.line, indent) && columns(f.line) + 1 + columns(part) > w {
        Filling { full: f.full.push(f.line), line: extended(indent, part, indent) }
    } else {
        Filling { full: f.full, line: extended(f.line, part, indent) }
    }
}

/// Lines filled with parts.
pub open spec fn filled_all(parts: Seq<Seq<char>>, w: nat, indent: Seq<char>) -> Filling
    decreases parts.len(),
{
    if parts.len() == 0 {
        Filling { full: Seq::empty(), line: indent }
    } else {
        filled(filled_all(parts.drop_last(), w, indent), parts.last(), w, indent)
    }
}

/// The width that text is wrapped to where `width` is asked for.
pub open spec fn line_width(width: nat) -> nat {
    if width < 24 {
        24
    } else {
        width
    }
}

/// What a line has left behind its indent.
pub open spec fn room(width: nat, indent: Seq<char>) -> nat {
    if line_width(width) > columns(indent) {
        (line_width(width) - columns(indent)) as nat
    } else {
        1
    }
}

/// The lines of a paragraph; a blank one is an empty line.
pub open spec fn paragraph(para: Seq<char>, width: nat, indent: Seq<char>) -> Seq<Seq<char>> {
    if text::trimmed(para).len() == 0 {
        seq![Seq::empty()]
    } else {
        let f = filled_all(
            all_cuts(text::words_of(para), room(width, indent)),
            line_width(width),
            indent,
        );
        f.full.push(f.line)
    }
}

/// The lines of paragraphs.
pub open spec fn paragraphs(paras: Seq<Seq<char>>, width: nat, indent: Seq<char>) -> Seq<Seq<char>>
    decreases paras.len(),
{
    if paras.len() == 0 {
        Seq::empty()
    } else {
        paragraphs(paras.drop_last(), width, indent) + paragraph(paras.last(), width, indent)
    }
}

/// The lines of a text that is wrapped between words, each with the indent.
/// Words too wide for a line are broken.
pub open spec fn wrapped(s: Seq<char>, width: nat, indent: Seq<char>) -> Seq<Seq<char>> {
    paragraphs(text::pieces(s, '\n'), width, indent)
}

/// The parts and their columns.
spec fn measured(v: Seq<(String, usize)>) -> Seq<Seq<char>> {
    v.map_values(|p: (String, usize)| p.0@)
}

/// Whether each part has its columns beside it, and none is wider than a line
/// has left, or than one character.
spec fn measures(v: Seq<(String, usize)>, avail: nat) -> bool {
    forall|i: int|
        0 <= i < v.len() ==> (#[trigger] v[i]).1 == columns(v[i].0@) && (v[i].1 <= avail || v[i].1
            <= 3)
}

/// What becomes of a word, with the columns of each part.
fn cut(word: &str, avail: usize) -> (r: Vec<(String, usize)>)
    requires
        avail >= 1,
    ensures
        measured(r@) == cuts(word@, avail as nat),
        measures(r@, avail as nat),
{
    let mut out: Vec<(String, usize)> = Vec::new();
    match fitting_w(word, avail) {
        Some(w) => {
            out.push((String::from_str(word), w));
            assert(measured(out@) =~= seq![word@]);
            return out;
        },
        None => {},
    }
    let v = text::chars_of(word);
    let mut cur = String::new();
    let mut cl: usize = 0;
    let mut i: usize = 0;
    let ghost whole = avail as nat;
    assert(word@.take(0) =~= Seq::empty());
    assert(measured(out@) =~= Seq::empty());
    while i < v.len()
        invariant
            i <= v@.len(),
            v@ == word@,
            whole == avail,
            avail >= 1,
            (measured(out@), cur@) == cut_scan(word@.take(i as int), whole),
            measures(out@, whole),
            cl == columns(cur@),
            cl <= avail || cl <= 3,
            i > 0 ==> cur@.len() > 0,
        decreases v@.len() - i,
    {
        let c = v[i];
        let cw = ch_w(c);
        let ghost was = out@;
        proof {
            assert(word@.take(i + 1).drop_last() =~= word@.take(i as int));
            lemma_columns_push(cur@, c);
            lemma_columns_push(Seq::empty(), c);
            assert(Seq::empty().push(c) =~= seq![c]);
        }
        if (cl > avail || cw > avail - cl) && !cur.as_str().is_empty() {
            out.push((cur, cl));
            assert(measured(out@) =~= measured(was).push(out@.last().0@));
            cur = String::new();
            cl = 0;
        }
        cur.push(c);
        cl = cl + cw;
        i = i + 1;
    }
    assert(word@.take(i as int) =~= word@);
    let ghost was = out@;
    proof {
        if v@.len() == 0 {
            assert(columns(word@) == 0);
        }
    }
    out.push((cur, cl));
    assert(measured(out@) =~= measured(was).push(out@.last().0@));
    out
}

/// The lines of a paragraph.
fn wrap_paragraph(para: &str, w: usize, ind: usize, avail: usize, indent: &str) -> (r: Vec<String>)
    requires
        ind == columns(indent@),
        ind + 3 <= usize::MAX,
        w >= 24,
        avail == room(w as nat, indent@),
    ensures
        text::texts(r@) == paragraph(para@, w as nat, indent@),
{
    let mut out: Vec<String> = Vec::new();
    if text::is_blank(para) {
        out.push(String::new());
        assert(text::texts(out@) =~= seq![Seq::empty()]);
        return out;
    }
    let words = text::words(para);
    let ghost all = text::words_of(para@);
    let ghost width = w as nat;
    let ghost left = avail as nat;
    let mut line = String::from_str(indent);
    let mut len: usize = ind;
    let mut i: usize = 0;
    assert(all.take(0) =~= Seq::empty());
    assert(text::texts(out@) =~= Seq::empty());
    while i < words.len()
        invariant
            i <= words@.len(),
            text::texts(words@) == all,
            width == w,
            left == avail,
            ind == columns(indent@),
            ind + 3 <= usize::MAX,
            avail >= 1,
            avail == 1 || ind + avail <= w,
            len == columns(line@),
            ind <= len,
            filled_all(all_cuts(all.take(i as int), left), width, indent@) == (Filling {
                full: text::texts(out@),
                line: line@,
            }),
        decreases words@.len() - i,
    {
        let parts = cut(words[i].as_str(), avail);
        let ghost done = all_cuts(all.take(i as int), left);
        let ghost more = measured(parts@);
        assert(all.take(i + 1).drop_last() =~= all.take(i as int));
        assert(all.take(i + 1).last() == words@[i as int]@);
        let mut k: usize = 0;
        assert(done + more.take(0) =~= done);
        while k < parts.len()
            invariant
                k <= parts@.len(),
                more == measured(parts@),
                measures(parts@, left),
                width == w,
                left == avail,
                ind == columns(indent@),
                ind + 3 <= usize::MAX,
                avail >= 1,
                avail == 1 || ind + avail <= w,
                len == columns(line@),
                ind <= len,
                filled_all(done + more.take(k as int), width, indent@) == (Filling {
                    full: text::texts(out@),
                    line: line@,
                }),
            decreases parts@.len() - k,
        {
            let ghost was = Filling { full: text::texts(out@), line: line@ };
            let ghost part = parts@[k as int].0@;
            let pl: usize = parts[k].1;
            proof {
                assert(parts@[k as int].1 == columns(part));
                assert((done + more.take(k + 1)).drop_last() =~= done + more.take(k as int));
                assert((done + more.take(k + 1)).last() == part);
            }
            if len > ind && (pl >= w || len >= w - pl) {
                proof {
                    text::lemma_texts_push(out@, line);
                }
                out.push(line);
                line = String::from_str(indent);
                len = ind;
            }
            if len > ind {
                proof {
                    lemma_columns_push(line@, ' ');
                    widths_add_up(line@.push(' '), part);
                }
                line.push(' ');
                len = len + 1;
            } else {
                proof {
                    widths_add_up(line@, part);
                }
            }
            line.append(parts[k].0.as_str());
            len = len + pl;
            assert((Filling { full: text::texts(out@), line: line@ }) == filled(
                was,
                part,
                width,
                indent@,
            ));
            k = k + 1;
        }
        assert(done + more.take(k as int) =~= done + more);
        i = i + 1;
    }
    assert(all.take(i as int) =~= all);
    proof {
        text::lemma_texts_push(out@, line);
    }
    out.push(line);
    out
}

/// The lines of a text that is wrapped to `width` columns, each with the indent.
/// Words too wide for a line are broken, so that nothing runs off the edge.
pub fn wrap(s: &str, width: usize, indent: &str) -> (r: Vec<String>)
    requires
        3 * indent@.len() + 3 <= usize::MAX,
    ensures
        text::texts(r@) == wrapped(s@, width as nat, indent@),
{
    let w: usize = if width < 24 {
        24
    } else {
        width
    };
    proof {
        lemma_columns_bound(indent@);
    }
    let ind = str_w(indent);
    let avail: usize = if w > ind {
        w - ind
    } else {
        1
    };
    let paras = text::split(s, '\n');
    let ghost all = text::pieces(s@, '\n');
    let mut out: Vec<String> = Vec::new();
    let mut i: usize = 0;
    assert(all.take(0) =~= Seq::empty());
    assert(text::texts(out@) =~= Seq::empty());
    while i < paras.len()
        invariant
            i <= paras@.len(),
            text::texts(paras@) == all,
            w == line_width(width as nat),
            ind == columns(indent@),
            ind + 3 <= usize::MAX,
            avail == room(w as nat, indent@),
            text::texts(out@) == paragraphs(all.take(i as int), width as nat, indent@),
        decreases paras@.len() - i,
    {
        let mut lines = wrap_paragraph(paras[i].as_str(), w, ind, avail, indent);
        proof {
            assert(all.take(i + 1).drop_last() =~= all.take(i as int));
            assert(all.take(i + 1).last() == paras@[i as int]@);
            assert(paragraph(paras@[i as int]@, w as nat, indent@) == paragraph(
                paras@[i as int]@,
                width as nat,
                indent@,
            ));
            assert(text::texts(out@ + lines@) =~= text::texts(out@) + text::texts(lines@));
        }
        out.append(&mut lines);
        i = i + 1;
    }
    assert(all.take(i as int) =~= all);
    out
}

// ---- laws of wrapping -----------------------------------------------------

proof fn lemma_cut_scan(word: Seq<char>, avail: nat)
    requires
        avail >= 3,
    ensures
        forall|i: int|
            0 <= i < cut_scan(word, avail).0.len() ==> columns(
                #[trigger] cut_scan(word, avail).0[i],
            ) <= avail,
        columns(cut_scan(word, avail).1) <= avail,
        word.len() > 0 ==> cut_scan(word, avail).1.len() > 0,
    decreases word.len(),
{
    if word.len() > 0 {
        lemma_cut_scan(word.drop_last(), avail);
        let (done, cur) = cut_scan(word.drop_last(), avail);
        let c = word.last();
        lemma_columns_push(cur, c);
        lemma_columns_push(Seq::empty(), c);
        assert(Seq::empty().push(c) =~= seq![c]);
        if cur.len() == 0 {
            assert(cur =~= Seq::empty());
        }
        let now = cut_scan(word, avail).0;
        assert forall|i: int| 0 <= i < now.len() implies columns(#[trigger] now[i]) <= avail by {
            if i < done.len() {
                assert(now[i] == done[i]);
            }
        }
    }
}

proof fn lemma_all_cuts(words: Seq<Seq<char>>, avail: nat)
    requires
        avail >= 3,
    ensures
        forall|i: int|
            0 <= i < all_cuts(words, avail).len() ==> columns(#[trigger] all_cuts(words, avail)[i])
                <= avail,
    decreases words.len(),
{
    if words.len() > 0 {
        lemma_all_cuts(words.drop_last(), avail);
        lemma_cut_scan(words.last(), avail);
        let a = all_cuts(words.drop_last(), avail);
        let b = cuts(words.last(), avail);
        assert forall|i: int| 0 <= i < all_cuts(words, avail).len() implies columns(
            #[trigger] all_cuts(words, avail)[i],
        ) <= avail by {
            if i < a.len() {
                assert(all_cuts(words, avail)[i] == a[i]);
            } else {
                assert(all_cuts(words, avail)[i] == b[i - a.len()]);
            }
        }
    }
}

proof fn lemma_filled_all(parts: Seq<Seq<char>>, w: nat, indent: Seq<char>)
    requires
        columns(indent) <= w,
        forall|i: int|
            0 <= i < parts.len() ==> columns(indent) + columns(#[trigger] parts[i]) <= w,
    ensures
        columns(filled_all(parts, w, indent).line) <= w,
        forall|i: int|
            0 <= i < filled_all(parts, w, indent).full.len() ==> columns(
                #[trigger] filled_all(parts, w, indent).full[i],
            ) <= w,
    decreases parts.len(),
{
    if parts.len() > 0 {
        let rest = parts.drop_last();
        assert forall|i: int| 0 <= i < rest.len() implies columns(indent) + columns(
            #[trigger] rest[i],
        ) <= w by {
            assert(rest[i] == parts[i]);
        }
        lemma_filled_all(rest, w, indent);
        let f = filled_all(rest, w, indent);
        let part = parts.last();
        assert(part == parts[parts.len() - 1]);
        widths_add_up(indent, part);
        widths_add_up(f.line, part);
        lemma_columns_push(f.line, ' ');
        widths_add_up(f.line.push(' '), part);
    }
}

/// No line is wider than the width it was wrapped to, as long as the indent
/// leaves room for the widest character.
pub proof fn wrapped_lines_fit(s: Seq<char>, width: nat, indent: Seq<char>)
    requires
        columns(indent) + 3 <= line_width(width),
    ensures
        forall|i: int|
            0 <= i < wrapped(s, width, indent).len() ==> columns(
                #[trigger] wrapped(s, width, indent)[i],
            ) <= line_width(width),
{
    lemma_paragraphs_fit(text::pieces(s, '\n'), width, indent);
}

proof fn lemma_paragraphs_fit(paras: Seq<Seq<char>>, width: nat, indent: Seq<char>)
    requires
        columns(indent) + 3 <= line_width(width),
    ensures
        forall|i: int|
            0 <= i < paragraphs(paras, width, indent).len() ==> columns(
                #[trigger] paragraphs(paras, width, indent)[i],
            ) <= line_width(width),
    decreases paras.len(),
{
    if paras.len() > 0 {
        lemma_paragraphs_fit(paras.drop_last(), width, indent);
        let words = text::words_of(paras.last());
        lemma_all_cuts(words, room(width, indent));
        lemma_filled_all(all_cuts(words, room(width, indent)), line_width(width), indent);
        let a = paragraphs(paras.drop_last(), width, indent);
        let b = paragraph(paras.last(), width, indent);
        let all = paragraphs(paras, width, indent);
        assert forall|i: int| 0 <= i < all.len() implies columns(#[trigger] all[i]) <= line_width(
            width,
        ) by {
            if i < a.len() {
                assert(all[i] == a[i]);
            } else {
                assert(all[i] == b[i - a.len()]);
            }
        }
    }
}

/// What is left of a character where only visible ones stay.
pub open spec fn ink() -> spec_fn(char) -> Seq<char> {
    |c: char|
        if text::white(c) {
            Seq::empty()
        } else {
            seq![c]
        }
}

/// The visible characters of a text.
pub open spec fn visible(s: Seq<char>) -> Seq<char> {
    text::expanded(s, ink())
}

/// Texts one after the other.
pub open spec fn run_together(v: Seq<Seq<char>>) -> Seq<char>
    decreases v.len(),
{
    if v.len() == 0 {
        Seq::empty()
    } else {
        run_together(v.drop_last()) + v.last()
    }
}

/// A line without its indent; an empty line has none.
pub open spec fn unindented(line: Seq<char>, indent: Seq<char>) -> Seq<char> {
    if line.len() >= indent.len() {
        line.skip(indent.len() as int)
    } else {
        Seq::empty()
    }
}

/// The visible characters of lines without their indents.
pub open spec fn visible_in(lines: Seq<Seq<char>>, indent: Seq<char>) -> Seq<char>
    decreases lines.len(),
{
    if lines.len() == 0 {
        Seq::empty()
    } else {
        visible_in(lines.drop_last(), indent) + visible(unindented(lines.last(), indent))
    }
}

proof fn lemma_run_together_concat(a: Seq<Seq<char>>, b: Seq<Seq<char>>)
    ensures
        run_together(a + b) == run_together(a) + run_together(b),
    decreases b.len(),
{
    if b.len() == 0 {
        assert(a + b =~= a);
        assert(run_together(a) + run_together(b) =~= run_together(a));
    } else {
        lemma_run_together_concat(a, b.drop_last());
        assert((a + b).drop_last() =~= a + b.drop_last());
        assert(run_together(a + b) =~= run_together(a) + run_together(b));
    }
}

proof fn lemma_visible_in_concat(a: Seq<Seq<char>>, b: Seq<Seq<char>>, indent: Seq<char>)
    ensures
        visible_in(a + b, indent) == visible_in(a, indent) + visible_in(b, indent),
    decreases b.len(),
{
    if b.len() == 0 {
        assert(a + b =~= a);
        assert(visible_in(a, indent) + visible_in(b, indent) =~= visible_in(a, indent));
    } else {
        lemma_visible_in_concat(a, b.drop_last(), indent);
        assert((a + b).drop_last() =~= a + b.drop_last());
        assert(visible_in(a + b, indent) =~= visible_in(a, indent) + visible_in(b, indent));
    }
}

proof fn lemma_visible_white(s: Seq<char>)
    requires
        forall|i: int| 0 <= i < s.len() ==> text::white(#[trigger] s[i]),
    ensures
        visible(s) == Seq::<char>::empty(),
    decreases s.len(),
{
    if s.len() > 0 {
        assert forall|i: int| 0 <= i < s.drop_last().len() implies text::white(
            #[trigger] s.drop_last()[i],
        ) by {
            assert(s.drop_last()[i] == s[i]);
        }
        lemma_visible_white(s.drop_last());
        assert(text::white(s[s.len() - 1]));
        assert(visible(s) =~= Seq::<char>::empty());
    }
}

proof fn lemma_visible_twice(s: Seq<char>)
    ensures
        visible(visible(s)) == visible(s),
    decreases s.len(),
{
    if s.len() > 0 {
        lemma_visible_twice(s.drop_last());
        let a = visible(s.drop_last());
        let b = (ink())(s.last());
        text::lemma_expanded_concat(a, b, ink());
        if text::white(s.last()) {
            assert(b =~= Seq::<char>::empty());
            assert(visible(b) =~= b);
        } else {
            assert(b.drop_last() =~= Seq::<char>::empty());
            assert(visible(b.drop_last()) =~= Seq::<char>::empty());
            assert(visible(b) =~= b);
        }
        assert(visible(s) =~= a + b);
    }
}

/// The words of a text are its visible characters.
proof fn lemma_words_visible(s: Seq<char>)
    ensures
        run_together(text::word_scan(s).0) + text::word_scan(s).1 == visible(s),
        run_together(text::words_of(s)) == visible(s),
    decreases s.len(),
{
    if s.len() > 0 {
        lemma_words_visible(s.drop_last());
        let (done, cur) = text::word_scan(s.drop_last());
        assert(done.push(cur).drop_last() =~= done);
        assert(run_together(text::word_scan(s).0) + text::word_scan(s).1 =~= visible(s));
    } else {
        assert(run_together(text::word_scan(s).0) + text::word_scan(s).1 =~= visible(s));
    }
    let (done, cur) = text::word_scan(s);
    if cur.len() > 0 {
        assert(done.push(cur).drop_last() =~= done);
    } else {
        assert(run_together(done) + cur =~= run_together(done));
    }
}

proof fn lemma_cuts_whole(word: Seq<char>, avail: nat)
    ensures
        run_together(cut_scan(word, avail).0) + cut_scan(word, avail).1 == word,
        run_together(cuts(word, avail)) == word,
    decreases word.len(),
{
    if word.len() > 0 {
        lemma_cuts_whole(word.drop_last(), avail);
        let (done, cur) = cut_scan(word.drop_last(), avail);
        let c = word.last();
        assert(done.push(cur).drop_last() =~= done);
        assert(word =~= word.drop_last().push(c));
        if cur.len() > 0 && columns(cur) + ch_columns(c) > avail {
            assert(run_together(done.push(cur)) + seq![c] =~= word);
        } else {
            assert(run_together(done) + cur.push(c) =~= word);
        }
    } else {
        assert(run_together(cut_scan(word, avail).0) + cut_scan(word, avail).1 =~= word);
    }
    let (done, cur) = cut_scan(word, avail);
    assert(done.push(cur).drop_last() =~= done);
    assert(seq![word].drop_last() =~= Seq::<Seq<char>>::empty());
    assert(run_together(Seq::<Seq<char>>::empty()) =~= Seq::<char>::empty());
    assert(run_together(seq![word]) =~= word);
}

proof fn lemma_all_cuts_whole(words: Seq<Seq<char>>, avail: nat)
    ensures
        run_together(all_cuts(words, avail)) == run_together(words),
    decreases words.len(),
{
    if words.len() > 0 {
        lemma_all_cuts_whole(words.drop_last(), avail);
        lemma_cuts_whole(words.last(), avail);
        lemma_run_together_concat(all_cuts(words.drop_last(), avail), cuts(words.last(), avail));
    }
}

proof fn lemma_filled_visible(parts: Seq<Seq<char>>, w: nat, indent: Seq<char>)
    ensures
        ({
            let f = filled_all(parts, w, indent);
            &&& visible_in(f.full.push(f.line), indent) == visible(run_together(parts))
            &&& text::begins(f.line, indent)
            &&& forall|i: int|
                0 <= i < f.full.len() ==> text::begins(#[trigger] f.full[i], indent)
        }),
    decreases parts.len(),
{
    let f = filled_all(parts, w, indent);
    assert(f.full.push(f.line).drop_last() =~= f.full);
    if parts.len() == 0 {
        assert(unindented(indent, indent) =~= Seq::<char>::empty());
        assert(visible(Seq::<char>::empty()) =~= Seq::<char>::empty());
        assert(visible_in(f.full, indent) =~= Seq::<char>::empty());
        assert(f.full.push(f.line).last() == indent);
        assert(visible_in(f.full.push(f.line), indent) =~= Seq::<char>::empty());
        assert(indent.subrange(0, indent.len() as int) =~= indent);
    } else {
        let part = parts.last();
        let g = filled_all(parts.drop_last(), w, indent);
        lemma_filled_visible(parts.drop_last(), w, indent);
        assert(g.full.push(g.line).drop_last() =~= g.full);
        let before = run_together(parts.drop_last());
        text::lemma_expanded_concat(before, part, ink());
        let rest = unindented(g.line, indent);
        let space = seq![' '];
        if begun(g.line, indent) && columns(g.line) + 1 + columns(part) > w {
            assert(f.full == g.full.push(g.line));
            assert(f.line =~= indent + part);
            assert(unindented(f.line, indent) =~= part);
            assert(f.line.subrange(0, indent.len() as int) =~= indent);
            assert forall|i: int| 0 <= i < f.full.len() implies text::begins(
                #[trigger] f.full[i],
                indent,
            ) by {
                if i < g.full.len() {
                    assert(f.full[i] == g.full[i]);
                }
            }
            assert(visible_in(f.full.push(f.line), indent) =~= visible(before) + visible(part));
        } else if begun(g.line, indent) {
            assert(f.line =~= g.line + space + part);
            assert(unindented(f.line, indent) =~= rest + space + part);
            assert(f.line.subrange(0, indent.len() as int) =~= g.line.subrange(
                0,
                indent.len() as int,
            ));
            text::lemma_expanded_concat(rest + space, part, ink());
            text::lemma_expanded_concat(rest, space, ink());
            lemma_visible_white(space);
            assert(visible_in(f.full.push(f.line), indent) =~= visible(before) + visible(part));
        } else {
            assert(f.line =~= g.line + part);
            assert(unindented(f.line, indent) =~= rest + part);
            assert(f.line.subrange(0, indent.len() as int) =~= g.line.subrange(
                0,
                indent.len() as int,
            ));
            text::lemma_expanded_concat(rest, part, ink());
            assert(visible_in(f.full.push(f.line), indent) =~= visible(before) + visible(part));
        }
    }
}

proof fn lemma_paragraph_visible(para: Seq<char>, width: nat, indent: Seq<char>)
    ensures
        visible_in(paragraph(para, width, indent), indent) == visible(para),
        forall|i: int|
            0 <= i < paragraph(para, width, indent).len() ==> (#[trigger] paragraph(
                para,
                width,
                indent,
            )[i]).len() == 0 || text::begins(paragraph(para, width, indent)[i], indent),
{
    let lines = paragraph(para, width, indent);
    if text::trimmed(para).len() == 0 {
        let (i, j) = text::lemma_trimmed_shape(para);
        lemma_visible_white(para);
        let none = Seq::<char>::empty();
        assert(lines.drop_last() =~= Seq::<Seq<char>>::empty());
        assert(unindented(none, indent) =~= none);
        assert(visible(none) =~= none);
        assert(visible_in(lines.drop_last(), indent) =~= none);
        assert(visible_in(lines, indent) =~= none);
    } else {
        let words = text::words_of(para);
        let parts = all_cuts(words, room(width, indent));
        lemma_words_visible(para);
        lemma_all_cuts_whole(words, room(width, indent));
        lemma_filled_visible(parts, line_width(width), indent);
        lemma_visible_twice(para);
        let f = filled_all(parts, line_width(width), indent);
        assert forall|i: int| 0 <= i < lines.len() implies (#[trigger] lines[i]).len() == 0
            || text::begins(lines[i], indent) by {
            if i < f.full.len() {
                assert(lines[i] == f.full[i]);
            }
        }
    }
}

proof fn lemma_paragraphs_visible(paras: Seq<Seq<char>>, width: nat, indent: Seq<char>)
    ensures
        visible_in(paragraphs(paras, width, indent), indent) == visible(run_together(paras)),
        forall|i: int|
            0 <= i < paragraphs(paras, width, indent).len() ==> (#[trigger] paragraphs(
                paras,
                width,
                indent,
            )[i]).len() == 0 || text::begins(paragraphs(paras, width, indent)[i], indent),
    decreases paras.len(),
{
    if paras.len() > 0 {
        lemma_paragraphs_visible(paras.drop_last(), width, indent);
        lemma_paragraph_visible(paras.last(), width, indent);
        let a = paragraphs(paras.drop_last(), width, indent);
        let b = paragraph(paras.last(), width, indent);
        lemma_visible_in_concat(a, b, indent);
        text::lemma_expanded_concat(run_together(paras.drop_last()), paras.last(), ink());
        let all = paragraphs(paras, width, indent);
        assert forall|i: int| 0 <= i < all.len() implies (#[trigger] all[i]).len() == 0
            || text::begins(all[i], indent) by {
            if i < a.len() {
                assert(all[i] == a[i]);
            } else {
                assert(all[i] == b[i - a.len()]);
            }
        }
    } else {
        assert(visible_in(paragraphs(paras, width, indent), indent) =~= visible(
            run_together(paras),
        ));
    }
}

proof fn lemma_pieces_visible(s: Seq<char>)
    ensures
        visible(run_together(text::pieces(s, '\n'))) == visible(s),
    decreases s.len(),
{
    let p = text::pieces(s, '\n');
    let none = Seq::<char>::empty();
    if s.len() == 0 {
        assert(p.drop_last() =~= Seq::<Seq<char>>::empty());
        assert(run_together(p.drop_last()) =~= none);
        assert(run_together(p) =~= none);
        assert(s =~= none);
    } else {
        lemma_pieces_visible(s.drop_last());
        text::lemma_pieces(s.drop_last(), '\n');
        let q = text::pieces(s.drop_last(), '\n');
        let c = s.last();
        if c == '\n' {
            assert(p.drop_last() =~= q);
            assert(run_together(p) =~= run_together(q));
            assert(visible(s) =~= visible(s.drop_last()));
        } else {
            assert(p.drop_last() =~= q.drop_last());
            assert(run_together(p) =~= run_together(q).push(c));
            assert(run_together(p).drop_last() =~= run_together(q));
        }
    }
}

/// Wrapping loses nothing: every line is empty or begins with the indent, and
/// behind the indents stand the visible characters of the text, all of them, in
/// their order.
pub proof fn wrapping_keeps_the_text(s: Seq<char>, width: nat, indent: Seq<char>)
    ensures
        visible_in(wrapped(s, width, indent), indent) == visible(s),
        forall|i: int|
            0 <= i < wrapped(s, width, indent).len() ==> (#[trigger] wrapped(
                s,
                width,
                indent,
            )[i]).len() == 0 || text::begins(wrapped(s, width, indent)[i], indent),
{
    lemma_paragraphs_visible(text::pieces(s, '\n'), width, indent);
    lemma_pieces_visible(s);
}

/// Whether a text stands whole on one of the lines.
pub open spec fn stands_whole(lines: Seq<Seq<char>>, part: Seq<char>) -> bool {
    exists|j: int| 0 <= j < lines.len() && text::has_text(#[trigger] lines[j], part)
}

proof fn lemma_has_itself(a: Seq<char>, part: Seq<char>)
    ensures
        text::has_text(a + part, part),
{
    let s = a + part;
    assert(s.subrange(a.len() as int, (a.len() + part.len()) as int) =~= part);
    assert(text::is_at(s, a.len() as int, part));
}

proof fn lemma_parts_stand_whole(parts: Seq<Seq<char>>, w: nat, indent: Seq<char>, i: int)
    requires
        0 <= i < parts.len(),
    ensures
        stands_whole(
            filled_all(parts, w, indent).full.push(filled_all(parts, w, indent).line),
            parts[i],
        ),
    decreases parts.len(),
{
    let f = filled_all(parts.drop_last(), w, indent);
    let g = filled_all(parts, w, indent);
    let last = parts.last();
    let was = f.full.push(f.line);
    let now = g.full.push(g.line);
    let part = parts[i];
    if i == parts.len() - 1 {
        lemma_has_itself(f.line.push(' '), last);
        lemma_has_itself(f.line, last);
        lemma_has_itself(indent.push(' '), last);
        lemma_has_itself(indent, last);
        assert(text::has_text(now[now.len() - 1], part));
    } else {
        assert(parts.drop_last()[i] == part);
        lemma_parts_stand_whole(parts.drop_last(), w, indent, i);
        let j = choose|j: int| 0 <= j < was.len() && text::has_text(#[trigger] was[j], part);
        if j < f.full.len() || g.full.len() > f.full.len() {
            assert(now[j] == was[j]);
        } else {
            let none = Seq::<char>::empty();
            let spaced = seq![' '] + last;
            text::lemma_has_text_in_whole(none, f.line, spaced, part);
            text::lemma_has_text_in_whole(none, f.line, last, part);
            assert(none + f.line + spaced =~= f.line.push(' ') + last);
            assert(none + f.line + last =~= f.line + last);
            assert(text::has_text(now[j], part));
        }
    }
}

proof fn lemma_whole_word_is_a_part(words: Seq<Seq<char>>, avail: nat, i: int)
    requires
        0 <= i < words.len(),
        columns(words[i]) <= avail,
    ensures
        all_cuts(words, avail).contains(words[i]),
    decreases words.len(),
{
    let a = all_cuts(words.drop_last(), avail);
    let b = cuts(words.last(), avail);
    if i == words.len() - 1 {
        assert((a + b)[a.len() as int] == words[i]);
    } else {
        assert(words.drop_last()[i] == words[i]);
        lemma_whole_word_is_a_part(words.drop_last(), avail, i);
        let k = choose|k: int| 0 <= k < a.len() && a[k] == words[i];
        assert((a + b)[k] == words[i]);
    }
}

proof fn lemma_blank_has_no_words(s: Seq<char>)
    requires
        forall|k: int| 0 <= k < s.len() ==> text::white(#[trigger] s[k]),
    ensures
        text::word_scan(s) == (Seq::<Seq<char>>::empty(), Seq::<char>::empty()),
    decreases s.len(),
{
    if s.len() > 0 {
        let t = s.drop_last();
        assert forall|k: int| 0 <= k < t.len() implies text::white(#[trigger] t[k]) by {
            assert(t[k] == s[k]);
        }
        lemma_blank_has_no_words(t);
        assert(text::white(s[s.len() - 1]));
    }
}

proof fn lemma_paragraph_lines(
    paras: Seq<Seq<char>>,
    width: nat,
    indent: Seq<char>,
    p: int,
    part: Seq<char>,
)
    requires
        0 <= p < paras.len(),
        stands_whole(paragraph(paras[p], width, indent), part),
    ensures
        stands_whole(paragraphs(paras, width, indent), part),
    decreases paras.len(),
{
    let a = paragraphs(paras.drop_last(), width, indent);
    let b = paragraph(paras.last(), width, indent);
    if p == paras.len() - 1 {
        let j = choose|j: int| 0 <= j < b.len() && text::has_text(#[trigger] b[j], part);
        assert((a + b)[a.len() + j] == b[j]);
    } else {
        assert(paras.drop_last()[p] == paras[p]);
        lemma_paragraph_lines(paras.drop_last(), width, indent, p, part);
        let j = choose|j: int| 0 <= j < a.len() && text::has_text(#[trigger] a[j], part);
        assert((a + b)[j] == a[j]);
    }
}

/// A word that fits a line behind its indent is never split: it stands whole on
/// one of the lines. `p` is its paragraph, and `i` its place there.
pub proof fn fitting_words_stay_whole(
    s: Seq<char>,
    width: nat,
    indent: Seq<char>,
    p: int,
    i: int,
)
    requires
        0 <= p < text::pieces(s, '\n').len(),
        0 <= i < text::words_of(text::pieces(s, '\n')[p]).len(),
        columns(text::words_of(text::pieces(s, '\n')[p])[i]) <= room(width, indent),
    ensures
        stands_whole(
            wrapped(s, width, indent),
            text::words_of(text::pieces(s, '\n')[p])[i],
        ),
{
    let paras = text::pieces(s, '\n');
    let para = paras[p];
    let words = text::words_of(para);
    let parts = all_cuts(words, room(width, indent));
    let (from, to) = text::lemma_trimmed_shape(para);
    if text::trimmed(para).len() == 0 {
        assert(from == to);
        lemma_blank_has_no_words(para);
        assert(false);
    }
    lemma_whole_word_is_a_part(words, room(width, indent), i);
    let k = choose|k: int| 0 <= k < parts.len() && parts[k] == words[i];
    lemma_parts_stand_whole(parts, line_width(width), indent, k);
    lemma_paragraph_lines(paras, width, indent, p, words[i]);
}

/// Lines are as wide as is asked for, and never narrower than 24 columns.
pub proof fn lines_are_as_wide_as_asked(width: nat, indent: Seq<char>)
    ensures
        width >= 24 ==> line_width(width) == width,
        width < 24 ==> line_width(width) == 24,
        columns(indent) < line_width(width) ==> room(width, indent) + columns(indent) == line_width(
            width,
        ),
{
}

proof fn lemma_whole_words(words: Seq<Seq<char>>, avail: nat)
    requires
        forall|i: int| 0 <= i < words.len() ==> columns(#[trigger] words[i]) <= avail,
    ensures
        all_cuts(words, avail) == words,
    decreases words.len(),
{
    if words.len() > 0 {
        let w = words.drop_last();
        assert forall|i: int| 0 <= i < w.len() implies columns(#[trigger] w[i]) <= avail by {
            assert(w[i] == words[i]);
        }
        lemma_whole_words(w, avail);
        assert(columns(words[words.len() - 1]) <= avail);
        assert(all_cuts(words, avail) =~= words);
    } else {
        assert(all_cuts(words, avail) =~= words);
    }
}

proof fn lemma_one_line(parts: Seq<Seq<char>>, w: nat, indent: Seq<char>)
    requires
        parts.len() > 0,
        forall|i: int| 0 <= i < parts.len() ==> columns(#[trigger] parts[i]) > 0,
        columns(indent + text::joined(parts, " "@)) <= w,
    ensures
        filled_all(parts, w, indent) == (Filling {
            full: Seq::empty(),
            line: indent + text::joined(parts, " "@),
        }),
        begun(indent + text::joined(parts, " "@), indent),
    decreases parts.len(),
{
    reveal_strlit(" ");
    let rest = parts.drop_last();
    let last = parts.last();
    assert(columns(parts[parts.len() - 1]) > 0);
    widths_add_up(indent, text::joined(parts, " "@));
    if rest.len() == 0 {
        assert(filled_all(rest, w, indent) == (Filling { full: Seq::empty(), line: indent }));
        assert(text::joined(parts, " "@) == last);
    } else {
        let before = text::joined(rest, " "@);
        assert forall|i: int| 0 <= i < rest.len() implies columns(#[trigger] rest[i]) > 0 by {
            assert(rest[i] == parts[i]);
        }
        widths_add_up(before + " "@, last);
        widths_add_up(before, " "@);
        widths_add_up(indent, before);
        assert(" "@.drop_last() =~= Seq::empty());
        assert(columns(" "@) == 1);
        lemma_one_line(rest, w, indent);
        let line = indent + before;
        assert(line.push(' ') + last =~= indent + (before + " "@ + last));
    }
}

proof fn lemma_one_paragraph(s: Seq<char>, width: nat, indent: Seq<char>)
    ensures
        paragraphs(seq![s], width, indent) == paragraph(s, width, indent),
{
    assert(seq![s].drop_last() =~= Seq::empty());
    assert(paragraphs(Seq::empty(), width, indent) =~= Seq::empty());
    assert(paragraphs(seq![s], width, indent) =~= paragraph(s, width, indent));
}

/// Words that fit on one line beside the indent stand on one line, with a blank
/// between them, however many blanks were there.
pub proof fn short_texts_stay_on_one_line(s: Seq<char>, width: nat, indent: Seq<char>)
    requires
        !s.contains('\n'),
        text::words_of(s).len() > 0,
        text::trimmed(s).len() > 0,
        forall|i: int|
            0 <= i < text::words_of(s).len() ==> 0 < columns(#[trigger] text::words_of(s)[i])
                <= room(width, indent),
        columns(indent + text::joined(text::words_of(s), " "@)) <= line_width(width),
    ensures
        wrapped(s, width, indent) == seq![indent + text::joined(text::words_of(s), " "@)],
{
    let words = text::words_of(s);
    text::lemma_first_piece(s, Seq::empty(), '\n');
    lemma_whole_words(words, room(width, indent));
    lemma_one_line(words, line_width(width), indent);
    lemma_one_paragraph(s, width, indent);
    assert(wrapped(s, width, indent) =~= seq![indent + text::joined(words, " "@)]);
}

/// Whether a line could not take in the part that the next one begins with.
pub open spec fn must_break(
    lines: Seq<Seq<char>>,
    i: int,
    parts: Seq<Seq<char>>,
    w: nat,
    indent: Seq<char>,
) -> bool {
    exists|k: int|
        0 <= k < parts.len() && text::begins(lines[i + 1], indent + #[trigger] parts[k]) && columns(
            lines[i],
        ) + 1 + columns(parts[k]) > w
}

proof fn lemma_must_break(parts: Seq<Seq<char>>, w: nat, indent: Seq<char>)
    ensures
        ({
            let f = filled_all(parts, w, indent);
            let lines = f.full.push(f.line);
            forall|i: int| 0 <= i < f.full.len() ==> #[trigger] must_break(lines, i, parts, w, indent)
        }),
    decreases parts.len(),
{
    if parts.len() > 0 {
        let rest = parts.drop_last();
        let last = parts.last();
        lemma_must_break(rest, w, indent);
        let g = filled_all(rest, w, indent);
        let f = filled_all(parts, w, indent);
        let was = g.full.push(g.line);
        let lines = f.full.push(f.line);
        assert forall|i: int| 0 <= i < f.full.len() implies #[trigger] must_break(
            lines,
            i,
            parts,
            w,
            indent,
        ) by {
            assert(lines[i] == was[i]);
            if i < g.full.len() {
                assert(must_break(was, i, rest, w, indent));
                let k = choose|k: int|
                    0 <= k < rest.len() && text::begins(was[i + 1], indent + #[trigger] rest[k])
                        && columns(was[i]) + 1 + columns(rest[k]) > w;
                assert(parts[k] == rest[k]);
                let head = indent + parts[k];
                let (a, b) = (was[i + 1], lines[i + 1]);
                assert(b.len() >= a.len() && b.take(a.len() as int) =~= a);
                assert(b.subrange(0, head.len() as int) =~= a.subrange(0, head.len() as int));
                assert(text::begins(lines[i + 1], indent + parts[k]));
            } else {
                let k = parts.len() - 1;
                assert(parts[k] == last);
                assert(lines[i + 1] == indent + last);
                assert((indent + last).subrange(0, (indent + last).len() as int) =~= indent
                    + last);
                assert(text::begins(lines[i + 1], indent + parts[k]));
            }
        }
    }
}

/// A line breaks only where it must: the word that the next line begins with did
/// not fit on it any more.
pub proof fn lines_break_only_where_they_must(
    s: Seq<char>,
    width: nat,
    indent: Seq<char>,
    i: int,
)
    requires
        !s.contains('\n'),
        text::trimmed(s).len() > 0,
        0 <= i < wrapped(s, width, indent).len() - 1,
    ensures
        must_break(
            wrapped(s, width, indent),
            i,
            all_cuts(text::words_of(s), room(width, indent)),
            line_width(width),
            indent,
        ),
        (forall|k: int|
            0 <= k < text::words_of(s).len() ==> columns(#[trigger] text::words_of(s)[k]) <= room(
                width,
                indent,
            )) ==> must_break(
            wrapped(s, width, indent),
            i,
            text::words_of(s),
            line_width(width),
            indent,
        ),
{
    let words = text::words_of(s);
    text::lemma_first_piece(s, Seq::empty(), '\n');
    lemma_one_paragraph(s, width, indent);
    lemma_must_break(all_cuts(words, room(width, indent)), line_width(width), indent);
    if forall|k: int|
        0 <= k < words.len() ==> columns(#[trigger] words[k]) <= room(width, indent) {
        lemma_whole_words(words, room(width, indent));
    }
}

/// A blank line of a text is an empty line, and lines of a text never share one.
pub proof fn lines_of_a_text_are_wrapped_apart(
    a: Seq<char>,
    b: Seq<char>,
    width: nat,
    indent: Seq<char>,
)
    requires
        !a.contains('\n'),
        !b.contains('\n'),
    ensures
        wrapped(a + seq!['\n'] + b, width, indent) == wrapped(a, width, indent) + wrapped(
            b,
            width,
            indent,
        ),
        text::trimmed(a).len() == 0 ==> wrapped(a, width, indent) == seq![Seq::<char>::empty()],
{
    let pair = seq![a, b];
    assert(text::joined(pair, seq!['\n']) =~= a + seq!['\n'] + b) by {
        assert(pair.drop_last() =~= seq![a]);
        assert(text::joined(seq![a], seq!['\n']) == a);
    }
    text::pieces_undo_join(pair, '\n');
    text::lemma_first_piece(a, Seq::empty(), '\n');
    text::lemma_first_piece(b, Seq::empty(), '\n');
    assert(pair.drop_last() =~= seq![a]);
    lemma_one_paragraph(a, width, indent);
    lemma_one_paragraph(b, width, indent);
    assert(paragraphs(pair, width, indent) =~= paragraph(a, width, indent) + paragraph(
        b,
        width,
        indent,
    ));
}

/// Every visible ASCII character, and the blank, takes one column; control
/// characters take none.
pub proof fn ascii_takes_one_column(s: Seq<char>)
    requires
        forall|i: int| 0 <= i < s.len() ==> ' ' <= #[trigger] s[i] <= '~',
    ensures
        columns(s) == s.len(),
        forall|c: char| (c as u32) < 0x20 ==> #[trigger] ch_columns(c) == 0,
    decreases s.len(),
{
    if s.len() > 0 {
        let w = s.drop_last();
        assert forall|i: int| 0 <= i < w.len() implies ' ' <= #[trigger] w[i] <= '~' by {
            assert(w[i] == s[i]);
        }
        ascii_takes_one_column(w);
        assert(' ' <= s[s.len() - 1] <= '~');
    }
}

/// An indent that leaves no room still leaves one column.
pub proof fn wide_indents_leave_one_column(width: nat, indent: Seq<char>)
    requires
        columns(indent) >= line_width(width),
    ensures
        room(width, indent) == 1,
{
}

} // verus!
