//! Searching text for an ASCII phrase, whatever the case of its letters.

use vstd::prelude::*;

use crate::text;

verus! {

/// Whether `c` is an ASCII character.
pub open spec fn ascii(c: char) -> bool {
    (c as int) < 128
}

/// What lower case makes of a character, as far as ASCII goes. Two characters
/// outside ASCII have an ASCII letter in their lower case: the Kelvin sign, and
/// the capital I with a dot, which becomes an `i` and a combining dot. Every
/// other one stands for itself here, since its lower case holds no ASCII.
pub open spec fn folded_char(c: char) -> Seq<char> {
    if ascii(c) {
        seq![text::ascii_lower(c)]
    } else if c == '\u{212a}' {
        seq!['k']
    } else if c == '\u{130}' {
        seq!['i', '\u{307}']
    } else {
        seq![c]
    }
}

/// The lower case of `s`, as far as ASCII goes.
pub open spec fn folded(s: Seq<char>) -> Seq<char> {
    text::expanded(s, |c: char| folded_char(c))
}

/// Whether the phrase `needle` stands somewhere in `s`, in any case.
pub open spec fn mentions(s: Seq<char>, needle: Seq<char>) -> bool {
    text::has_text(folded(s), needle)
}

/// Whether `p` can be the lower case of `c`: the lower-case letter of an ASCII
/// character, the two special cases, or else text without any ASCII in it.
pub open spec fn lower_piece(c: char, p: Seq<char>) -> bool {
    if ascii(c) || c == '\u{212a}' || c == '\u{130}' {
        p == folded_char(c)
    } else {
        p.len() > 0 && forall|i: int| 0 <= i < p.len() ==> !ascii(#[trigger] p[i])
    }
}

/// Whether `r` is made of the lower cases of the characters of `s`, in order.
pub open spec fn lowers_to(s: Seq<char>, r: Seq<char>) -> bool
    decreases s.len(),
{
    if s.len() == 0 {
        r.len() == 0
    } else {
        exists|k: int|
            0 <= k <= r.len() && lowers_to(s.drop_last(), #[trigger] r.take(k)) && lower_piece(
                s.last(),
                r.skip(k),
            )
    }
}

/// `str::to_lowercase`: every character is replaced by its Unicode lower case,
/// one after the other. An ASCII character has its ASCII lower case; outside
/// ASCII only the Kelvin sign and the dotted capital I have ASCII in theirs.
/// Which characters the other lower cases are is left unsaid.
#[verifier::external_body]
fn to_lowercase(s: &str) -> (r: String)
    ensures
        lowers_to(s@, r@),
{
    s.to_lowercase()
}

/// The ASCII characters that `s` ends with.
spec fn ascii_tail(s: Seq<char>) -> Seq<char>
    decreases s.len(),
{
    if s.len() > 0 && ascii(s.last()) {
        ascii_tail(s.drop_last()).push(s.last())
    } else {
        Seq::empty()
    }
}

proof fn lemma_ascii_tail(s: Seq<char>)
    ensures
        ascii_tail(s).len() <= s.len(),
        ascii_tail(s) == s.skip(s.len() - ascii_tail(s).len()),
        forall|i: int| 0 <= i < ascii_tail(s).len() ==> ascii(#[trigger] ascii_tail(s)[i]),
        ascii_tail(s).len() < s.len() ==> !ascii(s[s.len() - ascii_tail(s).len() - 1]),
    decreases s.len(),
{
    if s.len() > 0 && ascii(s.last()) {
        lemma_ascii_tail(s.drop_last());
        let t = ascii_tail(s.drop_last());
        assert(t.push(s.last()) =~= s.skip(s.len() - t.len() - 1));
    } else {
        assert(s.skip(s.len() as int) =~= Seq::empty());
    }
}

proof fn lemma_ends_in_tail(s: Seq<char>, needle: Seq<char>)
    requires
        vstd::utf8::is_ascii_chars(needle),
    ensures
        text::ends(s, needle) <==> text::ends(ascii_tail(s), needle),
{
    lemma_ascii_tail(s);
    let t = ascii_tail(s);
    if text::ends(s, needle) {
        if needle.len() > t.len() {
            let p = s.len() - t.len() - 1;
            let q = p - (s.len() - needle.len());
            assert(s.subrange(s.len() - needle.len(), s.len() as int)[q] == s[p]);
            assert(needle[q] == s[p]);
            assert(false);
        }
        assert(t.subrange(t.len() - needle.len(), t.len() as int) =~= needle) by {
            assert(s.subrange(s.len() - needle.len(), s.len() as int) == needle);
            assert(t.subrange(t.len() - needle.len(), t.len() as int) =~= s.subrange(
                s.len() - needle.len(),
                s.len() as int,
            ));
        }
    }
    if text::ends(t, needle) {
        assert(t.subrange(t.len() - needle.len(), t.len() as int) =~= s.subrange(
            s.len() - needle.len(),
            s.len() as int,
        ));
    }
}

proof fn lemma_has_text_push(s: Seq<char>, c: char, needle: Seq<char>)
    ensures
        text::has_text(s.push(c), needle) <==> text::has_text(s, needle) || text::ends(s.push(c), needle),
{
    let t = s.push(c);
    if text::has_text(t, needle) {
        let i = choose|i: int| text::is_at(t, i, needle);
        if i + needle.len() <= s.len() {
            assert(s.subrange(i, i + needle.len()) =~= t.subrange(i, i + needle.len()));
            assert(text::is_at(s, i, needle));
        } else {
            assert(i == t.len() - needle.len());
        }
    }
    if text::has_text(s, needle) {
        let i = choose|i: int| text::is_at(s, i, needle);
        assert(t.subrange(i, i + needle.len()) =~= s.subrange(i, i + needle.len()));
        assert(text::is_at(t, i, needle));
    }
    if text::ends(t, needle) {
        assert(text::is_at(t, t.len() - needle.len(), needle));
    }
}

/// Whether an ASCII phrase stands in one text exactly where it stands in the
/// other, as far as a reader that goes on reading can tell.
spec fn alike(x: Seq<char>, y: Seq<char>, needle: Seq<char>) -> bool {
    ascii_tail(x) == ascii_tail(y) && (text::has_text(x, needle) <==> text::has_text(y, needle))
}

proof fn lemma_alike_push(x: Seq<char>, y: Seq<char>, c: char, needle: Seq<char>)
    requires
        vstd::utf8::is_ascii_chars(needle),
        alike(x, y, needle),
        ascii(c),
    ensures
        alike(x.push(c), y.push(c), needle),
{
    lemma_has_text_push(x, c, needle);
    lemma_has_text_push(y, c, needle);
    lemma_ends_in_tail(x.push(c), needle);
    lemma_ends_in_tail(y.push(c), needle);
    assert(x.push(c).drop_last() =~= x);
    assert(y.push(c).drop_last() =~= y);
}

proof fn lemma_foreign_push(x: Seq<char>, c: char, needle: Seq<char>)
    requires
        vstd::utf8::is_ascii_chars(needle),
        needle.len() > 0,
        !ascii(c),
    ensures
        ascii_tail(x.push(c)) == Seq::<char>::empty(),
        text::has_text(x.push(c), needle) <==> text::has_text(x, needle),
{
    lemma_has_text_push(x, c, needle);
    lemma_ends_in_tail(x.push(c), needle);
}

proof fn lemma_foreign_run(x: Seq<char>, p: Seq<char>, needle: Seq<char>)
    requires
        vstd::utf8::is_ascii_chars(needle),
        needle.len() > 0,
        p.len() > 0,
        forall|i: int| 0 <= i < p.len() ==> !ascii(#[trigger] p[i]),
    ensures
        ascii_tail(x + p) == Seq::<char>::empty(),
        text::has_text(x + p, needle) <==> text::has_text(x, needle),
    decreases p.len(),
{
    assert(x + p =~= (x + p.drop_last()).push(p.last()));
    assert(!ascii(p[p.len() - 1]));
    lemma_foreign_push(x + p.drop_last(), p.last(), needle);
    if p.len() > 1 {
        lemma_foreign_run(x, p.drop_last(), needle);
    } else {
        assert(x + p.drop_last() =~= x);
    }
}

proof fn lemma_lower_alike(s: Seq<char>, r: Seq<char>, needle: Seq<char>)
    requires
        lowers_to(s, r),
        vstd::utf8::is_ascii_chars(needle),
        needle.len() > 0,
    ensures
        alike(r, folded(s), needle),
    decreases s.len(),
{
    let f = |c: char| folded_char(c);
    if s.len() == 0 {
        assert(r =~= folded(s));
    } else {
        let k = choose|k: int|
            0 <= k <= r.len() && lowers_to(s.drop_last(), #[trigger] r.take(k)) && lower_piece(
                s.last(),
                r.skip(k),
            );
        let x = r.take(k);
        let p = r.skip(k);
        let y = folded(s.drop_last());
        let c = s.last();
        assert(r =~= x + p);
        lemma_lower_alike(s.drop_last(), x, needle);
        assert(folded(s) == y + folded_char(c));
        if ascii(c) || c == '\u{212a}' {
            let d = p[0];
            assert(ascii(d));
            lemma_alike_push(x, y, d, needle);
            assert(x + p =~= x.push(d));
            assert(y + folded_char(c) =~= y.push(d));
        } else if c == '\u{130}' {
            lemma_alike_push(x, y, 'i', needle);
            lemma_foreign_push(x.push('i'), '\u{307}', needle);
            lemma_foreign_push(y.push('i'), '\u{307}', needle);
            assert(x + p =~= x.push('i').push('\u{307}'));
            assert(y + folded_char(c) =~= y.push('i').push('\u{307}'));
        } else {
            lemma_foreign_run(x, p, needle);
            lemma_foreign_run(y, folded_char(c), needle);
        }
    }
}

/// Whether the phrase `needle` stands somewhere in `s`, in any case.
pub fn mentions_phrase(s: &str, needle: &str) -> (r: bool)
    requires
        vstd::utf8::is_ascii_chars(needle@),
        needle@.len() > 0,
    ensures
        r == mentions(s@, needle@),
{
    let low = to_lowercase(s);
    proof {
        lemma_lower_alike(s@, low@, needle@);
    }
    text::contains(low.as_str(), needle)
}

/// Folding two texts one after the other.
pub proof fn lemma_folded_concat(a: Seq<char>, b: Seq<char>)
    ensures
        folded(a + b) == folded(a) + folded(b),
{
    text::lemma_expanded_concat(a, b, |c: char| folded_char(c));
}

/// An ASCII text folds to itself in lower case.
pub proof fn lemma_folded_ascii(s: Seq<char>)
    requires
        vstd::utf8::is_ascii_chars(s),
    ensures
        folded(s) == text::ascii_lowered(s),
    decreases s.len(),
{
    if s.len() == 0 {
        assert(text::ascii_lowered(s) =~= Seq::empty());
    } else {
        assert(ascii(s[s.len() - 1]));
        lemma_folded_ascii(s.drop_last());
        assert(folded(s) =~= text::ascii_lowered(s));
    }
}

/// Whitespace folds to itself.
pub proof fn lemma_folded_white(s: Seq<char>)
    requires
        forall|i: int| 0 <= i < s.len() ==> text::white(#[trigger] s[i]),
    ensures
        folded(s) == s,
    decreases s.len(),
{
    if s.len() > 0 {
        assert(text::white(s[s.len() - 1]));
        lemma_folded_white(s.drop_last());
    }
    assert(folded(s) =~= s);
}

/// A phrase that a part of a text mentions, the whole mentions.
pub proof fn lemma_mentions_in_whole(a: Seq<char>, b: Seq<char>, c: Seq<char>, needle: Seq<char>)
    requires
        mentions(b, needle),
    ensures
        mentions(a + b + c, needle),
{
    lemma_folded_concat(a, b);
    lemma_folded_concat(a + b, c);
    text::lemma_has_text_in_whole(folded(a), folded(b), folded(c), needle);
}

/// Trimming a text loses no phrase that begins and ends with a visible
/// character.
pub proof fn lemma_mentions_trimmed(s: Seq<char>, needle: Seq<char>)
    requires
        mentions(s, needle),
        needle.len() > 0,
        !text::white(needle[0]),
        !text::white(needle.last()),
    ensures
        mentions(text::trimmed(s), needle),
{
    let (i, j) = text::lemma_trimmed_shape(s);
    let a = s.take(i);
    let t = text::trimmed(s);
    let b = s.skip(j);
    assert(s =~= a + t + b);
    assert forall|k: int| 0 <= k < b.len() implies text::white(#[trigger] b[k]) by {
        assert(b[k] == s[j + k]);
    }
    lemma_folded_white(a);
    lemma_folded_white(b);
    lemma_folded_concat(a, t);
    lemma_folded_concat(a + t, b);
    let f = folded(t);
    let whole = folded(s);
    assert(whole == a + f + b);
    let p = choose|p: int| text::is_at(whole, p, needle);
    assert(whole.subrange(p, p + needle.len()) == needle);
    let q = p + needle.len() - 1;
    assert(whole[p] == needle[0]);
    assert(whole[q] == needle.last());
    assert(a.len() <= p) by {
        if p < a.len() {
            assert(whole[p] == a[p]);
        }
    }
    assert(q < a.len() + f.len()) by {
        if q >= a.len() + f.len() {
            assert(whole[q] == b[q - a.len() - f.len()]);
        }
    }
    assert(f.subrange(p - a.len(), p - a.len() + needle.len()) =~= needle) by {
        assert forall|k: int| 0 <= k < needle.len() implies f[p - a.len() + k] == needle[k] by {
            assert(whole.subrange(p, p + needle.len())[k] == whole[p + k]);
        }
    }
    assert(text::is_at(f, p - a.len(), needle));
}

} // verus!
