//! Text as sequences of characters: the vocabulary that the contracts of the
//! other modules are written in, and the executable functions that match it.

use vstd::prelude::*;

verus! {

/// `String::push`: the character is appended to the end of the string, and
/// nothing else changes.
pub assume_specification[ String::push ](s: &mut String, c: char)
    ensures
        final(s)@ == old(s)@.push(c),
;

/// The characters of `s`, one by one.
pub fn chars_of(s: &str) -> (r: Vec<char>)
    ensures
        r@ == s@,
{
    let mut r: Vec<char> = Vec::new();
    for c in it: s.chars()
        invariant
            it.seq() == s@,
            r@ == s@.take(it.index() as int),
    {
        r.push(c);
        assert(r@ =~= s@.take(it.index() + 1));
    }
    assert(s@.take(s@.len() as int) =~= s@);
    r
}

/// The text of `v[from..to]`.
pub fn string_of(v: &Vec<char>, from: usize, to: usize) -> (r: String)
    requires
        from <= to <= v@.len(),
    ensures
        r@ == v@.subrange(from as int, to as int),
{
    let mut r = String::new();
    let mut i: usize = from;
    while i < to
        invariant
            from <= i <= to <= v@.len(),
            r@ == v@.subrange(from as int, i as int),
        decreases to - i,
    {
        r.push(v[i]);
        i = i + 1;
        assert(r@ =~= v@.subrange(from as int, i as int));
    }
    r
}

// ---- whitespace -----------------------------------------------------------

/// The characters with the Unicode `White_Space` property.
pub open spec fn white(c: char) -> bool {
    ||| '\u{9}' <= c <= '\u{d}'
    ||| c == ' '
    ||| c == '\u{85}'
    ||| c == '\u{a0}'
    ||| c == '\u{1680}'
    ||| '\u{2000}' <= c <= '\u{200a}'
    ||| c == '\u{2028}'
    ||| c == '\u{2029}'
    ||| c == '\u{202f}'
    ||| c == '\u{205f}'
    ||| c == '\u{3000}'
}

/// Whether `c` is whitespace.
pub fn is_white(c: char) -> (r: bool)
    ensures
        r == white(c),
{
    ('\u{9}' <= c && c <= '\u{d}') || c == ' ' || c == '\u{85}' || c == '\u{a0}' || c == '\u{1680}'
        || ('\u{2000}' <= c && c <= '\u{200a}') || c == '\u{2028}' || c == '\u{2029}'
        || c == '\u{202f}' || c == '\u{205f}' || c == '\u{3000}'
}

/// `s` without its leading whitespace.
pub open spec fn trimmed_start(s: Seq<char>) -> Seq<char>
    decreases s.len(),
{
    if s.len() > 0 && white(s.first()) {
        trimmed_start(s.drop_first())
    } else {
        s
    }
}

/// `s` without its trailing whitespace.
pub open spec fn trimmed_end(s: Seq<char>) -> Seq<char>
    decreases s.len(),
{
    if s.len() > 0 && white(s.last()) {
        trimmed_end(s.drop_last())
    } else {
        s
    }
}

/// `s` without leading and trailing whitespace.
pub open spec fn trimmed(s: Seq<char>) -> Seq<char> {
    trimmed_end(trimmed_start(s))
}

/// Dropping a leading run of whitespace that a visible character ends.
pub proof fn lemma_trimmed_start(s: Seq<char>, k: int)
    requires
        0 <= k <= s.len(),
        forall|i: int| 0 <= i < k ==> white(#[trigger] s[i]),
        k < s.len() ==> !white(s[k]),
    ensures
        trimmed_start(s) == s.skip(k),
    decreases k,
{
    if k == 0 {
        assert(s.skip(0) =~= s);
        if s.len() > 0 {
            assert(!white(s[0]));
        }
    } else {
        assert(white(s[0]));
        lemma_trimmed_start(s.drop_first(), k - 1);
        assert(s.drop_first().skip(k - 1) =~= s.skip(k));
    }
}

/// Dropping a trailing run of whitespace that a visible character precedes.
pub proof fn lemma_trimmed_end(s: Seq<char>, k: int)
    requires
        0 <= k <= s.len(),
        forall|i: int| k <= i < s.len() ==> white(#[trigger] s[i]),
        0 < k ==> !white(s[k - 1]),
    ensures
        trimmed_end(s) == s.take(k),
    decreases s.len(),
{
    if k == s.len() {
        assert(s.take(k) =~= s);
    } else {
        assert(white(s[s.len() - 1]));
        lemma_trimmed_end(s.drop_last(), k);
        assert(s.drop_last().take(k) =~= s.take(k));
    }
}

/// The text of `s` without trailing whitespace.
pub fn trim_end(s: &str) -> (r: String)
    ensures
        r@ == trimmed_end(s@),
{
    let v = chars_of(s);
    let mut j: usize = v.len();
    while 0 < j && is_white(v[j - 1])
        invariant
            j <= v@.len(),
            forall|i: int| j <= i < v@.len() ==> white(#[trigger] v@[i]),
        decreases j,
    {
        j = j - 1;
    }
    proof {
        lemma_trimmed_end(v@, j as int);
    }
    let r = string_of(&v, 0, j);
    assert(r@ =~= v@.take(j as int));
    r
}

/// The text of `s` without leading and trailing whitespace.
pub fn trim(s: &str) -> (r: String)
    ensures
        r@ == trimmed(s@),
{
    let v = chars_of(s);
    let mut i: usize = 0;
    while i < v.len() && is_white(v[i])
        invariant
            i <= v@.len(),
            forall|k: int| 0 <= k < i ==> white(#[trigger] v@[k]),
        decreases v@.len() - i,
    {
        i = i + 1;
    }
    proof {
        lemma_trimmed_start(v@, i as int);
    }
    let mut j: usize = v.len();
    while i < j && is_white(v[j - 1])
        invariant
            i <= j <= v@.len(),
            forall|k: int| j <= k < v@.len() ==> white(#[trigger] v@[k]),
        decreases j,
    {
        j = j - 1;
    }
    proof {
        let t = v@.skip(i as int);
        assert forall|k: int| j - i <= k < t.len() implies white(#[trigger] t[k]) by {
            assert(t[k] == v@[k + i]);
        }
        lemma_trimmed_end(t, j - i);
        assert(t.take(j - i) =~= v@.subrange(i as int, j as int));
    }
    string_of(&v, i, j)
}

/// Whether `s` holds whitespace only.
pub fn is_blank(s: &str) -> (r: bool)
    ensures
        r == (trimmed(s@).len() == 0),
{
    trim(s).as_str().is_empty()
}

/// What `trimmed` keeps: the text between its first and its last visible
/// character, whatever whitespace stands inside.
pub proof fn lemma_trimmed_shape(s: Seq<char>) -> (r: (int, int))
    ensures
        0 <= r.0 <= r.1 <= s.len(),
        trimmed(s) == s.subrange(r.0, r.1),
        forall|i: int| 0 <= i < r.0 ==> white(#[trigger] s[i]),
        forall|i: int| r.1 <= i < s.len() ==> white(#[trigger] s[i]),
        r.0 < r.1 ==> !white(s[r.0]) && !white(s[r.1 - 1]),
{
    let i = lemma_trimmed_start_split(s);
    let t = s.skip(i);
    let j = lemma_trimmed_end_split(t);
    assert(t.take(j) =~= s.subrange(i, i + j));
    assert forall|k: int| i + j <= k < s.len() implies white(#[trigger] s[k]) by {
        assert(s[k] == t[k - i]);
    }
    if 0 < j {
        assert(t[j - 1] == s[i + j - 1]);
        assert(t[0] == s[i]);
    }
    (i, i + j)
}

proof fn lemma_trimmed_start_split(s: Seq<char>) -> (k: int)
    ensures
        0 <= k <= s.len(),
        trimmed_start(s) == s.skip(k),
        forall|i: int| 0 <= i < k ==> white(#[trigger] s[i]),
        k < s.len() ==> !white(s[k]),
    decreases s.len(),
{
    if s.len() > 0 && white(s.first()) {
        let k = lemma_trimmed_start_split(s.drop_first());
        assert(s.drop_first().skip(k) =~= s.skip(k + 1));
        assert forall|i: int| 0 <= i < k + 1 implies white(#[trigger] s[i]) by {
            if i > 0 {
                assert(s.drop_first()[i - 1] == s[i]);
            }
        }
        k + 1
    } else {
        assert(s.skip(0) =~= s);
        0
    }
}

proof fn lemma_trimmed_end_split(s: Seq<char>) -> (k: int)
    ensures
        0 <= k <= s.len(),
        trimmed_end(s) == s.take(k),
        forall|i: int| k <= i < s.len() ==> white(#[trigger] s[i]),
        0 < k ==> !white(s[k - 1]),
    decreases s.len(),
{
    if s.len() > 0 && white(s.last()) {
        let k = lemma_trimmed_end_split(s.drop_last());
        assert(s.drop_last().take(k) =~= s.take(k));
        assert forall|i: int| k <= i < s.len() implies white(#[trigger] s[i]) by {
            if i < s.len() - 1 {
                assert(s.drop_last()[i] == s[i]);
            }
        }
        k
    } else {
        assert(s.take(s.len() as int) =~= s);
        s.len() as int
    }
}

/// Trimming twice is trimming once.
pub proof fn trimmed_is_idempotent(s: Seq<char>)
    ensures
        trimmed(trimmed(s)) == trimmed(s),
{
    let (i, j) = lemma_trimmed_shape(s);
    let t = trimmed(s);
    if i < j {
        assert(t[0] == s[i]);
        assert(t.last() == s[j - 1]);
        assert(trimmed_start(t) == t);
        assert(trimmed_end(t) == t);
    } else {
        assert(t.len() == 0);
    }
}

// ---- searching ------------------------------------------------------------

/// Whether `needle` stands in `s` at position `i`.
pub open spec fn is_at(s: Seq<char>, i: int, needle: Seq<char>) -> bool {
    0 <= i && i + needle.len() <= s.len() && s.subrange(i, i + needle.len()) == needle
}

/// Whether `needle` stands somewhere in `s`.
pub open spec fn has_text(s: Seq<char>, needle: Seq<char>) -> bool {
    exists|i: int| is_at(s, i, needle)
}

/// Whether `s` begins with `p`.
pub open spec fn begins(s: Seq<char>, p: Seq<char>) -> bool {
    is_at(s, 0, p)
}

/// Whether `s` ends with `p`.
pub open spec fn ends(s: Seq<char>, p: Seq<char>) -> bool {
    is_at(s, s.len() - p.len(), p)
}

/// Whether `needle` stands in `v` at position `i`.
pub fn matches_at(v: &Vec<char>, i: usize, needle: &Vec<char>) -> (r: bool)
    requires
        i <= v@.len(),
    ensures
        r == is_at(v@, i as int, needle@),
{
    if v.len() - i < needle.len() {
        return false;
    }
    let mut k: usize = 0;
    while k < needle.len()
        invariant
            k <= needle@.len(),
            i + needle@.len() <= v.len(),
            forall|j: int| 0 <= j < k ==> v@[i + j] == #[trigger] needle@[j],
        decreases needle@.len() - k,
    {
        if v[i + k] != needle[k] {
            assert(v@.subrange(i as int, i + needle@.len())[k as int] != needle@[k as int]);
            return false;
        }
        k = k + 1;
    }
    assert(v@.subrange(i as int, i + needle@.len()) =~= needle@);
    true
}

/// Whether the two texts are the same.
pub fn same(a: &str, b: &str) -> (r: bool)
    ensures
        r == (a@ == b@),
{
    let v = chars_of(a);
    let w = chars_of(b);
    if v.len() != w.len() {
        return false;
    }
    let r = matches_at(&v, 0, &w);
    assert(v@.subrange(0, v@.len() as int) =~= v@);
    r
}

/// Whether `needle` stands somewhere in `s`.
pub fn contains(s: &str, needle: &str) -> (r: bool)
    ensures
        r == has_text(s@, needle@),
{
    let v = chars_of(s);
    let w = chars_of(needle);
    let mut i: usize = 0;
    while i < v.len()
        invariant
            i <= v@.len(),
            v@ == s@,
            w@ == needle@,
            forall|j: int| 0 <= j < i ==> !is_at(s@, j, needle@),
        decreases v@.len() - i,
    {
        if matches_at(&v, i, &w) {
            return true;
        }
        i = i + 1;
    }
    matches_at(&v, i, &w)
}

/// Whether `s` begins with `p`.
pub fn starts_with(s: &str, p: &str) -> (r: bool)
    ensures
        r == begins(s@, p@),
{
    matches_at(&chars_of(s), 0, &chars_of(p))
}

/// Whether `s` ends with `p`.
pub fn ends_with(s: &str, p: &str) -> (r: bool)
    ensures
        r == ends(s@, p@),
{
    let v = chars_of(s);
    let w = chars_of(p);
    if v.len() < w.len() {
        return false;
    }
    matches_at(&v, v.len() - w.len(), &w)
}

/// Whether the character `c` occurs in `s`.
pub fn contains_char(s: &str, c: char) -> (r: bool)
    ensures
        r == s@.contains(c),
{
    let v = chars_of(s);
    let mut i: usize = 0;
    while i < v.len()
        invariant
            i <= v@.len(),
            v@ == s@,
            forall|j: int| 0 <= j < i ==> v@[j] != c,
        decreases v@.len() - i,
    {
        if v[i] == c {
            assert(s@[i as int] == c);
            return true;
        }
        i = i + 1;
    }
    false
}

/// Text that is found in a part is found in the whole.
pub proof fn lemma_has_text_in_whole(a: Seq<char>, b: Seq<char>, c: Seq<char>, needle: Seq<char>)
    requires
        has_text(b, needle),
    ensures
        has_text(a + b + c, needle),
{
    let i = choose|i: int| is_at(b, i, needle);
    let s = a + b + c;
    assert(s.subrange(a.len() + i, a.len() + i + needle.len()) =~= b.subrange(i, i + needle.len()));
    assert(is_at(s, a.len() + i, needle));
}

/// A part is found in the whole.
pub proof fn lemma_has_part(a: Seq<char>, b: Seq<char>, c: Seq<char>)
    ensures
        has_text(a + b + c, b),
{
    assert((a + b + c).subrange(a.len() as int, (a.len() + b.len()) as int) =~= b);
    assert(is_at(a + b + c, a.len() as int, b));
}

// ---- bytes ----------------------------------------------------------------

/// The bytes of a character in UTF-8.
pub open spec fn char_bytes(c: char) -> nat {
    if (c as u32) < 0x80 {
        1
    } else if (c as u32) < 0x800 {
        2
    } else if (c as u32) < 0x10000 {
        3
    } else {
        4
    }
}

/// The bytes of a text in UTF-8.
pub open spec fn byte_len(s: Seq<char>) -> nat
    decreases s.len(),
{
    if s.len() == 0 {
        0
    } else {
        byte_len(s.drop_last()) + char_bytes(s.last())
    }
}

/// The bytes of two texts, one after the other.
pub proof fn lemma_byte_len_concat(a: Seq<char>, b: Seq<char>)
    ensures
        byte_len(a + b) == byte_len(a) + byte_len(b),
    decreases b.len(),
{
    if b.len() == 0 {
        assert(a + b =~= a);
    } else {
        lemma_byte_len_concat(a, b.drop_last());
        assert((a + b).drop_last() =~= a + b.drop_last());
    }
}

/// The number of bytes is that of the encoding.
pub proof fn lemma_byte_len_encoding(s: Seq<char>)
    ensures
        byte_len(s) == vstd::utf8::encode_utf8(s).len(),
    decreases s.len(),
{
    if s.len() > 0 {
        let rest = s.drop_first();
        lemma_byte_len_encoding(rest);
        lemma_byte_len_concat(seq![s[0]], rest);
        assert(seq![s[0]] + rest =~= s);
        assert(seq![s[0]].drop_last() =~= Seq::empty());
        assert(byte_len(Seq::<char>::empty()) == 0);
        assert(byte_len(seq![s[0]]) == char_bytes(s[0]));
        vstd::utf8::char_is_scalar(s[0]);
        assert(vstd::utf8::encode_utf8(s) == vstd::utf8::encode_scalar(s[0] as u32)
            + vstd::utf8::encode_utf8(rest));
    }
}

/// The characters before byte `n` of a text; -1 where no character ends there.
pub open spec fn chars_before(s: Seq<char>, n: nat) -> int
    decreases s.len(),
{
    if byte_len(s) == n {
        s.len() as int
    } else if s.len() == 0 {
        -1
    } else {
        chars_before(s.drop_last(), n)
    }
}

/// A text has at least as many bytes as characters.
proof fn lemma_byte_len_least(s: Seq<char>)
    ensures
        byte_len(s) >= s.len(),
    decreases s.len(),
{
    if s.len() > 0 {
        lemma_byte_len_least(s.drop_last());
    }
}

/// In an ASCII beginning of a text, bytes are characters.
pub proof fn lemma_chars_before_ascii(a: Seq<char>, b: Seq<char>, n: nat)
    requires
        forall|i: int| 0 <= i < a.len() ==> (#[trigger] a[i] as u32) < 0x80,
        n <= a.len(),
    ensures
        chars_before(a + b, n) == n,
        byte_len(a + b) == a.len() + byte_len(b),
{
    let s = a + b;
    lemma_byte_len_concat(a, b);
    lemma_ascii_bytes(a, n);
    let t = a.take(n as int);
    assert forall|i: int| 0 <= i < t.len() implies (#[trigger] t[i] as u32) < 0x80 by {
        assert(t[i] == a[i]);
    }
    lemma_ascii_bytes(t, n);
    assert(s.take(n as int) =~= t);
    lemma_chars_before(s, n);
    let k = chars_before(s, n);
    assert(byte_len(s.take(n as int)) == n);
    assert(k >= 0);
    if k > n {
        let u = s.subrange(n as int, k);
        assert(s.take(k) =~= t + u);
        lemma_byte_len_concat(t, u);
        lemma_byte_len_least(u);
    } else if k < n {
        let u = t.take(k);
        assert(s.take(k) =~= u);
        assert forall|i: int| 0 <= i < u.len() implies (#[trigger] u[i] as u32) < 0x80 by {
            assert(u[i] == t[i]);
        }
        lemma_ascii_bytes(u, n);
    }
}

/// What is before byte `n` of a text.
pub proof fn lemma_chars_before(s: Seq<char>, n: nat)
    ensures
        -1 <= chars_before(s, n) <= s.len(),
        chars_before(s, n) >= 0 ==> byte_len(s.take(chars_before(s, n))) == n,
        chars_before(s, n) < 0 ==> forall|k: int|
            0 <= k <= s.len() ==> byte_len(#[trigger] s.take(k)) != n,
    decreases s.len(),
{
    assert(s.take(s.len() as int) =~= s);
    if byte_len(s) != n && s.len() > 0 {
        let w = s.drop_last();
        lemma_chars_before(w, n);
        assert forall|k: int| 0 <= k < s.len() implies #[trigger] s.take(k) == w.take(k) by {
            assert(s.take(k) =~= w.take(k));
        }
        if chars_before(s, n) >= 0 {
            assert(s.take(chars_before(s, n)) == w.take(chars_before(s, n)));
        } else {
            assert forall|k: int| 0 <= k <= s.len() implies byte_len(#[trigger] s.take(k)) != n by {
                if k < s.len() {
                    assert(s.take(k) == w.take(k));
                }
            }
        }
    }
}

/// The bytes of a character.
pub fn char_size(c: char) -> (r: usize)
    ensures
        r == char_bytes(c),
{
    let n: u32 = c as u32;
    if n < 0x80 {
        1
    } else if n < 0x800 {
        2
    } else if n < 0x10000 {
        3
    } else {
        4
    }
}

/// The bytes of a text.
pub fn size(s: &str) -> (r: usize)
    ensures
        r == byte_len(s@),
{
    proof {
        lemma_byte_len_encoding(s@);
    }
    s.as_bytes().len()
}

/// The characters before byte `n` of a text, where a character ends there.
pub fn count_before(s: &str, n: usize) -> (r: Option<usize>)
    ensures
        match r {
            Some(k) => chars_before(s@, n as nat) == k && k <= s@.len(),
            None => chars_before(s@, n as nat) < 0,
        },
{
    let v = chars_of(s);
    let mut bytes: usize = size(s);
    let mut k: usize = v.len();
    assert(s@.take(k as int) =~= s@);
    while k > 0 && bytes != n
        invariant
            k <= v@.len(),
            v@ == s@,
            bytes == byte_len(s@.take(k as int)),
            chars_before(s@, n as nat) == chars_before(s@.take(k as int), n as nat),
        decreases k,
    {
        assert(s@.take(k as int).drop_last() =~= s@.take(k - 1));
        bytes = bytes - char_size(v[k - 1]);
        k = k - 1;
    }
    if bytes == n {
        Some(k)
    } else {
        None
    }
}

/// Whether a text can be cut after `n` bytes, or is no longer than that.
pub open spec fn cuttable(s: Seq<char>, n: nat) -> bool {
    byte_len(s) <= n || chars_before(s, n) >= 0
}

/// The first `n` bytes of a text, or all of it where it is no longer.
pub open spec fn head(s: Seq<char>, n: nat) -> Seq<char> {
    if byte_len(s) <= n {
        s
    } else {
        s.take(chars_before(s, n))
    }
}

/// Whether a text can be cut after `n` bytes, or is no longer than that.
pub fn can_cut(s: &str, n: usize) -> (r: bool)
    ensures
        r == cuttable(s@, n as nat),
{
    size(s) <= n || count_before(s, n).is_some()
}

/// The first `n` bytes of a text, or all of it where it is no longer.
pub fn byte_head(s: &str, n: usize) -> (r: String)
    requires
        cuttable(s@, n as nat),
    ensures
        r@ == head(s@, n as nat),
{
    if size(s) <= n {
        return String::from_str(s);
    }
    match count_before(s, n) {
        Some(k) => {
            let v = chars_of(s);
            let r = string_of(&v, 0, k);
            assert(r@ =~= s@.take(k as int));
            r
        },
        None => String::from_str(s),
    }
}

/// The bytes of a text from `from` up to `to`; `None` where they are not there
/// or a character stands across either end.
pub open spec fn byte_range(s: Seq<char>, from: nat, to: nat) -> Option<Seq<char>> {
    let a = chars_before(s, from);
    let b = chars_before(s, to);
    if 0 <= a <= b {
        Some(s.subrange(a, b))
    } else {
        None
    }
}

/// The bytes of a text from `from` up to `to`.
pub fn byte_slice(s: &str, from: usize, to: usize) -> (r: Option<String>)
    requires
        from <= to,
    ensures
        opt_string(r) == byte_range(s@, from as nat, to as nat),
{
    match (count_before(s, from), count_before(s, to)) {
        (Some(a), Some(b)) => {
            if a <= b {
                let v = chars_of(s);
                let r = string_of(&v, a, b);
                assert(r@ =~= s@.subrange(a as int, b as int));
                Some(r)
            } else {
                None
            }
        },
        _ => None,
    }
}

/// A text of ASCII can be cut anywhere, and has as many bytes as characters.
pub proof fn lemma_ascii_bytes(s: Seq<char>, n: nat)
    requires
        forall|i: int| 0 <= i < s.len() ==> (#[trigger] s[i] as u32) < 0x80,
    ensures
        byte_len(s) == s.len(),
        cuttable(s, n),
        head(s, n) == first_chars(s, n as int),
    decreases s.len(),
{
    lemma_ascii_len(s);
    if n < s.len() {
        let t = s.take(n as int);
        assert forall|i: int| 0 <= i < t.len() implies (#[trigger] t[i] as u32) < 0x80 by {
            assert(t[i] == s[i]);
        }
        lemma_ascii_len(t);
        lemma_chars_before(s, n);
        let k = chars_before(s, n);
        assert(k >= 0);
        let u = s.take(k);
        assert forall|i: int| 0 <= i < u.len() implies (#[trigger] u[i] as u32) < 0x80 by {
            assert(u[i] == s[i]);
        }
        lemma_ascii_len(u);
    } else {
        assert(first_chars(s, n as int) =~= s);
    }
}

proof fn lemma_ascii_len(s: Seq<char>)
    requires
        forall|i: int| 0 <= i < s.len() ==> (#[trigger] s[i] as u32) < 0x80,
    ensures
        byte_len(s) == s.len(),
    decreases s.len(),
{
    if s.len() > 0 {
        let w = s.drop_last();
        assert forall|i: int| 0 <= i < w.len() implies (#[trigger] w[i] as u32) < 0x80 by {
            assert(w[i] == s[i]);
        }
        lemma_ascii_len(w);
        assert((s[s.len() - 1] as u32) < 0x80);
    }
}

// ---- pieces ---------------------------------------------------------------

/// A text that may be missing.
pub open spec fn opt(s: Option<&str>) -> Option<Seq<char>> {
    match s {
        Some(s) => Some(s@),
        None => None,
    }
}

/// A text that may be missing.
pub open spec fn opt_string(s: Option<String>) -> Option<Seq<char>> {
    match s {
        Some(s) => Some(s@),
        None => None,
    }
}

/// The texts of a list of strings.
pub open spec fn texts(v: Seq<String>) -> Seq<Seq<char>> {
    v.map_values(|s: String| s@)
}

/// The texts of a list that grew by one string.
pub proof fn lemma_texts_push(v: Seq<String>, s: String)
    ensures
        texts(v.push(s)) == texts(v).push(s@),
{
    assert(texts(v.push(s)) =~= texts(v).push(s@));
}

/// Adds a text to a list.
pub fn say(out: &mut Vec<String>, line: String)
    ensures
        texts(final(out)@) == texts(old(out)@).push(line@),
{
    proof {
        lemma_texts_push(out@, line);
    }
    out.push(line);
}

/// The first `n` characters of `s`, or all of it where it is shorter.
pub open spec fn first_chars(s: Seq<char>, n: int) -> Seq<char> {
    if n < s.len() {
        s.take(n)
    } else {
        s
    }
}

/// The first `n` characters of `s`.
pub fn take_chars(s: &str, n: usize) -> (r: String)
    ensures
        r@ == first_chars(s@, n as int),
{
    let v = chars_of(s);
    let m: usize = if n < v.len() { n } else { v.len() };
    let r = string_of(&v, 0, m);
    assert(r@ =~= first_chars(s@, n as int));
    r
}

/// The pieces of `s` between the occurrences of `sep`: one more than there are
/// occurrences.
pub open spec fn pieces(s: Seq<char>, sep: char) -> Seq<Seq<char>>
    decreases s.len(),
{
    if s.len() == 0 {
        seq![Seq::empty()]
    } else {
        let before = pieces(s.drop_last(), sep);
        if s.last() == sep {
            before.push(Seq::empty())
        } else {
            before.drop_last().push(before.last().push(s.last()))
        }
    }
}

/// There is always a piece, and no piece holds the separator.
pub proof fn lemma_pieces(s: Seq<char>, sep: char)
    ensures
        pieces(s, sep).len() > 0,
        forall|i: int| 0 <= i < pieces(s, sep).len() ==> !(#[trigger] pieces(s, sep)[i]).contains(sep),
    decreases s.len(),
{
    if s.len() > 0 {
        lemma_pieces(s.drop_last(), sep);
        let before = pieces(s.drop_last(), sep);
        assert forall|i: int| 0 <= i < pieces(s, sep).len() implies !(#[trigger] pieces(
            s,
            sep,
        )[i]).contains(sep) by {
            if s.last() != sep && i == before.len() - 1 {
                assert(!before[i].contains(sep));
                let p = pieces(s, sep)[i];
                assert(p == before[i].push(s.last()));
                assert forall|k: int| 0 <= k < p.len() implies p[k] != sep by {
                    if k < before[i].len() {
                        assert(before[i].contains(before[i][k]));
                    }
                }
            } else if i < before.len() {
                assert(pieces(s, sep)[i] == before[i]);
            }
        }
    }
}

/// The pieces of `s` between the occurrences of `sep`.
pub fn split(s: &str, sep: char) -> (r: Vec<String>)
    ensures
        texts(r@) == pieces(s@, sep),
        r@.len() > 0,
{
    let v = chars_of(s);
    let mut r: Vec<String> = Vec::new();
    let mut cur = String::new();
    let mut i: usize = 0;
    proof {
        assert(v@.take(0) =~= Seq::empty());
        assert(texts(r@).push(cur@) =~= pieces(v@.take(0), sep));
    }
    while i < v.len()
        invariant
            i <= v@.len(),
            v@ == s@,
            texts(r@).push(cur@) == pieces(s@.take(i as int), sep),
        decreases v@.len() - i,
    {
        let c = v[i];
        let ghost before = texts(r@).push(cur@);
        assert(s@.take(i + 1).drop_last() =~= s@.take(i as int));
        assert(s@.take(i + 1).last() == c);
        if c == sep {
            proof {
                lemma_texts_push(r@, cur);
            }
            r.push(cur);
            cur = String::new();
        } else {
            assert(before.drop_last() =~= texts(r@));
            cur.push(c);
        }
        i = i + 1;
    }
    proof {
        assert(s@.take(i as int) =~= s@);
        lemma_texts_push(r@, cur);
    }
    r.push(cur);
    r
}

/// The words of `s`, and the unfinished word at its end: what a reader that
/// stops at the end of `s` has seen.
pub open spec fn word_scan(s: Seq<char>) -> (Seq<Seq<char>>, Seq<char>)
    decreases s.len(),
{
    if s.len() == 0 {
        (Seq::empty(), Seq::empty())
    } else {
        let (done, cur) = word_scan(s.drop_last());
        if !white(s.last()) {
            (done, cur.push(s.last()))
        } else if cur.len() > 0 {
            (done.push(cur), Seq::empty())
        } else {
            (done, cur)
        }
    }
}

/// The runs of visible characters in `s`, in order.
pub open spec fn words_of(s: Seq<char>) -> Seq<Seq<char>> {
    let (done, cur) = word_scan(s);
    if cur.len() > 0 {
        done.push(cur)
    } else {
        done
    }
}

/// A word is not empty and holds no whitespace.
pub open spec fn is_word(w: Seq<char>) -> bool {
    w.len() > 0 && forall|k: int| 0 <= k < w.len() ==> !white(#[trigger] w[k])
}

proof fn lemma_word_scan(s: Seq<char>)
    ensures
        forall|i: int| 0 <= i < word_scan(s).0.len() ==> is_word(#[trigger] word_scan(s).0[i]),
        word_scan(s).1.len() > 0 ==> is_word(word_scan(s).1),
    decreases s.len(),
{
    if s.len() > 0 {
        lemma_word_scan(s.drop_last());
        let (done, cur) = word_scan(s.drop_last());
        assert forall|i: int| 0 <= i < word_scan(s).0.len() implies is_word(
            #[trigger] word_scan(s).0[i],
        ) by {
            if i < done.len() {
                assert(is_word(done[i]));
            }
        }
    }
}

/// A word is never empty and holds no whitespace.
pub proof fn words_hold_no_space(s: Seq<char>)
    ensures
        forall|i: int| 0 <= i < words_of(s).len() ==> is_word(#[trigger] words_of(s)[i]),
{
    lemma_word_scan(s);
}

/// The runs of visible characters in `s`.
pub fn words(s: &str) -> (r: Vec<String>)
    ensures
        texts(r@) == words_of(s@),
{
    let v = chars_of(s);
    let mut r: Vec<String> = Vec::new();
    let mut cur = String::new();
    let mut i: usize = 0;
    proof {
        assert(v@.take(0) =~= Seq::empty());
        assert(texts(r@) =~= Seq::empty());
    }
    while i < v.len()
        invariant
            i <= v@.len(),
            v@ == s@,
            (texts(r@), cur@) == word_scan(s@.take(i as int)),
        decreases v@.len() - i,
    {
        let c = v[i];
        assert(s@.take(i + 1).drop_last() =~= s@.take(i as int));
        assert(s@.take(i + 1).last() == c);
        if !is_white(c) {
            cur.push(c);
        } else if !cur.as_str().is_empty() {
            proof {
                lemma_texts_push(r@, cur);
            }
            r.push(cur);
            cur = String::new();
        }
        i = i + 1;
    }
    assert(s@.take(i as int) =~= s@);
    if !cur.as_str().is_empty() {
        proof {
            lemma_texts_push(r@, cur);
        }
        r.push(cur);
    }
    r
}

/// `s` without one trailing `c`, where it has one.
pub open spec fn without_suffix(s: Seq<char>, c: char) -> Seq<char> {
    if s.len() > 0 && s.last() == c {
        s.drop_last()
    } else {
        s
    }
}

/// The lines of `s`: a line feed ends a line, a carriage return just before it
/// belongs to the line end, and text after the last line feed is a line of its
/// own.
pub open spec fn lines_of(s: Seq<char>) -> Seq<Seq<char>> {
    let p = pieces(s, '\n');
    let ended = p.drop_last().map_values(|l: Seq<char>| without_suffix(l, '\r'));
    if p.last().len() == 0 {
        ended
    } else {
        ended.push(p.last())
    }
}

/// The lines of `s`.
pub fn lines(s: &str) -> (r: Vec<String>)
    ensures
        texts(r@) == lines_of(s@),
{
    let p = split(s, '\n');
    let ghost all = pieces(s@, '\n');
    let mut r: Vec<String> = Vec::new();
    let n: usize = p.len() - 1;
    let mut i: usize = 0;
    while i < n
        invariant
            i <= n,
            n + 1 == p@.len(),
            all == pieces(s@, '\n'),
            texts(p@) == all,
            texts(r@) == all.take(i as int).map_values(|l: Seq<char>| without_suffix(l, '\r')),
        decreases n - i,
    {
        let v = chars_of(p[i].as_str());
        let m: usize = if v.len() > 0 && v[v.len() - 1] == '\r' { v.len() - 1 } else { v.len() };
        let l = string_of(&v, 0, m);
        proof {
            assert(all[i as int] == p@[i as int]@);
            assert(l@ =~= without_suffix(all[i as int], '\r'));
            lemma_texts_push(r@, l);
            assert(all.take(i + 1).map_values(|l: Seq<char>| without_suffix(l, '\r'))
                =~= all.take(i as int).map_values(|l: Seq<char>| without_suffix(l, '\r')).push(l@));
        }
        r.push(l);
        i = i + 1;
    }
    proof {
        assert(all.drop_last() =~= all.take(n as int));
        assert(all.last() == p@[n as int]@);
    }
    if !p[n].as_str().is_empty() {
        let l = p[n].clone();
        proof {
            lemma_texts_push(r@, l);
        }
        r.push(l);
    }
    r
}

/// The texts of `parts` with `sep` between them.
pub open spec fn joined(parts: Seq<Seq<char>>, sep: Seq<char>) -> Seq<char>
    decreases parts.len(),
{
    if parts.len() == 0 {
        Seq::empty()
    } else if parts.len() == 1 {
        parts[0]
    } else {
        joined(parts.drop_last(), sep) + sep + parts.last()
    }
}

/// The texts of `parts` with `sep` between them.
pub fn join(parts: &Vec<String>, sep: &str) -> (r: String)
    ensures
        r@ == joined(texts(parts@), sep@),
{
    let mut r = String::new();
    let mut i: usize = 0;
    let ghost all = texts(parts@);
    while i < parts.len()
        invariant
            i <= parts@.len(),
            all == texts(parts@),
            r@ == joined(all.take(i as int), sep@),
        decreases parts@.len() - i,
    {
        proof {
            assert(all.take(i + 1).drop_last() =~= all.take(i as int));
            assert(all.take(i + 1).last() == parts@[i as int]@);
        }
        if i > 0 {
            r.append(sep);
        }
        r.append(parts[i].as_str());
        assert(r@ =~= joined(all.take(i + 1), sep@));
        i = i + 1;
    }
    assert(all.take(i as int) =~= all);
    r
}

/// The pieces of a text that grows by one without a separator.
proof fn lemma_pieces_append(s: Seq<char>, t: Seq<char>, sep: char)
    requires
        !t.contains(sep),
    ensures
        pieces(s + t, sep) == pieces(s, sep).drop_last().push(pieces(s, sep).last() + t),
    decreases t.len(),
{
    lemma_pieces(s, sep);
    let p = pieces(s, sep);
    if t.len() == 0 {
        assert(s + t =~= s);
        assert(p.last() + t =~= p.last());
        assert(p =~= p.drop_last().push(p.last()));
    } else {
        let u = t.drop_last();
        assert(t.contains(t[t.len() - 1]));
        assert forall|i: int| 0 <= i < u.len() implies u[i] != sep by {
            assert(t.contains(t[i]));
        }
        lemma_pieces_append(s, u, sep);
        assert((s + t).drop_last() =~= s + u);
        assert((p.last() + u).push(t.last()) =~= p.last() + t);
        assert(p.drop_last().push(p.last() + u).drop_last() =~= p.drop_last());
    }
}

/// Texts that were joined come apart again.
pub proof fn pieces_undo_join(v: Seq<Seq<char>>, sep: char)
    requires
        v.len() > 0,
        forall|i: int| 0 <= i < v.len() ==> !(#[trigger] v[i]).contains(sep),
    ensures
        pieces(joined(v, seq![sep]), sep) == v,
    decreases v.len(),
{
    let none = Seq::<char>::empty();
    if v.len() == 1 {
        lemma_pieces_append(none, v[0], sep);
        assert(none + v[0] =~= v[0]);
        assert(pieces(none, sep) =~= seq![none]);
        assert(pieces(v[0], sep) =~= v);
    } else {
        let w = v.drop_last();
        assert forall|i: int| 0 <= i < w.len() implies !(#[trigger] w[i]).contains(sep) by {
            assert(w[i] == v[i]);
        }
        pieces_undo_join(w, sep);
        let before = joined(w, seq![sep]);
        let mid = before + seq![sep];
        assert(mid.drop_last() =~= before);
        assert(pieces(mid, sep) =~= w.push(none));
        assert(v[v.len() - 1] == v.last());
        lemma_pieces_append(mid, v.last(), sep);
        assert(w.push(none).drop_last() =~= w);
        assert(none + v.last() =~= v.last());
        assert(pieces(joined(v, seq![sep]), sep) =~= v);
    }
}

/// What stands behind the last separator is the last piece.
pub proof fn lemma_last_piece(before: Seq<char>, s: Seq<char>, sep: char)
    requires
        before.len() == 0 || before.last() == sep,
        !s.contains(sep),
    ensures
        pieces(before + s, sep).last() == s,
    decreases s.len(),
{
    let whole = before + s;
    if s.len() == 0 {
        assert(whole =~= before);
    } else {
        assert(s.contains(s.last()));
        assert(!s.drop_last().contains(sep)) by {
            if s.drop_last().contains(sep) {
                let i = choose|i: int| 0 <= i < s.len() - 1 && s.drop_last()[i] == sep;
                assert(s[i] == sep);
            }
        }
        lemma_last_piece(before, s.drop_last(), sep);
        assert(whole.drop_last() =~= before + s.drop_last());
        assert(s.drop_last().push(s.last()) =~= s);
    }
}

/// A text of two parts lacks what both lack.
pub proof fn lemma_lacks(a: Seq<char>, b: Seq<char>, c: char)
    requires
        !a.contains(c),
        !b.contains(c),
    ensures
        !(a + b).contains(c),
{
    if (a + b).contains(c) {
        let i = choose|i: int| 0 <= i < (a + b).len() && (a + b)[i] == c;
        if i < a.len() {
            assert(a[i] == c);
        } else {
            assert(b[i - a.len()] == c);
        }
    }
}

/// Joined texts lack what each of them and the text between them lack.
pub proof fn lemma_joined_lacks(v: Seq<Seq<char>>, sep: Seq<char>, c: char)
    requires
        forall|i: int| 0 <= i < v.len() ==> !(#[trigger] v[i]).contains(c),
        !sep.contains(c),
    ensures
        !joined(v, sep).contains(c),
    decreases v.len(),
{
    if v.len() > 1 {
        let w = v.drop_last();
        assert forall|i: int| 0 <= i < w.len() implies !(#[trigger] w[i]).contains(c) by {
            assert(w[i] == v[i]);
        }
        lemma_joined_lacks(w, sep, c);
        assert(v.last() == v[v.len() - 1]);
        lemma_lacks(joined(w, sep), sep, c);
        lemma_lacks(joined(w, sep) + sep, v.last(), c);
    } else if v.len() == 1 {
        assert(joined(v, sep) == v[0]);
    }
}

/// Lines that were written one after the other are read as they were written.
pub proof fn lines_read_back(v: Seq<Seq<char>>)
    requires
        v.len() > 0,
        forall|i: int|
            0 <= i < v.len() ==> !(#[trigger] v[i]).contains('\n') && without_suffix(v[i], '\r')
                == v[i],
    ensures
        lines_of(joined(v, seq!['\n']) + seq!['\n']) == v,
{
    pieces_undo_join(v, '\n');
    let body = joined(v, seq!['\n']);
    let s = body + seq!['\n'];
    assert(s.drop_last() =~= body);
    let p = pieces(s, '\n');
    assert(p =~= v.push(Seq::empty()));
    assert(p.drop_last() =~= v);
    assert(lines_of(s) =~= v);
}

/// A number in decimal is made of digits.
pub proof fn lemma_decimal_digits(n: nat)
    ensures
        decimal(n).len() > 0,
        forall|i: int| 0 <= i < decimal(n).len() ==> '0' <= #[trigger] decimal(n)[i] <= '9',
    decreases n,
{
    if n >= 10 {
        lemma_decimal_digits(n / 10);
    }
}

/// The digits of a number have its value.
pub proof fn lemma_decimal_value(n: nat)
    ensures
        digits_value(decimal(n)) == n,
    decreases n,
{
    if n < 10 {
        let d = decimal(n);
        assert(d.drop_last() =~= Seq::empty());
        assert(digits_value(Seq::<char>::empty()) == 0);
    } else {
        lemma_decimal_value(n / 10);
        let d = decimal(n);
        assert(d.drop_last() =~= decimal(n / 10));
    }
}

/// Every character of `s` replaced by what `f` makes of it.
pub open spec fn expanded(s: Seq<char>, f: spec_fn(char) -> Seq<char>) -> Seq<char>
    decreases s.len(),
{
    if s.len() == 0 {
        Seq::empty()
    } else {
        expanded(s.drop_last(), f) + f(s.last())
    }
}

/// Expanding two texts one after the other.
pub proof fn lemma_expanded_concat(a: Seq<char>, b: Seq<char>, f: spec_fn(char) -> Seq<char>)
    ensures
        expanded(a + b, f) == expanded(a, f) + expanded(b, f),
    decreases b.len(),
{
    if b.len() == 0 {
        assert(a + b =~= a);
        assert(expanded(a, f) + expanded(b, f) =~= expanded(a, f));
    } else {
        lemma_expanded_concat(a, b.drop_last(), f);
        assert((a + b).drop_last() =~= a + b.drop_last());
        assert((a + b).last() == b.last());
        assert(expanded(a + b, f) =~= expanded(a, f) + expanded(b, f));
    }
}

/// What putting `with` in the place of `c` makes of a character.
pub open spec fn substitution(c: char, with: Seq<char>) -> spec_fn(char) -> Seq<char> {
    |x: char|
        if x == c {
            with
        } else {
            seq![x]
        }
}

/// `s` with every `c` replaced by `with`.
pub open spec fn replaced(s: Seq<char>, c: char, with: Seq<char>) -> Seq<char> {
    expanded(s, substitution(c, with))
}

/// `s` with every `c` replaced by `with`.
pub fn replace_char(s: &str, c: char, with: &str) -> (r: String)
    ensures
        r@ == replaced(s@, c, with@),
{
    let v = chars_of(s);
    let mut r = String::new();
    let mut i: usize = 0;
    let ghost f = substitution(c, with@);
    assert(v@.take(0) =~= Seq::empty());
    while i < v.len()
        invariant
            i <= v@.len(),
            v@ == s@,
            f == substitution(c, with@),
            r@ == expanded(s@.take(i as int), f),
        decreases v@.len() - i,
    {
        let x = v[i];
        assert(s@.take(i + 1).drop_last() =~= s@.take(i as int));
        assert(s@.take(i + 1).last() == x);
        if x == c {
            r.append(with);
        } else {
            r.push(x);
        }
        assert(r@ =~= expanded(s@.take(i + 1), f));
        i = i + 1;
    }
    assert(s@.take(i as int) =~= s@);
    r
}

// ---- numbers --------------------------------------------------------------

/// The decimal digit of a value below ten.
pub open spec fn digit(d: int) -> char {
    ('0' as int + d) as char
}

/// A number in decimal, without leading zeros.
pub open spec fn decimal(n: nat) -> Seq<char>
    decreases n,
{
    if n < 10 {
        seq![digit(n as int)]
    } else {
        decimal(n / 10).push(digit((n % 10) as int))
    }
}

/// A signed number in decimal.
pub open spec fn signed_decimal(n: int) -> Seq<char> {
    if n < 0 {
        seq!['-'] + decimal((-n) as nat)
    } else {
        decimal(n as nat)
    }
}

/// The decimal digit of `d`.
pub fn digit_char(d: u64) -> (r: char)
    requires
        d < 10,
    ensures
        r == digit(d as int),
{
    (48u8 + d as u8) as char
}

/// `n` in decimal.
pub fn show_u64(n: u64) -> (r: String)
    ensures
        r@ == decimal(n as nat),
    decreases n,
{
    let mut r = if n < 10 {
        String::new()
    } else {
        show_u64(n / 10)
    };
    r.push(digit_char(n % 10));
    assert(r@ =~= decimal(n as nat));
    r
}

/// `n` in decimal.
pub fn show_usize(n: usize) -> (r: String)
    ensures
        r@ == decimal(n as nat),
{
    show_u64(n as u64)
}

/// `n` in decimal, with a sign where it is negative.
pub fn show_i64(n: i64) -> (r: String)
    ensures
        r@ == signed_decimal(n as int),
{
    if n < 0 {
        let mut r = String::new();
        r.push('-');
        let m: i128 = -(n as i128);
        r.append(show_u64(m as u64).as_str());
        assert(r@ =~= signed_decimal(n as int));
        r
    } else {
        show_u64(n as u64)
    }
}

/// Whether `c` is a decimal digit.
pub open spec fn is_digit(c: char) -> bool {
    '0' <= c <= '9'
}

/// The number that a row of decimal digits stands for.
pub open spec fn digits_value(s: Seq<char>) -> nat
    decreases s.len(),
{
    if s.len() == 0 {
        0
    } else {
        (digits_value(s.drop_last()) * 10 + (s.last() as int - '0' as int)) as nat
    }
}

/// The part of a number's text that must be digits: a plus sign may lead.
pub open spec fn unsigned_digits(s: Seq<char>) -> Seq<char> {
    if s.len() > 0 && s[0] == '+' {
        s.drop_first()
    } else {
        s
    }
}

/// The value of the text of an unsigned 64-bit number, or `None` where the text
/// is no such number or the number does not fit.
pub open spec fn parsed_u64(s: Seq<char>) -> Option<u64> {
    let d = unsigned_digits(s);
    if d.len() > 0 && (forall|i: int| 0 <= i < d.len() ==> is_digit(#[trigger] d[i]))
        && digits_value(d) <= u64::MAX {
        Some(digits_value(d) as u64)
    } else {
        None
    }
}

proof fn lemma_digits_value_grows(s: Seq<char>, k: int)
    requires
        0 <= k <= s.len(),
        forall|i: int| 0 <= i < s.len() ==> is_digit(#[trigger] s[i]),
    ensures
        digits_value(s.take(k)) <= digits_value(s),
    decreases s.len(),
{
    if k == s.len() {
        assert(s.take(k) =~= s);
    } else {
        lemma_digits_value_grows(s.drop_last(), k);
        assert(s.drop_last().take(k) =~= s.take(k));
        assert(is_digit(s[s.len() - 1]));
    }
}

/// Reads an unsigned 64-bit number.
pub fn parse_u64(s: &str) -> (r: Option<u64>)
    ensures
        r == parsed_u64(s@),
{
    let v = chars_of(s);
    let start: usize = if v.len() > 0 && v[0] == '+' { 1 } else { 0 };
    let ghost d = unsigned_digits(s@);
    assert(d =~= v@.skip(start as int));
    if v.len() == start {
        return None;
    }
    let mut n: u64 = 0;
    let mut i: usize = start;
    assert(d.take(0) =~= Seq::empty());
    while i < v.len()
        invariant
            start <= i <= v@.len(),
            v@ == s@,
            start < v@.len(),
            d == unsigned_digits(s@),
            d == v@.skip(start as int),
            forall|k: int| 0 <= k < i - start ==> is_digit(#[trigger] d[k]),
            n == digits_value(d.take(i - start)),
        decreases v@.len() - i,
    {
        let c = v[i];
        assert(d[i - start] == c);
        if c < '0' || '9' < c {
            assert(!is_digit(d[i - start]));
            return None;
        }
        let x: u64 = (c as u32 - '0' as u32) as u64;
        proof {
            assert(d.take(i - start + 1).drop_last() =~= d.take(i - start));
            assert(d.take(i - start + 1).last() == c);
            if forall|k: int| 0 <= k < d.len() ==> is_digit(#[trigger] d[k]) {
                lemma_digits_value_grows(d, i - start + 1);
            }
        }
        if n > (u64::MAX - x) / 10 {
            assert(n * 10 + x > u64::MAX) by (nonlinear_arith)
                requires
                    n > (u64::MAX - x) / 10,
                    x <= 9,
            ;
            return None;
        }
        assert(n * 10 + x <= u64::MAX) by (nonlinear_arith)
            requires
                n <= (u64::MAX - x) / 10,
                x <= 9,
        ;
        n = n * 10 + x;
        i = i + 1;
    }
    assert(d.take(i - start) =~= d);
    Some(n)
}

/// A number that is written is the number that is read.
pub proof fn numbers_read_back(n: u64)
    ensures
        parsed_u64(decimal(n as nat)) == Some(n),
{
    let d = decimal(n as nat);
    lemma_decimal_digits(n as nat);
    lemma_decimal_value(n as nat);
    assert(d[0] != '+');
    assert forall|i: int| 0 <= i < d.len() implies is_digit(#[trigger] d[i]) by {
        assert('0' <= d[i] <= '9');
    }
}

/// A hexadecimal digit in lower case.
pub open spec fn hex_digit(d: int) -> char {
    if d < 10 {
        ('0' as int + d) as char
    } else {
        ('a' as int + d - 10) as char
    }
}

/// The last `width` hexadecimal digits of `n`, in lower case.
pub open spec fn hexadecimal(n: nat, width: nat) -> Seq<char>
    decreases width,
{
    if width == 0 {
        Seq::empty()
    } else {
        hexadecimal(n / 16, (width - 1) as nat).push(hex_digit((n % 16) as int))
    }
}

/// Hexadecimal text has its width and holds hexadecimal digits only.
pub proof fn lemma_hexadecimal(n: nat, width: nat)
    ensures
        hexadecimal(n, width).len() == width,
        forall|i: int|
            0 <= i < width ==> ('0' <= #[trigger] hexadecimal(n, width)[i] <= '9' || 'a'
                <= hexadecimal(n, width)[i] <= 'f'),
    decreases width,
{
    if width > 0 {
        lemma_hexadecimal(n / 16, (width - 1) as nat);
        let h = hexadecimal(n / 16, (width - 1) as nat);
        assert forall|i: int| 0 <= i < width implies ('0' <= #[trigger] hexadecimal(n, width)[i]
            <= '9' || 'a' <= hexadecimal(n, width)[i] <= 'f') by {
            if i < width - 1 {
                assert(hexadecimal(n, width)[i] == h[i]);
            }
        }
    }
}

/// The hexadecimal digit of `d`.
pub fn hex_char(d: u64) -> (r: char)
    requires
        d < 16,
    ensures
        r == hex_digit(d as int),
{
    if d < 10 {
        (48u8 + d as u8) as char
    } else {
        (87u8 + d as u8) as char
    }
}

/// `n` in hexadecimal, `width` digits wide: zeros lead where it is shorter.
pub fn show_hex(n: u64, width: usize) -> (r: String)
    ensures
        r@ == hexadecimal(n as nat, width as nat),
    decreases width,
{
    if width == 0 {
        String::new()
    } else {
        let mut r = show_hex(n / 16, width - 1);
        r.push(hex_char(n % 16));
        r
    }
}

// ---- columns --------------------------------------------------------------

/// `n` spaces.
pub open spec fn spaces(n: nat) -> Seq<char> {
    Seq::new(n, |i: int| ' ')
}

/// `s`, filled up with spaces on the right to at least `width` characters.
pub open spec fn left_aligned(s: Seq<char>, width: int) -> Seq<char> {
    if s.len() < width {
        s + spaces((width - s.len()) as nat)
    } else {
        s
    }
}

/// `s`, filled up with spaces on the left to at least `width` characters.
pub open spec fn right_aligned(s: Seq<char>, width: int) -> Seq<char> {
    if s.len() < width {
        spaces((width - s.len()) as nat) + s
    } else {
        s
    }
}

/// `n` spaces.
pub fn blanks(n: usize) -> (r: String)
    ensures
        r@ == spaces(n as nat),
{
    let mut r = String::new();
    let mut i: usize = 0;
    while i < n
        invariant
            i <= n,
            r@ == spaces(i as nat),
        decreases n - i,
    {
        r.push(' ');
        i = i + 1;
        assert(r@ =~= spaces(i as nat));
    }
    r
}

/// `s`, filled up with spaces on the right to at least `width` characters.
pub fn align_left(s: &str, width: usize) -> (r: String)
    ensures
        r@ == left_aligned(s@, width as int),
{
    let n: usize = s.unicode_len();
    let mut r = String::from_str(s);
    if n < width {
        r.append(blanks(width - n).as_str());
    }
    r
}

/// `s`, filled up with spaces on the left to at least `width` characters.
pub fn align_right(s: &str, width: usize) -> (r: String)
    ensures
        r@ == right_aligned(s@, width as int),
{
    let n: usize = s.unicode_len();
    if n < width {
        let mut r = blanks(width - n);
        r.append(s);
        r
    } else {
        String::from_str(s)
    }
}

// ---- order ----------------------------------------------------------------

/// The order of texts: by their first difference, a text before its
/// continuations.
pub open spec fn before(a: Seq<char>, b: Seq<char>) -> bool
    decreases a.len(),
{
    if b.len() == 0 {
        false
    } else if a.len() == 0 {
        true
    } else if a[0] == b[0] {
        before(a.drop_first(), b.drop_first())
    } else {
        a[0] < b[0]
    }
}

/// No text stands before itself.
pub proof fn lemma_before_irreflexive(a: Seq<char>)
    ensures
        !before(a, a),
    decreases a.len(),
{
    if a.len() > 0 {
        lemma_before_irreflexive(a.drop_first());
    }
}

/// The order is transitive.
pub proof fn lemma_before_transitive(a: Seq<char>, b: Seq<char>, c: Seq<char>)
    requires
        before(a, b),
        before(b, c),
    ensures
        before(a, c),
    decreases a.len(),
{
    if a.len() > 0 && a[0] == b[0] && b[0] == c[0] {
        lemma_before_transitive(a.drop_first(), b.drop_first(), c.drop_first());
    }
}

/// Of two different texts one stands before the other.
pub proof fn lemma_before_total(a: Seq<char>, b: Seq<char>)
    ensures
        before(a, b) || a == b || before(b, a),
        !(before(a, b) && before(b, a)),
    decreases a.len(),
{
    if a.len() > 0 && b.len() > 0 && a[0] == b[0] {
        lemma_before_total(a.drop_first(), b.drop_first());
        if a.drop_first() == b.drop_first() {
            assert(a =~= seq![a[0]] + a.drop_first());
            assert(b =~= seq![b[0]] + b.drop_first());
        }
    } else if a.len() == 0 && b.len() == 0 {
        assert(a =~= b);
    }
}

/// Whether `a` stands before `b`.
pub fn is_before(a: &str, b: &str) -> (r: bool)
    ensures
        r == before(a@, b@),
{
    let v = chars_of(a);
    let w = chars_of(b);
    let mut i: usize = 0;
    assert(v@.skip(0) =~= v@);
    assert(w@.skip(0) =~= w@);
    while i < v.len() && i < w.len()
        invariant
            i <= v@.len(),
            i <= w@.len(),
            v@ == a@,
            w@ == b@,
            before(a@, b@) == before(v@.skip(i as int), w@.skip(i as int)),
        decreases v@.len() - i,
    {
        if v[i] != w[i] {
            return v[i] < w[i];
        }
        assert(v@.skip(i as int).drop_first() =~= v@.skip(i + 1));
        assert(w@.skip(i as int).drop_first() =~= w@.skip(i + 1));
        i = i + 1;
    }
    i < w.len()
}

// ---- letter case ----------------------------------------------------------

/// An ASCII letter in lower case; any other character as it is.
pub open spec fn ascii_lower(c: char) -> char {
    if 'A' <= c <= 'Z' {
        (c as int + 32) as char
    } else {
        c
    }
}

/// `s` with its ASCII letters in lower case.
pub open spec fn ascii_lowered(s: Seq<char>) -> Seq<char> {
    s.map_values(|c: char| ascii_lower(c))
}

/// `s` with its ASCII letters in lower case.
pub fn to_ascii_lower(s: &str) -> (r: String)
    ensures
        r@ == ascii_lowered(s@),
{
    let v = chars_of(s);
    let mut r = String::new();
    let mut i: usize = 0;
    while i < v.len()
        invariant
            i <= v@.len(),
            v@ == s@,
            r@ == ascii_lowered(s@.take(i as int)),
        decreases v@.len() - i,
    {
        let c = v[i];
        if 'A' <= c && c <= 'Z' {
            r.push((c as u8 + 32) as char);
        } else {
            r.push(c);
        }
        assert(r@ =~= ascii_lowered(s@.take(i + 1)));
        i = i + 1;
    }
    assert(s@.take(i as int) =~= s@);
    r
}

/// Texts are ordered by the first place where they differ, and a text that ends
/// there stands before those that go on.
pub proof fn first_difference_decides(a: Seq<char>, b: Seq<char>, k: int)
    requires
        0 <= k <= a.len(),
        k <= b.len(),
        forall|i: int| 0 <= i < k ==> #[trigger] a[i] == b[i],
    ensures
        k < a.len() && k < b.len() && a[k] != b[k] ==> (before(a, b) <==> a[k] < b[k]),
        k == a.len() ==> (before(a, b) <==> k < b.len()),
        k == b.len() ==> !before(a, b),
    decreases k,
{
    if k > 0 {
        assert(a[0] == b[0]);
        let (x, y) = (a.drop_first(), b.drop_first());
        assert forall|i: int| 0 <= i < k - 1 implies #[trigger] x[i] == y[i] by {
            assert(a[i + 1] == b[i + 1]);
        }
        first_difference_decides(x, y, k - 1);
    }
}

/// What stands before the first separator is the first piece.
pub proof fn lemma_first_piece(a: Seq<char>, rest: Seq<char>, sep: char)
    requires
        !a.contains(sep),
    ensures
        pieces(a, sep) == seq![a],
        pieces(a + seq![sep] + rest, sep).len() >= 2,
        pieces(a + seq![sep] + rest, sep)[0] == a,
    decreases a.len() + rest.len(),
{
    let whole = a + seq![sep] + rest;
    if rest.len() > 0 {
        lemma_first_piece(a, rest.drop_last(), sep);
        assert(whole.drop_last() =~= a + seq![sep] + rest.drop_last());
    } else {
        assert(whole.drop_last() =~= a);
        if a.len() > 0 {
            let w = a.drop_last();
            assert(!w.contains(sep)) by {
                if w.contains(sep) {
                    let i = choose|i: int| 0 <= i < w.len() && w[i] == sep;
                    assert(a[i] == sep);
                }
            }
            assert(a.contains(a.last())) by {
                assert(a[a.len() - 1] == a.last());
            }
            lemma_first_piece(w, rest, sep);
            assert(w.push(a.last()) =~= a);
            assert(pieces(w, sep).drop_last() =~= Seq::empty());
            assert(pieces(a, sep) =~= seq![a]);
        } else {
            assert(a =~= Seq::empty());
        }
    }
    if rest.len() > 0 {
        lemma_first_piece(a, Seq::empty(), sep);
    }
}

/// A text that is aligned is filled up with blanks to the width, on one side, and
/// never cut.
pub proof fn aligning_adds_blanks_only(s: Seq<char>, width: nat)
    ensures
        s.len() >= width ==> left_aligned(s, width as int) == s && right_aligned(s, width as int)
            == s,
        s.len() < width ==> ({
            let (l, r) = (left_aligned(s, width as int), right_aligned(s, width as int));
            let more = width - s.len();
            &&& l.len() == width && l.take(s.len() as int) == s
            &&& forall|i: int| s.len() <= i < width ==> #[trigger] l[i] == ' '
            &&& r.len() == width && r.skip(more) == s
            &&& forall|i: int| 0 <= i < more ==> #[trigger] r[i] == ' '
        }),
{
    if s.len() < width {
        let more = width - s.len();
        assert(left_aligned(s, width as int).take(s.len() as int) =~= s);
        assert(right_aligned(s, width as int).skip(more) =~= s);
    }
}

/// Replacing a character changes each place where it stands, and no other.
pub proof fn replacing_changes_one_character(s: Seq<char>, t: Seq<char>, c: char, with: Seq<char>)
    ensures
        !s.contains(c) ==> replaced(s, c, with) == s,
        replaced(s + seq![c] + t, c, with) == replaced(s, c, with) + with + replaced(t, c, with),
    decreases s.len(),
{
    let f = substitution(c, with);
    lemma_expanded_concat(s + seq![c], t, f);
    lemma_expanded_concat(s, seq![c], f);
    assert(expanded(seq![c], f) =~= with) by {
        assert(seq![c].drop_last() =~= Seq::empty());
        assert(expanded(Seq::empty(), f) =~= Seq::empty());
    }
    if !s.contains(c) {
        if s.len() > 0 {
            let w = s.drop_last();
            assert(!w.contains(c)) by {
                if w.contains(c) {
                    let i = choose|i: int| 0 <= i < w.len() && w[i] == c;
                    assert(s[i] == c);
                }
            }
            assert(s.last() != c) by {
                assert(s[s.len() - 1] == s.last());
            }
            replacing_changes_one_character(w, t, c, with);
            assert(replaced(s, c, with) =~= s);
        } else {
            assert(replaced(s, c, with) =~= s);
        }
    }
}

/// A signed number has a minus before its digits where it is negative, and its
/// digits alone where it is not.
pub proof fn negative_numbers_have_a_sign(n: nat)
    ensures
        signed_decimal(n as int) == decimal(n),
        n > 0 ==> signed_decimal(-(n as int)) == seq!['-'] + decimal(n),
{
}

/// What counts as whitespace: the ASCII blanks and the blanks of Unicode.
pub proof fn whitespace_is_that_of_unicode(c: char)
    ensures
        c == ' ' || c == '\t' || c == '\n' || c == '\r' ==> white(c),
        '!' <= c <= '~' ==> !white(c),
        white(c) <==> {
            let n = c as u32;
            n == 0x20 || 0x09 <= n <= 0x0d || n == 0x85 || n == 0xa0 || n == 0x1680 || 0x2000 <= n
                <= 0x200a || n == 0x2028 || n == 0x2029 || n == 0x202f || n == 0x205f || n == 0x3000
        },
{
}

} // verus!
