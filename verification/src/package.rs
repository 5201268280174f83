//! The names that the tools go by. What the package installs, and the directory
//! in which it keeps its files, is named after the first word of its own name.

use vstd::prelude::*;

use crate::text;

verus! {

/// The name of the package.
pub const NAME: &'static str = "claude_tools";

/// The word that the tools are named after.
pub open spec fn family() -> Seq<char> {
    text::first_chars(NAME@, 6)
}

/// That word with a capital letter.
pub open spec fn product() -> Seq<char> {
    "C"@ + family().skip(1)
}

/// A text with the word in it.
pub open spec fn named(head: Seq<char>, tail: Seq<char>) -> Seq<char> {
    head + family() + tail
}

/// A text with the word in it, with a capital letter.
pub open spec fn titled(head: Seq<char>, tail: Seq<char>) -> Seq<char> {
    head + product() + tail
}

/// What the word is made of: small letters, six of them.
pub proof fn lemma_family()
    ensures
        family().len() == 6,
        forall|i: int| 0 <= i < 6 ==> 'a' <= #[trigger] family()[i] <= 'z',
{
    reveal_strlit("claude_tools");
}

/// A text with the word in it.
pub fn name_in(head: &str, tail: &str) -> (r: String)
    ensures
        r@ == named(head@, tail@),
{
    let word = text::take_chars(NAME, 6);
    let mut r = String::from_str(head);
    r.append(word.as_str());
    r.append(tail);
    r
}

/// A text with the word in it, with a capital letter.
pub fn title_in(head: &str, tail: &str) -> (r: String)
    ensures
        r@ == titled(head@, tail@),
{
    proof {
        lemma_family();
    }
    let word = text::take_chars(NAME, 6);
    let letters = text::chars_of(word.as_str());
    let n: usize = letters.len();
    let rest = text::string_of(&letters, 1, n);
    assert(rest@ =~= family().skip(1));
    let mut r = String::from_str(head);
    r.append("C");
    r.append(rest.as_str());
    r.append(tail);
    assert(r@ =~= titled(head@, tail@));
    r
}

} // verus!
