//! File paths as text.

use vstd::prelude::*;

use crate::text;

verus! {

/// The path of `name` under `dir`. An absolute name stands for itself.
pub open spec fn under(dir: Seq<char>, name: Seq<char>) -> Seq<char> {
    if name.len() > 0 && name[0] == '/' {
        name
    } else if dir.len() == 0 || dir.last() == '/' {
        dir + name
    } else {
        dir.push('/') + name
    }
}

/// The path of `name` under `dir`.
pub fn join(dir: &str, name: &str) -> (r: String)
    ensures
        r@ == under(dir@, name@),
{
    let n = text::chars_of(name);
    if n.len() > 0 && n[0] == '/' {
        return String::from_str(name);
    }
    let d = text::chars_of(dir);
    let mut r = String::from_str(dir);
    if d.len() > 0 && d[d.len() - 1] != '/' {
        r.push('/');
    }
    r.append(name);
    r
}

/// Where the extension of a file name begins: at its last dot, unless nothing
/// stands before that dot.
pub open spec fn is_last_dot(name: Seq<char>, i: int) -> bool {
    0 < i < name.len() && name[i] == '.' && forall|j: int| i < j < name.len() ==> name[j] != '.'
}

/// Whether a file name is split by a dot into a stem and an extension.
pub open spec fn has_extension(name: Seq<char>) -> bool {
    name != ".."@ && exists|i: int| is_last_dot(name, i)
}

/// The position of the last dot.
pub open spec fn last_dot(name: Seq<char>) -> int {
    choose|i: int| is_last_dot(name, i)
}

/// A file name without its extension.
pub open spec fn stem_of(name: Seq<char>) -> Seq<char> {
    if has_extension(name) {
        name.take(last_dot(name))
    } else {
        name
    }
}

/// Whether a file name has the extension `ext`.
pub open spec fn extension_is(name: Seq<char>, ext: Seq<char>) -> bool {
    has_extension(name) && name.skip(last_dot(name) + 1) == ext
}

/// The position of the last dot that splits a file name.
fn split_point(name: &str) -> (r: Option<usize>)
    ensures
        r is Some <==> has_extension(name@),
        r matches Some(i) ==> i < name@.len() && i == last_dot(name@),
{
    if text::same(name, "..") {
        return None;
    }
    let v = text::chars_of(name);
    let mut i: usize = v.len();
    while 1 < i
        invariant
            i <= v@.len(),
            v@ == name@,
            name@ != ".."@,
            forall|j: int| i <= j < v@.len() ==> v@[j] != '.',
        decreases i,
    {
        i = i - 1;
        if v[i] == '.' {
            assert(is_last_dot(name@, i as int));
            proof {
                let k = last_dot(name@);
                assert(is_last_dot(name@, k));
                assert(k == i);
            }
            return Some(i);
        }
    }
    None
}

/// A file name without its extension.
pub fn file_stem(name: &str) -> (r: String)
    ensures
        r@ == stem_of(name@),
{
    match split_point(name) {
        Some(i) => {
            let v = text::chars_of(name);
            let r = text::string_of(&v, 0, i);
            assert(r@ =~= name@.take(i as int));
            r
        },
        None => String::from_str(name),
    }
}

/// Whether a file name has the extension `ext`.
pub fn has_ext(name: &str, ext: &str) -> (r: bool)
    ensures
        r == extension_is(name@, ext@),
{
    match split_point(name) {
        Some(i) => {
            let v = text::chars_of(name);
            let n: usize = v.len();
            let tail = text::string_of(&v, i + 1, n);
            assert(tail@ =~= name@.skip(i + 1));
            text::same(tail.as_str(), ext)
        },
        None => false,
    }
}

// ---- laws -----------------------------------------------------------------

/// A file name is what stands before its last dot and the extension behind it; a
/// name that only begins with a dot, or has none, is all stem.
pub proof fn names_split_at_the_last_dot(stem: Seq<char>, ext: Seq<char>)
    requires
        !ext.contains('.'),
    ensures
        stem.len() > 0 && stem + seq!['.'] + ext != seq!['.', '.'] ==> stem_of(
            stem + seq!['.'] + ext,
        ) == stem && forall|e: Seq<char>| #[trigger]
            extension_is(stem + seq!['.'] + ext, e) <==> e == ext,
        stem_of(seq!['.'] + ext) == seq!['.'] + ext,
        stem_of(ext) == ext,
        forall|e: Seq<char>| !(#[trigger] extension_is(seq!['.'] + ext, e)),
        forall|e: Seq<char>| !(#[trigger] extension_is(ext, e)),
{
    reveal_strlit("..");
    assert(".."@ =~= seq!['.', '.']);
    let name = stem + seq!['.'] + ext;
    let at = stem.len() as int;
    if stem.len() > 0 && name != seq!['.', '.'] {
        assert(name[at] == '.');
        assert forall|j: int| at < j < name.len() implies name[j] != '.' by {
            assert(name[j] == ext[j - at - 1]);
        }
        assert(is_last_dot(name, at));
        let i = last_dot(name);
        assert(is_last_dot(name, i));
        assert(i == at) by {
            if i < at {
                assert(name[at] != '.');
            } else if at < i {
                assert(name[i] != '.');
            }
        }
        assert(name.take(at) =~= stem);
        assert(name.skip(at + 1) =~= ext);
    }
    let hidden = seq!['.'] + ext;
    if exists|i: int| is_last_dot(hidden, i) {
        let i = choose|i: int| is_last_dot(hidden, i);
        assert(hidden[i] == ext[i - 1]);
    }
    if exists|i: int| is_last_dot(ext, i) {
        let i = choose|i: int| is_last_dot(ext, i);
        assert(ext[i] == '.');
    }
}

/// A name goes under its directory, with one slash between them; one that begins
/// with a slash goes nowhere else.
pub proof fn names_go_under_their_directory(dir: Seq<char>, name: Seq<char>)
    ensures
        name.len() > 0 && name[0] == '/' ==> under(dir, name) == name,
        name.len() > 0 && name[0] != '/' && dir.len() > 0 && dir.last() != '/' ==> under(dir, name)
            == dir + seq!['/'] + name,
        name.len() > 0 && name[0] != '/' && dir.len() > 0 && dir.last() == '/' ==> under(dir, name)
            == dir + name,
        name.len() > 0 && dir.len() == 0 ==> under(dir, name) == name,
{
    assert(dir.push('/') =~= dir + seq!['/']);
    if dir.len() == 0 {
        assert(dir + name =~= name);
    }
}

} // verus!
