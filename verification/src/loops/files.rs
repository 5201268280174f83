//! Where the state of loops is kept.

use vstd::prelude::*;

use crate::package;
use crate::paths;
use crate::text;

verus! {

/// The state directory: the one asked for, or the one in the home directory.
pub open spec fn state_root(
    asked: Option<Seq<char>>,
    home: Option<Seq<char>>,
) -> Option<Seq<char>> {
    match (asked, home) {
        (Some(dir), _) => Some(dir),
        (None, Some(home)) => Some(paths::under(home, package::named("."@, ""@))),
        (None, None) => None,
    }
}

/// The state directory; `None` where none was asked for and there is no home.
pub fn state_dir(asked: Option<&str>, home: Option<&str>) -> (r: Option<String>)
    ensures
        match r {
            Some(dir) => state_root(text::opt(asked), text::opt(home)) == Some(dir@),
            None => state_root(text::opt(asked), text::opt(home)) is None,
        },
{
    match asked {
        Some(dir) => Some(String::from_str(dir)),
        None => match home {
            Some(home) => Some(paths::join(home, package::name_in(".", "").as_str())),
            None => None,
        },
    }
}

/// Where paused loops are kept.
pub fn paused_path(dir: &str) -> (r: String)
    ensures
        r@ == paths::under(dir@, ".paused-loops.json"@),
{
    paths::join(dir, ".paused-loops.json")
}

/// Where the history of pauses and resumes is kept.
pub fn history_path(dir: &str) -> (r: String)
    ensures
        r@ == paths::under(dir@, "loop-history.jsonl"@),
{
    paths::join(dir, "loop-history.jsonl")
}

/// The lock for paused loops.
pub fn paused_lock(dir: &str) -> (r: String)
    ensures
        r@ == paths::under(dir@, ".paused-loops.lock"@),
{
    paths::join(dir, ".paused-loops.lock")
}

/// The lock for the history.
pub fn history_lock(dir: &str) -> (r: String)
    ensures
        r@ == paths::under(dir@, "loop-history.lock"@),
{
    paths::join(dir, "loop-history.lock")
}

/// The directory of all checkpoints.
pub open spec fn checkpoint_root(dir: Seq<char>) -> Seq<char> {
    paths::under(dir, ".loop-checkpoints"@)
}

/// The directory of all checkpoints.
pub fn loop_ckpt_root(dir: &str) -> (r: String)
    ensures
        r@ == checkpoint_root(dir@),
{
    paths::join(dir, ".loop-checkpoints")
}

/// Whether a label keeps this character.
pub open spec fn label_char(c: char) -> bool {
    ('a' <= c && c <= 'z') || ('A' <= c && c <= 'Z') || text::is_digit(c) || c == '.' || c == '_'
        || c == '-'
}

/// A label with an underscore in the place of each character it cannot keep.
pub open spec fn masked(label: Seq<char>) -> Seq<char> {
    Seq::new(
        label.len(),
        |i: int|
            if label_char(label[i]) {
                label[i]
            } else {
                '_'
            },
    )
}

/// The directory name of a label.
pub open spec fn safe_label(label: Seq<char>) -> Seq<char> {
    if masked(label).len() == 0 || masked(label) == "."@ || masked(label) == ".."@ {
        "loop"@
    } else {
        masked(label)
    }
}

/// Whether a text is the name of one entry of a directory.
pub open spec fn is_component(s: Seq<char>) -> bool {
    s.len() > 0 && !s.contains('/') && s != "."@ && s != ".."@
}

/// Whatever a label holds, its directory name is one component, so it can never
/// lead out of the checkpoint directory.
pub proof fn safe_label_is_component(label: Seq<char>)
    ensures
        is_component(safe_label(label)),
{
    reveal_strlit("loop");
    reveal_strlit(".");
    reveal_strlit("..");
    let s = safe_label(label);
    assert forall|i: int| 0 <= i < s.len() implies s[i] != '/' by {}
    assert("loop"@[0] == 'l');
    assert("."@[0] == '.');
}

/// Making a directory name of a directory name changes nothing.
pub proof fn safe_label_is_idempotent(label: Seq<char>)
    ensures
        safe_label(safe_label(label)) == safe_label(label),
{
    reveal_strlit("loop");
    reveal_strlit(".");
    reveal_strlit("..");
    let s = safe_label(label);
    assert(masked(s) =~= s);
    safe_label_is_component(label);
}

/// The directory name of a label.
pub fn sanitize_label(label: &str) -> (r: String)
    ensures
        r@ == safe_label(label@),
        is_component(r@),
{
    proof {
        safe_label_is_component(label@);
    }
    let v = text::chars_of(label);
    let mut r = String::new();
    let mut i: usize = 0;
    while i < v.len()
        invariant
            i <= v@.len(),
            v@ == label@,
            r@ == masked(label@).take(i as int),
        decreases v@.len() - i,
    {
        let c = v[i];
        if (c >= 'a' && c <= 'z') || (c >= 'A' && c <= 'Z') || (c >= '0' && c <= '9') || c == '.'
            || c == '_' || c == '-' {
            r.push(c);
        } else {
            r.push('_');
        }
        assert(r@ =~= masked(label@).take(i + 1));
        i = i + 1;
    }
    assert(masked(label@).take(i as int) =~= masked(label@));
    if v.len() == 0 || text::same(r.as_str(), ".") || text::same(r.as_str(), "..") {
        String::from_str("loop")
    } else {
        r
    }
}

/// The directory of one loop.
pub open spec fn label_root(dir: Seq<char>, label: Seq<char>) -> Seq<char> {
    paths::under(checkpoint_root(dir), safe_label(label))
}

/// The directory of one loop.
pub fn loop_label_dir(dir: &str, label: &str) -> (r: String)
    ensures
        r@ == label_root(dir@, label@),
{
    paths::join(loop_ckpt_root(dir).as_str(), sanitize_label(label).as_str())
}

/// The directory of a loop lies right in the checkpoint directory: its path is
/// the one of that directory, a slash, and one component.
pub proof fn label_dir_stays_inside(dir: Seq<char>, label: Seq<char>)
    ensures
        label_root(dir, label) == checkpoint_root(dir).push('/') + safe_label(label),
        is_component(safe_label(label)),
{
    safe_label_is_component(label);
    reveal_strlit(".loop-checkpoints");
    let s = safe_label(label);
    assert(s[0] != '/') by {
        assert(s.contains(s[0]));
    }
    assert(checkpoint_root(dir).last() == 's');
}

/// The marker that keeps a loop stopped.
pub fn disabled_path(dir: &str, label: &str) -> (r: String)
    ensures
        r@ == paths::under(label_root(dir@, label@), "DISABLED"@),
{
    paths::join(loop_label_dir(dir, label).as_str(), "DISABLED")
}

/// Where the sentinel keeps its settings.
pub fn sentinel_config_path(dir: &str) -> (r: String)
    ensures
        r@ == paths::under(dir@, ".sentinel.json"@),
{
    paths::join(dir, ".sentinel.json")
}

/// A label keeps the letters, digits, dots, dashes and underscores that it has,
/// each in its place, and has an underscore for every other character; one of
/// which nothing or only a step in the tree is left is called `loop`.
pub proof fn labels_keep_plain_characters(label: Seq<char>)
    ensures
        label.len() == 0 || label == "."@ || label == ".."@ ==> safe_label(label) == "loop"@,
        label.len() > 0 && label != "."@ && label != ".."@ ==> safe_label(label).len()
            == label.len() && forall|i: int|
            0 <= i < label.len() ==> #[trigger] safe_label(label)[i] == if 'a' <= label[i] <= 'z'
                || 'A' <= label[i] <= 'Z' || '0' <= label[i] <= '9' || label[i] == '.' || label[i]
                == '_' || label[i] == '-' {
                label[i]
            } else {
                '_'
            },
{
    reveal_strlit(".");
    reveal_strlit("..");
    let m = masked(label);
    assert(m.len() == label.len());
    assert("."@.len() == 1 && ".."@.len() == 2);
    if m == "."@ {
        assert(label.len() == 1);
        assert(m[0] == '.');
        assert(label[0] == '.');
        assert(label =~= "."@);
    }
    if m == ".."@ {
        assert(label.len() == 2);
        assert(m[0] == '.' && m[1] == '.');
        assert(label[0] == '.' && label[1] == '.');
        assert(label =~= ".."@);
    }
    if label == "."@ {
        assert(label[0] == '.');
        assert(m =~= "."@);
    }
    if label == ".."@ {
        assert(label[0] == '.' && label[1] == '.');
        assert(m =~= ".."@);
    }
}

/// The state is kept where it is asked for, whatever the home directory is.
pub proof fn asked_place_is_used(dir: Seq<char>, home: Option<Seq<char>>)
    ensures
        state_root(Some(dir), home) == Some(dir),
        state_root(None, home) is Some <==> home is Some,
{
}

} // verus!
