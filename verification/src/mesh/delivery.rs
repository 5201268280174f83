//! How far a message got, and how those that were stranded are swept up.

use vstd::prelude::*;

use crate::package;
use crate::text;

verus! {

// ---- posting --------------------------------------------------------------

/// How far a message got. One that is only on disk reaches no other machine.
#[derive(Clone, Copy, Debug, PartialEq, Eq, Structural)]
pub enum Delivery {
    OnDiskOnly,
    Committed,
    Pushed,
}

/// What is said of a delivery.
pub open spec fn status_text(d: Delivery) -> Seq<char> {
    match d {
        Delivery::OnDiskOnly => package::named(
            "readable on this host but NOT committed — run: "@,
            "-mesh sync"@,
        ),
        Delivery::Committed => package::named(
            "committed locally, not pushed — run: "@,
            "-mesh sync"@,
        ),
        Delivery::Pushed => "pushed"@,
    }
}

/// What is said of a delivery.
pub fn delivery_status(d: Delivery) -> (r: String)
    ensures
        r@ == status_text(d),
{
    match d {
        Delivery::OnDiskOnly => package::name_in(
            "readable on this host but NOT committed — run: ",
            "-mesh sync",
        ),
        Delivery::Committed => package::name_in(
            "committed locally, not pushed — run: ",
            "-mesh sync",
        ),
        Delivery::Pushed => String::from_str("pushed"),
    }
}

/// How far git took a message.
pub open spec fn delivered(added: bool, committed: bool, pushed: bool) -> Delivery {
    if !added || !committed {
        Delivery::OnDiskOnly
    } else if pushed {
        Delivery::Pushed
    } else {
        Delivery::Committed
    }
}

/// What is to be done for a message that is on disk.
#[derive(Clone, Copy, Debug, PartialEq, Eq, Structural)]
pub enum Step {
    Add,
    Commit,
    /// Take in what others pushed, then push.
    Push,
    Done(Delivery),
}

/// The first step for a message that is on disk.
pub fn first_step(local: bool) -> (r: Step)
    ensures
        r == (if local {
            Step::Done(Delivery::OnDiskOnly)
        } else {
            Step::Add
        }),
{
    if local {
        Step::Done(Delivery::OnDiskOnly)
    } else {
        Step::Add
    }
}

/// The step after one that went well or not.
pub open spec fn step_after(step: Step, ok: bool) -> Step {
    match step {
        Step::Add => if ok {
            Step::Commit
        } else {
            Step::Done(Delivery::OnDiskOnly)
        },
        Step::Commit => if ok {
            Step::Push
        } else {
            Step::Done(Delivery::OnDiskOnly)
        },
        Step::Push => Step::Done(
            if ok {
                Delivery::Pushed
            } else {
                Delivery::Committed
            },
        ),
        Step::Done(d) => Step::Done(d),
    }
}

/// The step after one that went well or not. Trouble with git is no failure of
/// the message: it is on disk.
pub fn next_step(step: Step, ok: bool) -> (r: Step)
    ensures
        r == step_after(step, ok),
{
    match step {
        Step::Add => if ok {
            Step::Commit
        } else {
            Step::Done(Delivery::OnDiskOnly)
        },
        Step::Commit => if ok {
            Step::Push
        } else {
            Step::Done(Delivery::OnDiskOnly)
        },
        Step::Push => if ok {
            Step::Done(Delivery::Pushed)
        } else {
            Step::Done(Delivery::Committed)
        },
        Step::Done(d) => Step::Done(d),
    }
}

/// A delivery never claims more than what went well, and ends after three steps.
pub proof fn delivery_claims_no_more_than_happened(added: bool, committed: bool, pushed: bool)
    ensures
        step_after(step_after(step_after(Step::Add, added), committed), pushed) == Step::Done(
            delivered(added, committed, pushed),
        ),
{
}

/// What is said of a message that did not reach git differs from what is said of
/// one that did, and names the way out.
pub proof fn stranded_messages_say_so(d: Delivery)
    ensures
        d != Delivery::Pushed ==> text::has_text(status_text(d), package::named(
            "run: "@,
            "-mesh sync"@,
        )),
        text::has_text(status_text(d), "NOT committed"@) <==> d == Delivery::OnDiskOnly,
{
    package::lemma_family();
    reveal_strlit("readable on this host but NOT committed — run: ");
    reveal_strlit("committed locally, not pushed — run: ");
    reveal_strlit("-mesh sync");
    reveal_strlit("pushed");
    reveal_strlit("run: ");
    reveal_strlit("NOT committed");
    let a = status_text(Delivery::OnDiskOnly);
    let b = status_text(Delivery::Committed);
    let c = status_text(Delivery::Pushed);
    assert(a.subrange(42, 63) =~= package::named("run: "@, "-mesh sync"@));
    assert(text::is_at(a, 42, package::named("run: "@, "-mesh sync"@)));
    assert(a.subrange(26, 39) =~= "NOT committed"@);
    assert(text::is_at(a, 26, "NOT committed"@));
    assert(b.subrange(32, 53) =~= package::named("run: "@, "-mesh sync"@));
    assert(text::is_at(b, 32, package::named("run: "@, "-mesh sync"@)));
    assert forall|i: int| !text::is_at(b, i, "NOT committed"@) by {
        if text::is_at(b, i, "NOT committed"@) {
            assert(b.subrange(i, i + 13)[0] == 'N');
            assert(b[i] == 'N');
        }
    }
    assert forall|i: int| !text::is_at(c, i, "NOT committed"@) by {}
}

/// The line that says what became of a post.
pub fn post_report(id: &str, to: &str, local: bool, d: Delivery) -> (r: String)
    requires
        text::chars_before(id@, 8) >= 0,
    ensures
        r@ == "posted "@ + text::head(id@, 8) + " -> "@ + to@ + (if local {
            " (local only)"@
        } else {
            " ("@ + status_text(d) + ")"@
        }),
{
    let mut r = String::from_str("posted ");
    r.append(text::byte_head(id, 8).as_str());
    r.append(" -> ");
    r.append(to);
    let mut how = String::from_str(" (local only)");
    if !local {
        how = String::from_str(" (");
        how.append(delivery_status(d).as_str());
        how.append(")");
    }
    r.append(how.as_str());
    r
}

// ---- sweeping -------------------------------------------------------------

/// Whether a path is mesh data that this node may commit: a message of anyone,
/// or its own record.
pub open spec fn is_ours(p: Seq<char>, me: Seq<char>) -> bool {
    ||| text::begins(p, "bus/"@) && text::ends(p, ".json"@)
    ||| p == "nodes/"@ + me + ".json"@
    ||| p == "nodes/"@ + me + ".status"@
}

/// The path on a status line: what follows its two marks and a space.
pub open spec fn path_on(line: Seq<char>) -> Seq<char> {
    text::trimmed(line.skip(text::chars_before(line, 3)))
}

/// Whether a status line speaks of a rename.
pub open spec fn is_rename(line: Seq<char>) -> bool {
    text::begins(line, "R"@) || line.take(text::chars_before(line, 2)).contains('R')
}

/// Whether a status line names mesh data to commit. Renames and quoted paths are
/// left to a person.
pub open spec fn is_pending(line: Seq<char>, me: Seq<char>) -> bool {
    &&& text::byte_len(line) > 3
    &&& !is_rename(line)
    &&& !text::begins(path_on(line), "\""@)
    &&& !text::has_text(path_on(line), " -> "@)
    &&& is_ours(path_on(line), me)
}

/// Whether the marks of a status line are two single bytes and a third before
/// the path.
pub open spec fn is_regular(line: Seq<char>) -> bool {
    text::byte_len(line) > 3 && !text::begins(line, "R"@) ==> text::chars_before(line, 2) >= 0 && (
    !is_rename(line) ==> text::chars_before(line, 3) >= 0)
}

/// The paths that status lines name as mesh data to commit, in their order.
pub open spec fn pending(lines: Seq<Seq<char>>, me: Seq<char>) -> Seq<Seq<char>>
    decreases lines.len(),
{
    if lines.len() == 0 {
        Seq::empty()
    } else if is_pending(lines.last(), me) {
        pending(lines.drop_last(), me).push(path_on(lines.last()))
    } else {
        pending(lines.drop_last(), me)
    }
}

/// The path of a file of this node.
fn own_path(me: &str, tail: &str) -> (r: String)
    ensures
        r@ == "nodes/"@ + me@ + tail@,
{
    let mut r = String::from_str("nodes/");
    r.append(me);
    r.append(tail);
    r
}

/// Whether a path is mesh data that this node may commit.
fn may_commit(p: &str, me: &str) -> (r: bool)
    ensures
        r == is_ours(p@, me@),
{
    (text::starts_with(p, "bus/") && text::ends_with(p, ".json")) || text::same(
        p,
        own_path(me, ".json").as_str(),
    ) || text::same(p, own_path(me, ".status").as_str())
}

/// The path that a status line names as mesh data to commit.
fn pending_path(line: &str, me: &str) -> (r: Option<String>)
    requires
        is_regular(line@),
    ensures
        r is Some <==> is_pending(line@, me@),
        r matches Some(p) ==> p@ == path_on(line@),
{
    if text::size(line) <= 3 || text::starts_with(line, "R") {
        return None;
    }
    let v = text::chars_of(line);
    let n: usize = v.len();
    let marks: usize = match text::count_before(line, 2) {
        Some(k) => k,
        None => return None,
    };
    let head = text::string_of(&v, 0, marks);
    assert(head@ =~= line@.take(marks as int));
    if text::contains_char(head.as_str(), 'R') {
        return None;
    }
    let start: usize = match text::count_before(line, 3) {
        Some(k) => k,
        None => return None,
    };
    let rest = text::string_of(&v, start, n);
    assert(rest@ =~= line@.skip(start as int));
    let p = text::trim(rest.as_str());
    if !text::starts_with(p.as_str(), "\"") && !text::contains(p.as_str(), " -> ") && may_commit(
        p.as_str(),
        me,
    ) {
        Some(p)
    } else {
        None
    }
}

/// Whether the marks of every status line can be told from its path.
pub fn regular_status(porcelain: &str) -> (r: bool)
    ensures
        r == forall|i: int|
            0 <= i < text::lines_of(porcelain@).len() ==> is_regular(
                #[trigger] text::lines_of(porcelain@)[i],
            ),
{
    let lines = text::lines(porcelain);
    let ghost all = text::lines_of(porcelain@);
    let mut i: usize = 0;
    while i < lines.len()
        invariant
            i <= lines@.len(),
            all == text::lines_of(porcelain@),
            text::texts(lines@) == all,
            forall|k: int| 0 <= k < i ==> is_regular(#[trigger] all[k]),
        decreases lines@.len() - i,
    {
        let line = lines[i].as_str();
        assert(all[i as int] == line@);
        if text::size(line) > 3 && !text::starts_with(line, "R") {
            match text::count_before(line, 2) {
                Some(k) => {
                    let v = text::chars_of(line);
                    let head = text::string_of(&v, 0, k);
                    assert(head@ =~= line@.take(k as int));
                    if !text::contains_char(head.as_str(), 'R') && text::count_before(
                        line,
                        3,
                    ).is_none() {
                        assert(!is_regular(all[i as int]));
                        return false;
                    }
                },
                None => {
                    assert(!is_regular(all[i as int]));
                    return false;
                },
            }
        }
        assert(is_regular(all[i as int]));
        i = i + 1;
    }
    true
}

/// The paths of mesh data that git reports as not committed, where
/// `my_node_file` is the file name of this node.
pub fn pending_mesh_paths(porcelain: &str, my_node_file: &str) -> (r: Vec<String>)
    requires
        forall|i: int|
            0 <= i < text::lines_of(porcelain@).len() ==> is_regular(
                #[trigger] text::lines_of(porcelain@)[i],
            ),
    ensures
        text::texts(r@) == pending(text::lines_of(porcelain@), my_node_file@),
{
    let lines = text::lines(porcelain);
    let ghost all = text::lines_of(porcelain@);
    let mut out: Vec<String> = Vec::new();
    let mut i: usize = 0;
    assert(all.take(0) =~= Seq::empty());
    assert(text::texts(out@) =~= Seq::empty());
    while i < lines.len()
        invariant
            i <= lines@.len(),
            all == text::lines_of(porcelain@),
            text::texts(lines@) == all,
            forall|k: int| 0 <= k < all.len() ==> is_regular(#[trigger] all[k]),
            text::texts(out@) == pending(all.take(i as int), my_node_file@),
        decreases lines@.len() - i,
    {
        proof {
            assert(all.take(i + 1).drop_last() =~= all.take(i as int));
            assert(all.take(i + 1).last() == all[i as int]);
            assert(all[i as int] == lines@[i as int]@);
        }
        match pending_path(lines[i].as_str(), my_node_file) {
            Some(p) => {
                proof {
                    text::lemma_texts_push(out@, p);
                }
                out.push(p);
            },
            None => {},
        }
        i = i + 1;
    }
    assert(all.take(i as int) =~= all);
    out
}

/// Nothing but mesh data is ever swept up, whatever else is in the repository.
pub proof fn sweep_takes_only_mesh_data(lines: Seq<Seq<char>>, me: Seq<char>, i: int)
    requires
        0 <= i < pending(lines, me).len(),
    ensures
        is_ours(pending(lines, me)[i], me),
    decreases lines.len(),
{
    let before = pending(lines.drop_last(), me);
    if i < before.len() {
        sweep_takes_only_mesh_data(lines.drop_last(), me, i);
    }
}

proof fn lemma_not_ours(me: Seq<char>, other: Seq<char>)
    requires
        other != me,
    ensures
        !is_ours("nodes/"@ + other + ".json"@, me),
        !is_ours("nodes/"@ + other + ".status"@, me),
{
    reveal_strlit("bus/");
    reveal_strlit("nodes/");
    reveal_strlit(".json");
    reveal_strlit(".status");
    let head = "nodes/"@;
    let a = head + other + ".json"@;
    let b = head + other + ".status"@;
    let x = head + me + ".json"@;
    let y = head + me + ".status"@;
    let h = head.len() as int;
    if text::begins(a, "bus/"@) {
        assert(a.subrange(0, 4)[0] == a[0]);
    }
    if text::begins(b, "bus/"@) {
        assert(b.subrange(0, 4)[0] == b[0]);
    }
    assert(other =~= a.subrange(h, a.len() - 5));
    assert(me =~= x.subrange(h, x.len() - 5));
    assert(other =~= b.subrange(h, b.len() - 7));
    assert(me =~= y.subrange(h, y.len() - 7));
    assert(a.last() == 'n' && x.last() == 'n');
    assert(b.last() == 's' && y.last() == 's');
}

/// The record and the presence of a peer are the peer's to commit, however its
/// name begins: they are never swept up.
pub proof fn sweep_spares_peers(lines: Seq<Seq<char>>, me: Seq<char>, other: Seq<char>)
    requires
        other != me,
    ensures
        !pending(lines, me).contains("nodes/"@ + other + ".json"@),
        !pending(lines, me).contains("nodes/"@ + other + ".status"@),
{
    lemma_not_ours(me, other);
    let r = pending(lines, me);
    let a = "nodes/"@ + other + ".json"@;
    let b = "nodes/"@ + other + ".status"@;
    if r.contains(a) {
        let i = choose|i: int| 0 <= i < r.len() && r[i] == a;
        sweep_takes_only_mesh_data(lines, me, i);
    }
    if r.contains(b) {
        let i = choose|i: int| 0 <= i < r.len() && r[i] == b;
        sweep_takes_only_mesh_data(lines, me, i);
    }
}

proof fn lemma_pending_is_swept(lines: Seq<Seq<char>>, me: Seq<char>, k: int)
    requires
        0 <= k < lines.len(),
        is_pending(lines[k], me),
    ensures
        pending(lines, me).contains(path_on(lines[k])),
    decreases lines.len(),
{
    let w = lines.drop_last();
    let r = pending(lines, me);
    if k < w.len() {
        assert(w[k] == lines[k]);
        lemma_pending_is_swept(w, me, k);
        let j = choose|j: int| 0 <= j < pending(w, me).len() && pending(w, me)[j] == path_on(lines[k]);
        assert(r[j] == path_on(lines[k]));
    } else {
        assert(r[r.len() - 1] == path_on(lines[k]));
    }
}

/// A message of any node that git does not track yet is swept up, whoever sweeps:
/// the status names it behind two question marks and a space.
pub proof fn stranded_message_is_swept(
    lines: Seq<Seq<char>>,
    me: Seq<char>,
    k: int,
    path: Seq<char>,
)
    requires
        0 <= k < lines.len(),
        lines[k] == "?? "@ + path,
        text::begins(path, "bus/"@),
        text::ends(path, ".json"@),
        !text::has_text(path, " -> "@),
    ensures
        pending(lines, me).contains(path),
{
    reveal_strlit("?? ");
    reveal_strlit("bus/");
    reveal_strlit(".json");
    reveal_strlit("\"");
    reveal_strlit("R");
    let line = lines[k];
    assert(path[0] == "bus/"@[0]);
    assert(path.last() == ".json"@.last());
    text::lemma_chars_before_ascii("?? "@, path, 2);
    text::lemma_chars_before_ascii("?? "@, path, 3);
    assert(line.skip(3) =~= path);
    assert(text::trimmed(path) == path);
    assert(path_on(line) == path);
    assert(line.take(2) =~= seq!['?', '?']);
    assert(!is_rename(line));
    lemma_pending_is_swept(lines, me, k);
}

/// The last line of a text, cut to what a report has room for.
pub open spec fn last_words(s: Seq<char>) -> Seq<char> {
    let lines = text::lines_of(s);
    text::first_chars(
        if lines.len() > 0 {
            lines.last()
        } else {
            s
        },
        160,
    )
}

/// The last line of a text, cut to what a report has room for.
pub fn first_line(s: &str) -> (r: String)
    ensures
        r@ == last_words(s@),
{
    let lines = text::lines(s);
    if lines.len() > 0 {
        let last: usize = lines.len() - 1;
        assert(text::lines_of(s@).last() == lines@[last as int]@);
        text::take_chars(lines[last].as_str(), 160)
    } else {
        text::take_chars(s, 160)
    }
}

/// How many lines of a list are not blank.
pub open spec fn filled(lines: Seq<Seq<char>>) -> nat
    decreases lines.len(),
{
    if lines.len() == 0 {
        0
    } else {
        filled(lines.drop_last()) + (if text::trimmed(lines.last()).len() > 0 {
            1nat
        } else {
            0
        })
    }
}

/// How many lines of a text are not blank.
pub fn count_filled(s: &str) -> (r: usize)
    ensures
        r == filled(text::lines_of(s@)),
{
    let lines = text::lines(s);
    let ghost all = text::lines_of(s@);
    let mut n: usize = 0;
    let mut i: usize = 0;
    assert(all.take(0) =~= Seq::empty());
    while i < lines.len()
        invariant
            i <= lines.len(),
            n <= i,
            text::texts(lines@) == all,
            n == filled(all.take(i as int)),
        decreases lines@.len() - i,
    {
        proof {
            assert(all.take(i + 1).drop_last() =~= all.take(i as int));
            assert(all.take(i + 1).last() == lines@[i as int]@);
        }
        if !text::is_blank(lines[i].as_str()) {
            n = n + 1;
        }
        i = i + 1;
    }
    assert(all.take(i as int) =~= all);
    n
}

/// The message of the commit that sweeps files up.
pub fn sweep_message(added: usize) -> (r: String)
    ensures
        r@ == "mesh: sweep "@ + text::decimal(added as nat) + " uncommitted file(s)"@,
{
    let mut r = String::from_str("mesh: sweep ");
    r.append(text::show_usize(added).as_str());
    r.append(" uncommitted file(s)");
    r
}

/// The line that says what a sync did. A push that failed says why, and how many
/// commits are unsent where that could be told.
pub open spec fn sync_text(
    pulled: bool,
    swept: nat,
    push_error: Option<Seq<char>>,
    unsent: Option<nat>,
) -> Seq<char> {
    "sync: pull "@ + (if pulled {
        "ok"@
    } else {
        "skip"@
    }) + " · swept "@ + text::decimal(swept) + " · push "@ + (match push_error {
        None => "ok"@,
        Some(e) => "FAILED"@ + (match unsent {
            Some(n) => " ("@ + text::decimal(n) + " local commit(s) still unsent) — "@
                + last_words(e),
            None => " (no upstream branch) — "@ + last_words(e),
        }),
    })
}

/// The line that says what a sync did. `unsent` is what git lists as not pushed.
pub fn sync_report(
    pulled: bool,
    added: usize,
    committed: bool,
    push_error: Option<&str>,
    unsent: Option<&str>,
) -> (r: String)
    ensures
        r@ == sync_text(
            pulled,
            if added > 0 && committed {
                added as nat
            } else {
                0
            },
            text::opt(push_error),
            match unsent {
                Some(s) => Some(filled(text::lines_of(s@))),
                None => None,
            },
        ),
{
    let swept: usize = if added > 0 && committed {
        added
    } else {
        0
    };
    let mut push = String::from_str("ok");
    match push_error {
        Some(e) => {
            let mut detail = String::from_str(" (no upstream branch) — ");
            match unsent {
                Some(s) => {
                    detail = String::from_str(" (");
                    detail.append(text::show_usize(count_filled(s)).as_str());
                    detail.append(" local commit(s) still unsent) — ");
                },
                None => {},
            }
            detail.append(first_line(e).as_str());
            push = String::from_str("FAILED");
            push.append(detail.as_str());
        },
        None => {},
    }
    let mut r = String::from_str("sync: pull ");
    r.append(
        if pulled {
            "ok"
        } else {
            "skip"
        },
    );
    r.append(" · swept ");
    r.append(text::show_usize(swept).as_str());
    r.append(" · push ");
    r.append(push.as_str());
    r
}

// ---- laws -----------------------------------------------------------------

/// A message is said to be pushed only where it was added, committed and pushed;
/// committed where it was added and committed and no more; and else to be on this
/// disk alone.
pub proof fn delivery_says_how_far_it_got(added: bool, committed: bool, pushed: bool)
    ensures
        delivered(added, committed, pushed) == Delivery::Pushed <==> added && committed && pushed,
        delivered(added, committed, pushed) == Delivery::Committed <==> added && committed
            && !pushed,
        delivered(added, committed, pushed) == Delivery::OnDiskOnly <==> !added || !committed,
{
}

/// What is swept up is a message on the bus, or the record or the presence of
/// this node itself.
pub proof fn sweep_takes_messages_and_own_records(lines: Seq<Seq<char>>, me: Seq<char>, i: int)
    requires
        0 <= i < pending(lines, me).len(),
    ensures
        ({
            let p = pending(lines, me)[i];
            ||| p == "nodes/"@ + me + ".json"@
            ||| p == "nodes/"@ + me + ".status"@
            ||| p.len() >= 5 && p.take(4) == "bus/"@ && p.skip(p.len() - 5) == ".json"@
        }),
{
    reveal_strlit("bus/");
    reveal_strlit(".json");
    sweep_takes_only_mesh_data(lines, me, i);
    let p = pending(lines, me)[i];
    if p != "nodes/"@ + me + ".json"@ && p != "nodes/"@ + me + ".status"@ {
        assert(p.take(4) =~= p.subrange(0, 4));
        assert(p.skip(p.len() - 5) =~= p.subrange(p.len() - 5, p.len() as int));
    }
}

/// Mesh data that git calls changed in any way but a rename is swept up, each
/// path once for each line that names it.
pub proof fn changed_mesh_data_is_swept(
    lines: Seq<Seq<char>>,
    me: Seq<char>,
    k: int,
    marks: Seq<char>,
    path: Seq<char>,
)
    requires
        0 <= k < lines.len(),
        lines[k] == marks + path,
        marks.len() == 3,
        vstd::utf8::is_ascii_chars(marks),
        marks[0] != 'R' && marks[1] != 'R',
        text::trimmed(path) == path,
        !text::has_text(path, " -> "@),
        path == "nodes/"@ + me + ".json"@ || path == "nodes/"@ + me + ".status"@ || text::begins(
            path,
            "bus/"@,
        ) && text::ends(path, ".json"@),
    ensures
        pending(lines, me).contains(path),
{
    reveal_strlit("bus/");
    reveal_strlit("nodes/");
    reveal_strlit("\"");
    reveal_strlit("R");
    let line = lines[k];
    if text::begins(path, "bus/"@) {
        assert(path.subrange(0, 4)[0] == path[0]);
    }
    assert(path[0] == 'n' || path[0] == 'b');
    text::lemma_chars_before_ascii(marks, path, 2);
    text::lemma_chars_before_ascii(marks, path, 3);
    assert(line.skip(3) =~= path);
    assert(path_on(line) == path);
    assert(line.take(2) =~= seq![marks[0], marks[1]]);
    assert(!is_rename(line)) by {
        if text::begins(line, "R"@) {
            assert(line.subrange(0, 1)[0] == line[0]);
        }
        if line.take(2).contains('R') {
            let j = choose|j: int| 0 <= j < line.take(2).len() && line.take(2)[j] == 'R';
            assert(line[j] == marks[j]);
        }
    }
    assert(!text::begins(path, "\""@)) by {
        if text::begins(path, "\""@) {
            assert(path.subrange(0, 1)[0] == path[0]);
        }
    }
    lemma_pending_is_swept(lines, me, k);
}

/// A rename is left to a person, whatever it names.
pub proof fn renames_are_not_swept(marks: Seq<char>, rest: Seq<char>, me: Seq<char>)
    requires
        marks.len() == 3,
        vstd::utf8::is_ascii_chars(marks),
        marks[0] == 'R' || marks[1] == 'R',
    ensures
        !is_pending(marks + rest, me),
{
    reveal_strlit("R");
    let line = marks + rest;
    text::lemma_chars_before_ascii(marks, rest, 2);
    let head = line.take(2);
    if marks[0] == 'R' {
        assert(head[0] == 'R');
    } else {
        assert(head[1] == 'R');
    }
    assert(head.contains('R'));
}

/// What is not swept names nothing that is: a path is swept up only where some
/// line that is no rename names it, unquoted.
pub proof fn swept_paths_are_named(lines: Seq<Seq<char>>, me: Seq<char>, path: Seq<char>)
    requires
        pending(lines, me).contains(path),
    ensures
        exists|k: int|
            0 <= k < lines.len() && path_on(#[trigger] lines[k]) == path && !text::begins(
                lines[k],
                "R"@,
            ) && !text::begins(path, "\""@) && !text::has_text(path, " -> "@),
    decreases lines.len(),
{
    let w = lines.drop_last();
    let r = pending(lines, me);
    let before = pending(w, me);
    let i = choose|i: int| 0 <= i < r.len() && r[i] == path;
    if i < before.len() {
        assert(before[i] == path);
        swept_paths_are_named(w, me, path);
        let k = choose|k: int|
            0 <= k < w.len() && path_on(#[trigger] w[k]) == path && !text::begins(w[k], "R"@)
                && !text::begins(path, "\""@) && !text::has_text(path, " -> "@);
        assert(lines[k] == w[k]);
    } else {
        assert(lines[lines.len() - 1] == lines.last());
    }
}

/// Lines count where they say anything.
pub proof fn filled_lines_are_counted(lines: Seq<Seq<char>>)
    ensures
        filled(lines) == lines.filter(|l: Seq<char>| text::trimmed(l).len() > 0).len(),
    decreases lines.len(),
{
    reveal(Seq::filter);
    if lines.len() > 0 {
        filled_lines_are_counted(lines.drop_last());
    }
}

/// What is reported of a sync: whether it pulled, how much it swept up, and that
/// the push failed exactly where there is an error, with the last line of it.
#[verifier::rlimit(80)]
#[verifier::spinoff_prover]
pub proof fn sync_reports_a_failed_push(
    pulled: bool,
    swept: nat,
    error: Seq<char>,
    unsent: Option<nat>,
)
    ensures
        sync_text(pulled, swept, None, unsent) == (if pulled {
            "sync: pull ok · swept "@
        } else {
            "sync: pull skip · swept "@
        }) + text::decimal(swept) + " · push ok"@,
        text::has_text(sync_text(pulled, swept, Some(error), unsent), " · push FAILED"@),
        text::ends(sync_text(pulled, swept, Some(error), unsent), last_words(error)),
        text::lines_of(error).len() > 0 && text::lines_of(error).last().len() <= 160 ==> last_words(
            error,
        ) == text::lines_of(error).last(),
{
    reveal_strlit("sync: pull ");
    reveal_strlit("ok");
    reveal_strlit("skip");
    reveal_strlit(" · swept ");
    reveal_strlit(" · push ");
    reveal_strlit("FAILED");
    reveal_strlit(" · push ok");
    reveal_strlit(" · push FAILED");
    reveal_strlit("sync: pull ok · swept ");
    reveal_strlit("sync: pull skip · swept ");
    let head = "sync: pull "@ + (if pulled {
        "ok"@
    } else {
        "skip"@
    }) + " · swept "@;
    assert(head =~= if pulled {
        "sync: pull ok · swept "@
    } else {
        "sync: pull skip · swept "@
    });
    assert(" · push "@ + "ok"@ =~= " · push ok"@);
    let count = text::decimal(swept);
    assert(sync_text(pulled, swept, None, unsent) =~= head + count + (" · push "@ + "ok"@));
    let words = last_words(error);
    let rest = match unsent {
        Some(n) => " ("@ + text::decimal(n) + " local commit(s) still unsent) — "@,
        None => " (no upstream branch) — "@,
    };
    let s = sync_text(pulled, swept, Some(error), unsent);
    assert(" · push "@ + "FAILED"@ =~= " · push FAILED"@);
    assert(s =~= head + count + " · push FAILED"@ + (rest + words));
    text::lemma_has_part(head + count, " · push FAILED"@, rest + words);
    assert(s.subrange(s.len() - words.len(), s.len() as int) =~= words);
}

} // verus!
