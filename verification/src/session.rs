//! Sessions in one working tree: who they are, where two of them collide, and
//! how one is put into a tree of its own.

use vstd::prelude::*;

use crate::package;
use crate::paths;
use crate::text;

verus! {

// ---- where sessions are kept ----------------------------------------------

/// The home directory.
pub open spec fn home_of(home: Option<Seq<char>>) -> Seq<char> {
    match home {
        Some(h) => h,
        None => "/root"@,
    }
}

/// A directory under the home directory.
fn under_home(home: Option<&str>, name: &str) -> (r: String)
    ensures
        r@ == paths::under(home_of(text::opt(home)), name@),
{
    match home {
        Some(h) => paths::join(h, name),
        None => paths::join("/root", name),
    }
}

/// Where the records of sessions are kept.
pub open spec fn registry(home: Option<Seq<char>>) -> Seq<char> {
    paths::under(home_of(home), package::named("."@, "/sessions"@))
}

/// Where the records of sessions are kept.
pub fn reg_dir(home: Option<&str>) -> (r: String)
    ensures
        r@ == registry(text::opt(home)),
{
    under_home(home, package::name_in(".", "/sessions").as_str())
}

/// Where the record of a session is kept.
pub fn reg_path(home: Option<&str>, sid: &str) -> (r: String)
    ensures
        r@ == paths::under(registry(text::opt(home)), sid@ + ".json"@),
{
    let mut name = String::from_str(sid);
    name.append(".json");
    paths::join(reg_dir(home).as_str(), name.as_str())
}

/// Where transcripts are kept.
pub fn projects_dir(home: Option<&str>) -> (r: String)
    ensures
        r@ == paths::under(home_of(text::opt(home)), package::named("."@, "/projects"@)),
{
    under_home(home, package::name_in(".", "/projects").as_str())
}

/// Where the trees of isolated sessions are kept.
pub open spec fn trees(home: Option<Seq<char>>) -> Seq<char> {
    paths::under(home_of(home), package::named("."@, "/worktrees"@))
}

/// Where the trees of isolated sessions are kept.
pub fn worktrees_root(home: Option<&str>) -> (r: String)
    ensures
        r@ == trees(text::opt(home)),
{
    under_home(home, package::name_in(".", "/worktrees").as_str())
}

// ---- who a session is -----------------------------------------------------

/// Whether an identifier may hold this character.
pub open spec fn sid_char(c: char) -> bool {
    ('a' <= c && c <= 'z') || ('A' <= c && c <= 'Z') || text::is_digit(c) || c == '-' || c == '_'
}

/// Whether a text is the identifier of a session.
pub open spec fn is_sid(s: Seq<char>) -> bool {
    0 < s.len() <= 100 && forall|i: int| 0 <= i < s.len() ==> sid_char(#[trigger] s[i])
}

/// Whether a text is the identifier of a session.
pub fn valid_sid(s: &str) -> (r: bool)
    ensures
        r == is_sid(s@),
{
    let v = text::chars_of(s);
    if v.len() == 0 || v.len() > 100 {
        return false;
    }
    let mut i: usize = 0;
    while i < v.len()
        invariant
            i <= v@.len(),
            v@ == s@,
            forall|k: int| 0 <= k < i ==> sid_char(#[trigger] s@[k]),
        decreases v@.len() - i,
    {
        let c = v[i];
        if !((c >= 'a' && c <= 'z') || (c >= 'A' && c <= 'Z') || (c >= '0' && c <= '9') || c == '-'
            || c == '_') {
            assert(!sid_char(s@[i as int]));
            return false;
        }
        i = i + 1;
    }
    true
}

/// An identifier can be cut to its short form, which is its first eight
/// characters.
pub proof fn lemma_short_sid(s: Seq<char>)
    requires
        is_sid(s),
    ensures
        text::cuttable(s, 8),
        text::head(s, 8) == text::first_chars(s, 8),
        is_sid(text::head(s, 8)),
{
    assert forall|i: int| 0 <= i < s.len() implies (#[trigger] s[i] as u32) < 0x80 by {
        assert(sid_char(s[i]));
    }
    text::lemma_ascii_bytes(s, 8);
    let t = text::first_chars(s, 8);
    assert forall|i: int| 0 <= i < t.len() implies sid_char(#[trigger] t[i]) by {
        assert(t[i] == s[i]);
    }
}

/// The short form of an identifier.
pub fn short(sid: &str) -> (r: String)
    requires
        text::cuttable(sid@, 8),
    ensures
        r@ == text::head(sid@, 8),
{
    text::byte_head(sid, 8)
}

/// An identifier never leads out of the registry: the record of a session lies
/// right in it.
pub proof fn records_stay_in_the_registry(home: Option<Seq<char>>, sid: Seq<char>)
    requires
        is_sid(sid),
    ensures
        paths::under(registry(home), sid + ".json"@) == registry(home).push('/') + sid + ".json"@,
        !sid.contains('/'),
        !sid.contains('.'),
{
    reveal_strlit(".json");
    package::lemma_family();
    reveal_strlit("/sessions");
    let name = sid + ".json"@;
    assert(sid_char(sid[0]));
    assert(name[0] == sid[0]);
    assert(registry(home).last() == 's');
    assert(paths::under(registry(home), name) =~= registry(home).push('/') + sid + ".json"@);
    if sid.contains('/') {
        let i = choose|i: int| 0 <= i < sid.len() && sid[i] == '/';
        assert(sid_char(sid[i]));
    }
    if sid.contains('.') {
        let i = choose|i: int| 0 <= i < sid.len() && sid[i] == '.';
        assert(sid_char(sid[i]));
    }
}

/// A transcript.
pub struct Transcript {
    pub path: String,
    pub name: String,
    /// When it was changed, in nanoseconds since 1970.
    pub mtime: i128,
}

/// Whether a file is a transcript.
pub open spec fn is_transcript(t: Transcript) -> bool {
    paths::extension_is(t.name@, "jsonl"@)
}

/// The place of the newest transcript of a list, the first of several; -1 where
/// there is none.
pub open spec fn newest_place(v: Seq<Transcript>) -> int
    decreases v.len(),
{
    if v.len() == 0 {
        -1
    } else {
        let best = newest_place(v.drop_last());
        if is_transcript(v.last()) && (best < 0 || v.last().mtime > v[best].mtime) {
            v.len() - 1
        } else {
            best
        }
    }
}

/// The newest transcript of a list: its session and its path.
pub fn newest_transcript(v: &Vec<Transcript>) -> (r: Option<(String, String)>)
    ensures
        match r {
            Some(t) => 0 <= newest_place(v@) < v@.len() && t.0@ == paths::stem_of(
                v@[newest_place(v@)].name@,
            ) && t.1@ == v@[newest_place(v@)].path@,
            None => newest_place(v@) < 0,
        },
{
    let mut best: Option<usize> = None;
    let mut i: usize = 0;
    assert(v@.take(0) =~= Seq::empty());
    while i < v.len()
        invariant
            i <= v@.len(),
            best matches Some(k) ==> k < i && newest_place(v@.take(i as int)) == k,
            best is None ==> newest_place(v@.take(i as int)) == -1,
        decreases v@.len() - i,
    {
        assert(v@.take(i + 1).drop_last() =~= v@.take(i as int));
        assert(v@.take(i + 1).last() == v@[i as int]);
        if paths::has_ext(v[i].name.as_str(), "jsonl") {
            let newer = match best {
                Some(k) => v[i].mtime > v[k].mtime,
                None => true,
            };
            if newer {
                best = Some(i);
            }
        }
        i = i + 1;
    }
    assert(v@.take(i as int) =~= v@);
    match best {
        Some(k) => Some((paths::file_stem(v[k].name.as_str()), v[k].path.clone())),
        None => None,
    }
}

/// The session that is meant: the one asked for, or that of the surroundings, or
/// that of the newest transcript, if it is an identifier.
pub open spec fn meant(
    asked: Option<Seq<char>>,
    named: Option<Seq<char>>,
    newest: Option<Seq<char>>,
) -> Option<Seq<char>> {
    let s = if asked is Some {
        asked
    } else if named is Some && named->0.len() > 0 {
        named
    } else {
        newest
    };
    if s is Some && is_sid(s->0) {
        s
    } else {
        None
    }
}

/// The session that is meant.
pub fn resolve_sid(asked: Option<&str>, named: Option<&str>, newest: Option<&str>) -> (r: Option<
    String,
>)
    ensures
        text::opt_string(r) == meant(text::opt(asked), text::opt(named), text::opt(newest)),
        r matches Some(s) ==> is_sid(s@),
{
    let chosen: Option<&str> = match asked {
        Some(s) => Some(s),
        None => {
            let set = match named {
                Some(s) => !s.is_empty(),
                None => false,
            };
            if set {
                named
            } else {
                newest
            }
        },
    };
    match chosen {
        Some(s) => if valid_sid(s) {
            Some(String::from_str(s))
        } else {
            None
        },
        None => None,
    }
}

// ---- records --------------------------------------------------------------

/// The record of a session.
pub struct Record {
    pub session_id: String,
    pub pwd: String,
    pub repo_root: Option<String>,
    /// The tree of its own, where it has one.
    pub worktree: Option<String>,
    pub branch: Option<String>,
    pub transcript: Option<String>,
    pub started_at: String,
    pub last_seen: String,
}

/// What a `Record` says.
pub struct Entry {
    pub session_id: Seq<char>,
    pub pwd: Seq<char>,
    pub repo_root: Option<Seq<char>>,
    pub worktree: Option<Seq<char>>,
    pub branch: Option<Seq<char>>,
    pub transcript: Option<Seq<char>>,
    pub started_at: Seq<char>,
    pub last_seen: Seq<char>,
}

impl View for Record {
    type V = Entry;

    open spec fn view(&self) -> Entry {
        Entry {
            session_id: self.session_id@,
            pwd: self.pwd@,
            repo_root: text::opt_string(self.repo_root),
            worktree: text::opt_string(self.worktree),
            branch: text::opt_string(self.branch),
            transcript: text::opt_string(self.transcript),
            started_at: self.started_at@,
            last_seen: self.last_seen@,
        }
    }
}

/// What the records of a list say.
pub open spec fn entries(v: Seq<Record>) -> Seq<Entry> {
    v.map_values(|r: Record| r@)
}

/// A record that is new.
pub fn new_record(sid: &str, pwd: &str, transcript: Option<String>, now: &str) -> (r: Record)
    ensures
        r@ == (Entry {
            session_id: sid@,
            pwd: pwd@,
            repo_root: None,
            worktree: None,
            branch: None,
            transcript: text::opt_string(transcript),
            started_at: now@,
            last_seen: now@,
        }),
{
    Record {
        session_id: String::from_str(sid),
        pwd: String::from_str(pwd),
        repo_root: None,
        worktree: None,
        branch: None,
        transcript,
        started_at: String::from_str(now),
        last_seen: String::from_str(now),
    }
}

/// A record once its session registered again.
pub open spec fn registered_as(
    e: Entry,
    pwd: Seq<char>,
    repo_root: Option<Seq<char>>,
    transcript: Option<Seq<char>>,
    now: Seq<char>,
) -> Entry {
    Entry { pwd, repo_root, transcript, last_seen: now, ..e }
}

/// A record once its session registered again.
pub fn registered(
    rec: Record,
    pwd: &str,
    repo_root: Option<String>,
    transcript: Option<String>,
    now: &str,
) -> (r: Record)
    ensures
        r@ == registered_as(
            rec@,
            pwd@,
            text::opt_string(repo_root),
            text::opt_string(transcript),
            now@,
        ),
{
    let mut out = rec;
    out.pwd = String::from_str(pwd);
    out.repo_root = repo_root;
    out.transcript = transcript;
    out.last_seen = String::from_str(now);
    out
}

/// The root of the repository, as git printed it.
pub fn git_toplevel(printed: Option<&str>) -> (r: Option<String>)
    ensures
        text::opt_string(r) == (if printed is Some && text::trimmed(printed->0@).len() > 0 {
            Some(text::trimmed(printed->0@))
        } else {
            None
        }),
{
    match printed {
        Some(s) => {
            let t = text::trim(s);
            if t.as_str().is_empty() {
                None
            } else {
                Some(t)
            }
        },
        None => None,
    }
}

/// For so many seconds after it was changed a file speaks for its session.
pub const ACTIVE_SECS: u64 = 600;

/// Whether a file was changed a moment ago.
pub open spec fn is_fresh(age: Option<u64>) -> bool {
    age is Some && age->0 < ACTIVE_SECS
}

/// Whether a file was changed a moment ago.
pub fn fresh(age: Option<u64>) -> (r: bool)
    ensures
        r == is_fresh(age),
{
    match age {
        Some(a) => a < ACTIVE_SECS,
        None => false,
    }
}

/// Whether a session is active: its transcript or its record was changed a
/// moment ago. The ages are in seconds.
pub fn is_active(transcript_age: Option<u64>, record_age: Option<u64>) -> (r: bool)
    ensures
        r == (is_fresh(transcript_age) || is_fresh(record_age)),
{
    fresh(transcript_age) || fresh(record_age)
}

// ---- collisions -----------------------------------------------------------

/// Whether a session works in the live tree of a repository.
pub open spec fn is_live_in(e: Entry, active: bool, repo: Seq<char>) -> bool {
    active && e.worktree is None && e.repo_root == Some(repo)
}

/// The short forms of the sessions that work in the live tree of a repository.
pub open spec fn live_in(v: Seq<Entry>, active: Seq<bool>, repo: Seq<char>) -> Seq<Seq<char>>
    decreases v.len(),
{
    if v.len() == 0 {
        Seq::empty()
    } else {
        let before = live_in(v.drop_last(), active, repo);
        if is_live_in(v.last(), active[v.len() - 1], repo) {
            before.push(text::head(v.last().session_id, 8))
        } else {
            before
        }
    }
}

/// Whether two or more sessions work in the live tree of a repository.
pub open spec fn collides(v: Seq<Entry>, active: Seq<bool>, repo: Seq<char>) -> bool {
    live_in(v, active, repo).len() > 1
}

/// Whether an active session other than `me` works in the live tree of a
/// repository.
pub open spec fn is_shared(
    v: Seq<Entry>,
    active: Seq<bool>,
    repo: Seq<char>,
    me: Option<Seq<char>>,
) -> bool {
    exists|i: int|
        0 <= i < v.len() && is_live_in(#[trigger] v[i], active[i], repo) && Some(v[i].session_id)
            != me
}

/// The repositories whose live trees sessions work in, in the order they come
/// up, each once.
pub open spec fn live_repos(v: Seq<Entry>, active: Seq<bool>) -> Seq<Seq<char>>
    decreases v.len(),
{
    if v.len() == 0 {
        Seq::empty()
    } else {
        let before = live_repos(v.drop_last(), active);
        let e = v.last();
        if active[v.len() - 1] && e.worktree is None && e.repo_root is Some && !before.contains(
            e.repo_root->0,
        ) {
            before.push(e.repo_root->0)
        } else {
            before
        }
    }
}

/// Whether the sessions of records are identifiers.
pub open spec fn all_sids(v: Seq<Entry>) -> bool {
    forall|i: int| 0 <= i < v.len() ==> is_sid((#[trigger] v[i]).session_id)
}

/// A list of short forms as it is shown.
pub open spec fn shown_list(v: Seq<Seq<char>>) -> Seq<char> {
    "["@ + text::joined(v.map_values(|s: Seq<char>| "\""@ + s + "\""@), ", "@) + "]"@
}

/// A list of short forms as it is shown.
fn show_list(v: &Vec<String>) -> (r: String)
    ensures
        r@ == shown_list(text::texts(v@)),
{
    let ghost all = text::texts(v@).map_values(|s: Seq<char>| "\""@ + s + "\""@);
    let mut quoted: Vec<String> = Vec::new();
    let mut i: usize = 0;
    while i < v.len()
        invariant
            i <= v@.len(),
            all == text::texts(v@).map_values(|s: Seq<char>| "\""@ + s + "\""@),
            text::texts(quoted@) == all.take(i as int),
        decreases v@.len() - i,
    {
        let mut s = String::from_str("\"");
        s.append(v[i].as_str());
        s.append("\"");
        assert(s@ == all[i as int]);
        proof {
            text::lemma_texts_push(quoted@, s);
        }
        quoted.push(s);
        assert(text::texts(quoted@) =~= all.take(i + 1));
        i = i + 1;
    }
    assert(all.take(i as int) =~= all);
    let mut r = String::from_str("[");
    r.append(text::join(&quoted, ", ").as_str());
    r.append("]");
    r
}

/// The short forms of the sessions that work in the live tree of a repository.
pub fn sessions_in(recs: &Vec<Record>, active: &Vec<bool>, repo: &str) -> (r: Vec<String>)
    requires
        active@.len() == recs@.len(),
        all_sids(entries(recs@)),
    ensures
        text::texts(r@) == live_in(entries(recs@), active@, repo@),
{
    let ghost all = entries(recs@);
    let mut out: Vec<String> = Vec::new();
    let mut i: usize = 0;
    assert(all.take(0) =~= Seq::empty());
    assert(text::texts(out@) =~= Seq::empty());
    while i < recs.len()
        invariant
            i <= recs@.len(),
            active@.len() == recs@.len(),
            all == entries(recs@),
            all_sids(all),
            text::texts(out@) == live_in(all.take(i as int), active@, repo@),
        decreases recs@.len() - i,
    {
        let rec = &recs[i];
        proof {
            assert(all.take(i + 1).drop_last() =~= all.take(i as int));
            assert(all.take(i + 1).last() == rec@);
            assert(all[i as int] == rec@);
            lemma_short_sid(all[i as int].session_id);
        }
        let here = match &rec.repo_root {
            Some(root) => text::same(root.as_str(), repo),
            None => false,
        };
        if active[i] && rec.worktree.is_none() && here {
            let s = short(rec.session_id.as_str());
            proof {
                text::lemma_texts_push(out@, s);
            }
            out.push(s);
        }
        i = i + 1;
    }
    assert(all.take(i as int) =~= all);
    out
}

/// What a guard says.
pub struct GuardReport {
    pub collision: bool,
    pub lines: Vec<String>,
}

/// What a guard says of a repository to the session `me`.
pub open spec fn guard_text(
    v: Seq<Entry>,
    active: Seq<bool>,
    repo: Seq<char>,
    me: Option<Seq<char>>,
) -> Seq<Seq<char>> {
    let there = live_in(v, active, repo);
    if is_shared(v, active, repo, me) {
        seq![
            "⚠ "@ + text::decimal(there.len()) + " active sessions share the live tree of "@ + repo
                + " — "@ + shown_list(there),
            package::named("  isolate this one: "@, "-session isolate"@),
        ]
    } else {
        seq!["ok: no live-tree collision for "@ + repo]
    }
}

/// Whether an active session other than `me` works in the live tree of a
/// repository.
fn shares(recs: &Vec<Record>, active: &Vec<bool>, repo: &str, me: Option<&str>) -> (r: bool)
    requires
        active@.len() == recs@.len(),
    ensures
        r == is_shared(entries(recs@), active@, repo@, text::opt(me)),
{
    let ghost all = entries(recs@);
    let mut i: usize = 0;
    while i < recs.len()
        invariant
            i <= recs@.len(),
            active@.len() == recs@.len(),
            all == entries(recs@),
            forall|k: int|
                0 <= k < i ==> !(is_live_in(#[trigger] all[k], active@[k], repo@) && Some(
                    all[k].session_id,
                ) != text::opt(me)),
        decreases recs@.len() - i,
    {
        let rec = &recs[i];
        assert(all[i as int] == rec@);
        let here = match &rec.repo_root {
            Some(root) => text::same(root.as_str(), repo),
            None => false,
        };
        let own = match me {
            Some(m) => text::same(rec.session_id.as_str(), m),
            None => false,
        };
        if active[i] && rec.worktree.is_none() && here && !own {
            return true;
        }
        i = i + 1;
    }
    false
}

/// Whether another active session works in the live tree of a repository, and
/// what is said of it. `me` is the session that asks, registered or not.
pub fn guard(recs: &Vec<Record>, active: &Vec<bool>, repo: &str, me: Option<&str>) -> (r:
    GuardReport)
    requires
        active@.len() == recs@.len(),
        all_sids(entries(recs@)),
    ensures
        r.collision == is_shared(entries(recs@), active@, repo@, text::opt(me)),
        text::texts(r.lines@) == guard_text(entries(recs@), active@, repo@, text::opt(me)),
{
    let there = sessions_in(recs, active, repo);
    let ghost v = entries(recs@);
    assert(live_in(v, active@, repo@).len() == there@.len());
    let mut lines: Vec<String> = Vec::new();
    if shares(recs, active, repo, me) {
        let mut s = String::from_str("⚠ ");
        s.append(text::show_usize(there.len()).as_str());
        s.append(" active sessions share the live tree of ");
        s.append(repo);
        s.append(" — ");
        s.append(show_list(&there).as_str());
        lines.push(s);
        lines.push(package::name_in("  isolate this one: ", "-session isolate"));
        assert(text::texts(lines@) =~= guard_text(v, active@, repo@, text::opt(me)));
        GuardReport { collision: true, lines }
    } else {
        let mut s = String::from_str("ok: no live-tree collision for ");
        s.append(repo);
        lines.push(s);
        assert(text::texts(lines@) =~= guard_text(v, active@, repo@, text::opt(me)));
        GuardReport { collision: false, lines }
    }
}

// ---- the list -------------------------------------------------------------

/// The line for a session.
pub open spec fn session_line(e: Entry, active: bool) -> Seq<char> {
    text::left_aligned(text::head(e.session_id, 8), 10) + " "@ + text::left_aligned(
        if active {
            "yes"@
        } else {
            "no"@
        },
        7,
    ) + " "@ + text::left_aligned(
        if e.worktree is Some {
            "worktree"@
        } else {
            "live"@
        },
        9,
    ) + " "@ + (match e.repo_root {
        Some(r) => r,
        None => e.pwd,
    })
}

/// The lines for the sessions of a list.
pub open spec fn session_lines(v: Seq<Entry>, active: Seq<bool>) -> Seq<Seq<char>> {
    Seq::new(v.len(), |i: int| session_line(v[i], active[i]))
}

/// The lines for the collisions in some repositories, each after an empty one.
pub open spec fn collision_lines(
    repos: Seq<Seq<char>>,
    v: Seq<Entry>,
    active: Seq<bool>,
) -> Seq<Seq<char>>
    decreases repos.len(),
{
    if repos.len() == 0 {
        Seq::empty()
    } else {
        let before = collision_lines(repos.drop_last(), v, active);
        let repo = repos.last();
        if collides(v, active, repo) {
            before + seq![
                ""@,
                "⚠ COLLISION: "@ + text::decimal(live_in(v, active, repo).len())
                    + " active sessions share the LIVE tree of "@ + repo + " — "@ + shown_list(
                    live_in(v, active, repo),
                ),
                package::named(
                    "  -> isolate one: "@,
                    "-session isolate   # run inside that session"@,
                ),
            ]
        } else {
            before
        }
    }
}

/// The lines of the list of sessions.
pub open spec fn list_text(v: Seq<Entry>, active: Seq<bool>) -> Seq<Seq<char>> {
    if v.len() == 0 {
        seq![package::named("no sessions registered (run: "@, "-session register)"@)]
    } else {
        let found = collision_lines(live_repos(v, active), v, active);
        seq!["session    active  tree      repo / pwd"@] + session_lines(v, active) + (
        if found.len() == 0 {
            seq![
                ""@,
                "no collisions: no repo has 2+ active sessions in its live working tree."@,
            ]
        } else {
            found
        })
    }
}

/// The line for a session.
fn show_session(rec: &Record, active: bool) -> (r: String)
    requires
        is_sid(rec@.session_id),
    ensures
        r@ == session_line(rec@, active),
{
    proof {
        lemma_short_sid(rec@.session_id);
    }
    let mut r = text::align_left(short(rec.session_id.as_str()).as_str(), 10);
    r.append(" ");
    r.append(
        text::align_left(
            if active {
                "yes"
            } else {
                "no"
            },
            7,
        ).as_str(),
    );
    r.append(" ");
    r.append(
        text::align_left(
            if rec.worktree.is_some() {
                "worktree"
            } else {
                "live"
            },
            9,
        ).as_str(),
    );
    r.append(" ");
    match &rec.repo_root {
        Some(root) => r.append(root.as_str()),
        None => r.append(rec.pwd.as_str()),
    }
    r
}

/// The repositories whose live trees sessions work in, each once.
fn repos_in_use(recs: &Vec<Record>, active: &Vec<bool>) -> (r: Vec<String>)
    requires
        active@.len() == recs@.len(),
    ensures
        text::texts(r@) == live_repos(entries(recs@), active@),
{
    let ghost all = entries(recs@);
    let mut out: Vec<String> = Vec::new();
    let mut i: usize = 0;
    assert(all.take(0) =~= Seq::empty());
    assert(text::texts(out@) =~= Seq::empty());
    while i < recs.len()
        invariant
            i <= recs@.len(),
            active@.len() == recs@.len(),
            all == entries(recs@),
            text::texts(out@) == live_repos(all.take(i as int), active@),
        decreases recs@.len() - i,
    {
        let rec = &recs[i];
        proof {
            assert(all.take(i + 1).drop_last() =~= all.take(i as int));
            assert(all.take(i + 1).last() == rec@);
        }
        match &rec.repo_root {
            Some(root) => {
                if active[i] && rec.worktree.is_none() && !crate::lists::lists(
                    &out,
                    root.as_str(),
                ) {
                    text::say(&mut out, root.clone());
                }
            },
            None => {},
        }
        i = i + 1;
    }
    assert(all.take(i as int) =~= all);
    out
}

/// The lines of the list of sessions.
pub fn list(recs: &Vec<Record>, active: &Vec<bool>) -> (r: Vec<String>)
    requires
        active@.len() == recs@.len(),
        all_sids(entries(recs@)),
    ensures
        text::texts(r@) == list_text(entries(recs@), active@),
{
    let ghost v = entries(recs@);
    let mut out: Vec<String> = Vec::new();
    if recs.len() == 0 {
        text::say(&mut out, package::name_in("no sessions registered (run: ", "-session register)"));
        assert(text::texts(out@) =~= list_text(v, active@));
        return out;
    }
    text::say(&mut out, String::from_str("session    active  tree      repo / pwd"));
    let ghost title = seq!["session    active  tree      repo / pwd"@];
    let ghost rows = session_lines(v, active@);
    let mut i: usize = 0;
    assert(text::texts(out@) =~= title + rows.take(0));
    while i < recs.len()
        invariant
            i <= recs@.len(),
            active@.len() == recs@.len(),
            v == entries(recs@),
            all_sids(v),
            rows == session_lines(v, active@),
            text::texts(out@) == title + rows.take(i as int),
        decreases recs@.len() - i,
    {
        assert(v[i as int] == recs@[i as int]@);
        assert(is_sid(v[i as int].session_id));
        text::say(&mut out, show_session(&recs[i], active[i]));
        assert(text::texts(out@) =~= title + rows.take(i + 1));
        i = i + 1;
    }
    assert(rows.take(i as int) =~= rows);
    let repos = repos_in_use(recs, active);
    let ghost all = live_repos(v, active@);
    let mut found: Vec<String> = Vec::new();
    let mut k: usize = 0;
    assert(all.take(0) =~= Seq::empty());
    assert(text::texts(found@) =~= Seq::empty());
    while k < repos.len()
        invariant
            k <= repos@.len(),
            active@.len() == recs@.len(),
            v == entries(recs@),
            all_sids(v),
            all == text::texts(repos@),
            text::texts(found@) == collision_lines(all.take(k as int), v, active@),
        decreases repos@.len() - k,
    {
        proof {
            assert(all.take(k + 1).drop_last() =~= all.take(k as int));
            assert(all.take(k + 1).last() == repos@[k as int]@);
        }
        let ghost before = text::texts(found@);
        let sids = sessions_in(recs, active, repos[k].as_str());
        assert(live_in(v, active@, repos@[k as int]@).len() == sids@.len());
        if sids.len() > 1 {
            let mut s = String::from_str("⚠ COLLISION: ");
            s.append(text::show_usize(sids.len()).as_str());
            s.append(" active sessions share the LIVE tree of ");
            s.append(repos[k].as_str());
            s.append(" — ");
            s.append(show_list(&sids).as_str());
            text::say(&mut found, String::from_str(""));
            text::say(&mut found, s);
            text::say(
                &mut found,
                package::name_in(
                    "  -> isolate one: ",
                    "-session isolate   # run inside that session",
                ),
            );
            assert(text::texts(found@) =~= collision_lines(all.take(k + 1), v, active@));
        }
        k = k + 1;
    }
    assert(all.take(k as int) =~= all);
    assert(text::texts(found@).len() == found@.len());
    if found.len() == 0 {
        text::say(&mut out, String::from_str(""));
        text::say(
            &mut out,
            String::from_str(
                "no collisions: no repo has 2+ active sessions in its live working tree.",
            ),
        );
    } else {
        let ghost x = out@;
        let ghost y = found@;
        out.append(&mut found);
        assert(text::texts(out@) =~= text::texts(x) + text::texts(y));
    }
    assert(text::texts(out@) =~= list_text(v, active@));
    out
}

// ---- a tree of its own ----------------------------------------------------

/// What puts a session into a tree of its own.
pub struct Isolation {
    /// The tree, the directory it is made in, and the branch.
    pub worktree: String,
    pub parent: String,
    pub branch: String,
    /// What git is asked to tell whether the branch is there.
    pub probe: Vec<String>,
}

/// The branch of a session.
pub open spec fn branch_of(sid: Seq<char>) -> Seq<char> {
    "session/"@ + text::head(sid, 8)
}

/// The tree of a session of a repository of that name.
pub open spec fn tree_of(home: Option<Seq<char>>, repo_name: Seq<char>, sid: Seq<char>) -> Seq<
    char,
> {
    paths::under(paths::under(trees(home), repo_name), text::head(sid, 8))
}

/// What puts a session into a tree of its own; a repository without a name is
/// called `repo`.
pub fn isolation(home: Option<&str>, repo_name: Option<&str>, sid: &str) -> (r: Isolation)
    requires
        is_sid(sid@),
    ensures
        ({
            let name = match repo_name {
                Some(n) => n@,
                None => "repo"@,
            };
            &&& r.worktree@ == tree_of(text::opt(home), name, sid@)
            &&& r.parent@ == paths::under(trees(text::opt(home)), name)
            &&& r.branch@ == branch_of(sid@)
            &&& text::texts(r.probe@) == seq![
                "rev-parse"@,
                "--verify"@,
                "refs/heads/"@ + branch_of(sid@),
            ]
        }),
{
    proof {
        lemma_short_sid(sid@);
    }
    let name = match repo_name {
        Some(n) => n,
        None => "repo",
    };
    let sid8 = short(sid);
    let parent = paths::join(worktrees_root(home).as_str(), name);
    let worktree = paths::join(parent.as_str(), sid8.as_str());
    let mut branch = String::from_str("session/");
    branch.append(sid8.as_str());
    let mut full = String::from_str("refs/heads/");
    full.append(branch.as_str());
    let ghost shown = full@;
    let mut probe: Vec<String> = Vec::new();
    probe.push(String::from_str("rev-parse"));
    probe.push(String::from_str("--verify"));
    probe.push(full);
    assert(text::texts(probe@) =~= seq!["rev-parse"@, "--verify"@, shown]);
    Isolation { worktree, parent, branch, probe }
}

/// What git is asked to make the tree with: on the branch of the session, which
/// is made from `base` where it is not there.
pub fn worktree_args(plan: &Isolation, branch_exists: bool, base: Option<&str>) -> (r: Vec<String>)
    ensures
        text::texts(r@) == (if branch_exists {
            seq!["worktree"@, "add"@, plan.worktree@, plan.branch@]
        } else {
            seq![
                "worktree"@,
                "add"@,
                "-b"@,
                plan.branch@,
                plan.worktree@,
                match base {
                    Some(b) => b@,
                    None => "HEAD"@,
                },
            ]
        }),
{
    let mut v: Vec<String> = Vec::new();
    v.push(String::from_str("worktree"));
    v.push(String::from_str("add"));
    if branch_exists {
        v.push(plan.worktree.clone());
        v.push(plan.branch.clone());
        assert(text::texts(v@) =~= seq!["worktree"@, "add"@, plan.worktree@, plan.branch@]);
    } else {
        let from = match base {
            Some(b) => b,
            None => "HEAD",
        };
        v.push(String::from_str("-b"));
        v.push(plan.branch.clone());
        v.push(plan.worktree.clone());
        v.push(String::from_str(from));
        assert(text::texts(v@) =~= seq![
            "worktree"@,
            "add"@,
            "-b"@,
            plan.branch@,
            plan.worktree@,
            from@,
        ]);
    }
    v
}

/// A record once its session is in a tree of its own.
pub open spec fn isolated_as(e: Entry, repo: Seq<char>, tree: Seq<char>, branch: Seq<char>, now:
    Seq<char>) -> Entry {
    Entry {
        repo_root: Some(repo),
        worktree: Some(tree),
        branch: Some(branch),
        last_seen: now,
        ..e
    }
}

/// A record once its session is in a tree of its own.
pub fn isolated(rec: Record, repo: &str, plan: &Isolation, now: &str) -> (r: Record)
    ensures
        r@ == isolated_as(rec@, repo@, plan.worktree@, plan.branch@, now@),
{
    let mut out = rec;
    out.repo_root = Some(String::from_str(repo));
    out.worktree = Some(plan.worktree.clone());
    out.branch = Some(plan.branch.clone());
    out.last_seen = String::from_str(now);
    out
}

/// The lines that say how a session was isolated.
pub fn isolation_report(plan: &Isolation, sid: &str) -> (r: Vec<String>)
    requires
        is_sid(sid@),
    ensures
        text::texts(r@) == seq![
            "isolated session "@ + text::head(sid@, 8),
            "  worktree: "@ + plan.worktree@,
            "  branch:   "@ + plan.branch@,
            "  -> cd "@ + plan.worktree@ + "   (work there; merge the branch back later)"@,
            package::named("  -> release with: "@, "-session release"@),
        ],
{
    proof {
        lemma_short_sid(sid@);
    }
    let mut a = String::from_str("isolated session ");
    a.append(short(sid).as_str());
    let mut b = String::from_str("  worktree: ");
    b.append(plan.worktree.as_str());
    let mut c = String::from_str("  branch:   ");
    c.append(plan.branch.as_str());
    let mut d = String::from_str("  -> cd ");
    d.append(plan.worktree.as_str());
    d.append("   (work there; merge the branch back later)");
    let ghost all = seq![a@, b@, c@, d@, package::named(
        "  -> release with: "@,
        "-session release"@,
    )];
    let mut v: Vec<String> = Vec::new();
    v.push(a);
    v.push(b);
    v.push(c);
    v.push(d);
    v.push(package::name_in("  -> release with: ", "-session release"));
    assert(text::texts(v@) =~= all);
    v
}

/// Why a session cannot be released.
#[derive(Clone, Copy, Debug, PartialEq, Eq, Structural)]
pub enum ReleaseError {
    NoRecord,
    NoWorktree,
    NoRepoRoot,
}

/// What is said of a session that cannot be released.
pub fn release_error(e: ReleaseError) -> (r: &'static str)
    ensures
        r@ == (match e {
            ReleaseError::NoRecord => "no registry record for this session"@,
            ReleaseError::NoWorktree => "this session has no worktree recorded"@,
            ReleaseError::NoRepoRoot => "no repo_root recorded"@,
        }),
{
    match e {
        ReleaseError::NoRecord => "no registry record for this session",
        ReleaseError::NoWorktree => "this session has no worktree recorded",
        ReleaseError::NoRepoRoot => "no repo_root recorded",
    }
}

/// What takes a session out of its tree.
pub struct Release {
    pub repo: String,
    pub worktree: String,
    /// What git is asked to remove the tree, and then the branch.
    pub remove: Vec<String>,
    pub delete: Option<Vec<String>>,
}

/// What takes a session out of its tree. The branch goes too, unless it is kept.
pub fn release(rec: Option<&Record>, keep_branch: bool) -> (r: Result<Release, ReleaseError>)
    ensures
        match r {
            Ok(p) => {
                &&& rec is Some
                &&& rec->0@.worktree == Some(p.worktree@)
                &&& rec->0@.repo_root == Some(p.repo@)
                &&& text::texts(p.remove@) == seq!["worktree"@, "remove"@, p.worktree@]
                &&& match p.delete {
                    Some(d) => !keep_branch && rec->0@.branch is Some && text::texts(d@) == seq![
                        "branch"@,
                        "-D"@,
                        rec->0@.branch->0,
                    ],
                    None => keep_branch || rec->0@.branch is None,
                }
            },
            Err(ReleaseError::NoRecord) => rec is None,
            Err(ReleaseError::NoWorktree) => rec is Some && rec->0@.worktree is None,
            Err(ReleaseError::NoRepoRoot) => rec is Some && rec->0@.worktree is Some
                && rec->0@.repo_root is None,
        },
{
    let rec = match rec {
        Some(rec) => rec,
        None => return Err(ReleaseError::NoRecord),
    };
    let worktree = match &rec.worktree {
        Some(w) => w.clone(),
        None => return Err(ReleaseError::NoWorktree),
    };
    let repo = match &rec.repo_root {
        Some(r) => r.clone(),
        None => return Err(ReleaseError::NoRepoRoot),
    };
    let mut remove: Vec<String> = Vec::new();
    remove.push(String::from_str("worktree"));
    remove.push(String::from_str("remove"));
    remove.push(worktree.clone());
    assert(text::texts(remove@) =~= seq!["worktree"@, "remove"@, worktree@]);
    let mut delete: Option<Vec<String>> = None;
    if !keep_branch {
        match &rec.branch {
            Some(b) => {
                let mut d: Vec<String> = Vec::new();
                d.push(String::from_str("branch"));
                d.push(String::from_str("-D"));
                d.push(b.clone());
                assert(text::texts(d@) =~= seq!["branch"@, "-D"@, b@]);
                delete = Some(d);
            },
            None => {},
        }
    }
    Ok(Release { repo, worktree, remove, delete })
}

/// What is said where git does not remove a tree.
pub fn dirty_hint(why: &str, worktree: &str) -> (r: String)
    ensures
        r@ == why@ + "\n  the worktree has uncommitted changes — commit/stash in "@ + worktree@
            + " first, or `git worktree remove --force` by hand if you're sure"@,
{
    let mut r = String::from_str(why);
    r.append("\n  the worktree has uncommitted changes — commit/stash in ");
    r.append(worktree);
    r.append(" first, or `git worktree remove --force` by hand if you're sure");
    r
}

/// A record once its session is out of its tree.
pub open spec fn released_as(e: Entry, now: Seq<char>) -> Entry {
    Entry { worktree: None, branch: None, last_seen: now, ..e }
}

/// A record once its session is out of its tree.
pub fn released(rec: Record, now: &str) -> (r: Record)
    ensures
        r@ == released_as(rec@, now@),
{
    let mut out = rec;
    out.worktree = None;
    out.branch = None;
    out.last_seen = String::from_str(now);
    out
}

// ---- laws -----------------------------------------------------------------

proof fn lemma_live_repo(v: Seq<Entry>, active: Seq<bool>, repo: Seq<char>)
    ensures
        live_in(v, active, repo).len() > 0 ==> live_repos(v, active).contains(repo),
    decreases v.len(),
{
    if v.len() > 0 {
        let w = v.drop_last();
        lemma_live_repo(w, active, repo);
        let before = live_repos(w, active);
        let r = live_repos(v, active);
        if is_live_in(v.last(), active[v.len() - 1], repo) {
            if before.contains(repo) {
                let k = choose|k: int| 0 <= k < before.len() && before[k] == repo;
                assert(r[k] == repo);
            } else {
                assert(r[before.len() as int] == repo);
            }
        } else if before.contains(repo) {
            let k = choose|k: int| 0 <= k < before.len() && before[k] == repo;
            assert(r[k] == repo);
        }
    }
}

proof fn lemma_collision_listed(repos: Seq<Seq<char>>, v: Seq<Entry>, active: Seq<bool>)
    ensures
        collision_lines(repos, v, active).len() > 0 <==> exists|i: int|
            0 <= i < repos.len() && collides(v, active, #[trigger] repos[i]),
    decreases repos.len(),
{
    if repos.len() > 0 {
        let w = repos.drop_last();
        lemma_collision_listed(w, v, active);
        if collides(v, active, repos.last()) {
            assert(collides(v, active, repos[repos.len() - 1]));
        } else {
            if exists|i: int| 0 <= i < repos.len() && collides(v, active, #[trigger] repos[i]) {
                let i = choose|i: int|
                    0 <= i < repos.len() && collides(v, active, #[trigger] repos[i]);
                assert(w[i] == repos[i]);
            }
            if exists|i: int| 0 <= i < w.len() && collides(v, active, #[trigger] w[i]) {
                let i = choose|i: int| 0 <= i < w.len() && collides(v, active, #[trigger] w[i]);
                assert(repos[i] == w[i]);
            }
        }
    }
}

/// A session in a tree of its own counts for no collision, active or not.
pub proof fn isolated_sessions_do_not_collide(
    e: Entry,
    repo: Seq<char>,
    tree: Seq<char>,
    branch: Seq<char>,
    now: Seq<char>,
    active: bool,
    target: Seq<char>,
)
    ensures
        !is_live_in(isolated_as(e, repo, tree, branch, now), active, target),
{
}

proof fn lemma_live_update(v: Seq<Entry>, active: Seq<bool>, repo: Seq<char>, i: int, e: Entry)
    requires
        0 <= i < v.len(),
        is_live_in(v[i], active[i], repo),
        !is_live_in(e, active[i], repo),
    ensures
        live_in(v.update(i, e), active, repo).len() + 1 == live_in(v, active, repo).len(),
    decreases v.len(),
{
    let w = v.drop_last();
    let u = v.update(i, e);
    if i == v.len() - 1 {
        assert(u.drop_last() =~= w);
    } else {
        assert(u.drop_last() =~= w.update(i, e));
        lemma_live_update(w, active, repo, i, e);
    }
}

/// Whether each session has one record.
pub open spec fn are_apart(v: Seq<Entry>) -> bool {
    forall|i: int, j: int|
        0 <= i < v.len() && 0 <= j < v.len() && i != j ==> (#[trigger] v[i]).session_id != (
        #[trigger] v[j]).session_id
}

proof fn lemma_live_some(v: Seq<Entry>, active: Seq<bool>, repo: Seq<char>)
    ensures
        live_in(v, active, repo).len() > 0 <==> is_shared(v, active, repo, None),
    decreases v.len(),
{
    if v.len() > 0 {
        let w = v.drop_last();
        lemma_live_some(w, active, repo);
        if is_live_in(v.last(), active[v.len() - 1], repo) {
            assert(is_live_in(v[v.len() - 1], active[v.len() - 1], repo));
        } else {
            if is_shared(w, active, repo, None) {
                let i = choose|i: int|
                    0 <= i < w.len() && is_live_in(#[trigger] w[i], active[i], repo);
                assert(is_live_in(v[i], active[i], repo));
            }
            if is_shared(v, active, repo, None) {
                let i = choose|i: int|
                    0 <= i < v.len() && is_live_in(#[trigger] v[i], active[i], repo);
                assert(is_live_in(w[i], active[i], repo));
            }
        }
    }
}

/// A session that has no record yet is stopped as soon as an active session works
/// in the live tree, whether or not it can say who it is.
pub proof fn guard_stops_a_newcomer(
    v: Seq<Entry>,
    active: Seq<bool>,
    repo: Seq<char>,
    me: Option<Seq<char>>,
)
    requires
        forall|i: int| 0 <= i < v.len() ==> Some((#[trigger] v[i]).session_id) != me,
    ensures
        is_shared(v, active, repo, me) <==> live_in(v, active, repo).len() > 0,
{
    lemma_live_some(v, active, repo);
    if is_shared(v, active, repo, None) {
        let i = choose|i: int| 0 <= i < v.len() && is_live_in(#[trigger] v[i], active[i], repo);
        assert(Some(v[i].session_id) != me);
    }
}

/// A session that works in the live tree itself is stopped exactly where two or
/// more active sessions work there.
pub proof fn guard_stops_at_two(v: Seq<Entry>, active: Seq<bool>, repo: Seq<char>, k: int)
    requires
        are_apart(v),
        0 <= k < v.len(),
        is_live_in(v[k], active[k], repo),
    ensures
        is_shared(v, active, repo, Some(v[k].session_id)) <==> collides(v, active, repo),
{
    let me = Some(v[k].session_id);
    let gone = Entry { repo_root: None, ..v[k] };
    let u = v.update(k, gone);
    lemma_live_update(v, active, repo, k, gone);
    lemma_live_some(u, active, repo);
    if is_shared(v, active, repo, me) {
        let i = choose|i: int|
            0 <= i < v.len() && is_live_in(#[trigger] v[i], active[i], repo) && Some(
                v[i].session_id,
            ) != me;
        assert(is_live_in(u[i], active[i], repo));
    }
    if is_shared(u, active, repo, None) {
        let i = choose|i: int| 0 <= i < u.len() && is_live_in(#[trigger] u[i], active[i], repo);
        assert(i != k);
        assert(is_live_in(v[i], active[i], repo));
        assert(v[i].session_id != v[k].session_id);
    }
}

/// The list and the guard agree: the list reports a collision exactly where
/// there is a session in a live tree that the guard stops there.
pub proof fn list_and_guard_agree(v: Seq<Entry>, active: Seq<bool>)
    requires
        are_apart(v),
    ensures
        collision_lines(live_repos(v, active), v, active).len() > 0 <==> exists|
            repo: Seq<char>,
            k: int,
        |
            0 <= k < v.len() && #[trigger] is_live_in(v[k], active[k], repo) && is_shared(
                v,
                active,
                repo,
                Some(v[k].session_id),
            ),
{
    let repos = live_repos(v, active);
    lemma_collision_listed(repos, v, active);
    if collision_lines(repos, v, active).len() > 0 {
        let i = choose|i: int| 0 <= i < repos.len() && collides(v, active, #[trigger] repos[i]);
        let repo = repos[i];
        lemma_live_some(v, active, repo);
        let k = choose|k: int| 0 <= k < v.len() && is_live_in(#[trigger] v[k], active[k], repo);
        guard_stops_at_two(v, active, repo, k);
        assert(is_live_in(v[k], active[k], repo));
    }
    if exists|repo: Seq<char>, k: int|
        0 <= k < v.len() && #[trigger] is_live_in(v[k], active[k], repo) && is_shared(
            v,
            active,
            repo,
            Some(v[k].session_id),
        ) {
        let (repo, k) = choose|repo: Seq<char>, k: int|
            0 <= k < v.len() && #[trigger] is_live_in(v[k], active[k], repo) && is_shared(
                v,
                active,
                repo,
                Some(v[k].session_id),
            );
        guard_stops_at_two(v, active, repo, k);
        lemma_live_repo(v, active, repo);
        let i = choose|i: int| 0 <= i < repos.len() && repos[i] == repo;
        assert(collides(v, active, repos[i]));
    }
}

/// Isolating a session takes it out of the live tree and leaves the others where
/// they are; where two collide, that ends the collision.
pub proof fn isolating_ends_a_collision(
    v: Seq<Entry>,
    active: Seq<bool>,
    repo: Seq<char>,
    i: int,
    tree: Seq<char>,
    branch: Seq<char>,
    now: Seq<char>,
)
    requires
        0 <= i < v.len(),
        is_live_in(v[i], active[i], repo),
    ensures
        ({
            let after = v.update(i, isolated_as(v[i], repo, tree, branch, now));
            &&& live_in(after, active, repo).len() + 1 == live_in(v, active, repo).len()
            &&& live_in(v, active, repo).len() == 2 ==> !collides(after, active, repo)
        }),
{
    lemma_live_update(v, active, repo, i, isolated_as(v[i], repo, tree, branch, now));
}

/// Where two sessions collide and one is isolated, the guard lets the other pass.
pub proof fn isolating_frees_the_other(
    v: Seq<Entry>,
    active: Seq<bool>,
    repo: Seq<char>,
    i: int,
    k: int,
    tree: Seq<char>,
    branch: Seq<char>,
    now: Seq<char>,
)
    requires
        are_apart(v),
        0 <= i < v.len(),
        0 <= k < v.len(),
        i != k,
        is_live_in(v[i], active[i], repo),
        is_live_in(v[k], active[k], repo),
        live_in(v, active, repo).len() == 2,
    ensures
        is_shared(v, active, repo, Some(v[k].session_id)),
        !is_shared(
            v.update(i, isolated_as(v[i], repo, tree, branch, now)),
            active,
            repo,
            Some(v[k].session_id),
        ),
{
    let after = v.update(i, isolated_as(v[i], repo, tree, branch, now));
    guard_stops_at_two(v, active, repo, k);
    isolating_ends_a_collision(v, active, repo, i, tree, branch, now);
    assert forall|a: int, b: int|
        0 <= a < after.len() && 0 <= b < after.len() && a != b implies (#[trigger] after[a]).session_id
        != (#[trigger] after[b]).session_id by {
        assert(after[a].session_id == v[a].session_id);
        assert(after[b].session_id == v[b].session_id);
    }
    guard_stops_at_two(after, active, repo, k);
}

/// Releasing undoes isolating: the session is back in the live tree of its
/// repository, with no tree and no branch of its own.
pub proof fn release_undoes_isolation(
    e: Entry,
    repo: Seq<char>,
    tree: Seq<char>,
    branch: Seq<char>,
    now: Seq<char>,
    later: Seq<char>,
)
    ensures
        released_as(isolated_as(e, repo, tree, branch, now), later) == (Entry {
            repo_root: Some(repo),
            worktree: None,
            branch: None,
            last_seen: later,
            ..e
        }),
{
}

/// Sessions with different short forms get different trees and branches.
pub proof fn trees_are_apart(
    home: Option<Seq<char>>,
    name: Seq<char>,
    a: Seq<char>,
    b: Seq<char>,
)
    requires
        is_sid(a),
        is_sid(b),
        text::head(a, 8) != text::head(b, 8),
    ensures
        tree_of(home, name, a) != tree_of(home, name, b),
        branch_of(a) != branch_of(b),
{
    lemma_short_sid(a);
    lemma_short_sid(b);
    let x = text::head(a, 8);
    let y = text::head(b, 8);
    assert(sid_char(x[0]));
    assert(sid_char(y[0]));
    let root = paths::under(trees(home), name);
    let head = if root.len() == 0 || root.last() == '/' {
        root
    } else {
        root.push('/')
    };
    assert(tree_of(home, name, a).skip(head.len() as int) =~= x);
    assert(tree_of(home, name, b).skip(head.len() as int) =~= y);
    let s = "session/"@;
    assert(branch_of(a).skip(s.len() as int) =~= x);
    assert(branch_of(b).skip(s.len() as int) =~= y);
}

proof fn lemma_two_live(v: Seq<Entry>, active: Seq<bool>, repo: Seq<char>, i: int, j: int)
    requires
        0 <= i < v.len(),
        0 <= j < v.len(),
        i != j,
        is_live_in(v[i], active[i], repo),
        is_live_in(v[j], active[j], repo),
    ensures
        collides(v, active, repo),
{
    let gone = Entry { repo_root: None, ..v[i] };
    let u = v.update(i, gone);
    lemma_live_update(v, active, repo, i, gone);
    lemma_live_update(u, active, repo, j, gone);
}

proof fn lemma_collision_line(repos: Seq<Seq<char>>, v: Seq<Entry>, active: Seq<bool>, i: int)
    requires
        0 <= i < repos.len(),
        collides(v, active, repos[i]),
    ensures
        collision_lines(repos, v, active).contains(
            "⚠ COLLISION: "@ + text::decimal(live_in(v, active, repos[i]).len())
                + " active sessions share the LIVE tree of "@ + repos[i] + " — "@ + shown_list(
                live_in(v, active, repos[i]),
            ),
        ),
    decreases repos.len(),
{
    let w = repos.drop_last();
    let before = collision_lines(w, v, active);
    let r = collision_lines(repos, v, active);
    if i < w.len() {
        lemma_collision_line(w, v, active, i);
        let line = "⚠ COLLISION: "@ + text::decimal(live_in(v, active, repos[i]).len())
            + " active sessions share the LIVE tree of "@ + repos[i] + " — "@ + shown_list(
            live_in(v, active, repos[i]),
        );
        let k = choose|k: int| 0 <= k < before.len() && before[k] == line;
        assert(r[k] == line);
    } else {
        let line = "⚠ COLLISION: "@ + text::decimal(live_in(v, active, repos[i]).len())
            + " active sessions share the LIVE tree of "@ + repos[i] + " — "@ + shown_list(
            live_in(v, active, repos[i]),
        );
        assert(r[before.len() as int + 1] == line);
    }
}

/// Two active sessions without a tree of their own that work in one repository
/// are a collision, whatever else their records say: the guard stops either of
/// them, and anyone who is neither, and the list reports the repository.
#[verifier::rlimit(80)]
#[verifier::spinoff_prover]
pub proof fn live_sessions_collide(
    v: Seq<Entry>,
    active: Seq<bool>,
    repo: Seq<char>,
    i: int,
    j: int,
)
    requires
        0 <= i < v.len(),
        0 <= j < v.len(),
        active[i] && active[j],
        v[i].worktree is None && v[j].worktree is None,
        v[i].repo_root == Some(repo) && v[j].repo_root == Some(repo),
        v[i].session_id != v[j].session_id,
    ensures
        forall|me: Option<Seq<char>>| #[trigger] is_shared(v, active, repo, me),
        live_in(v, active, repo).len() >= 2,
        list_text(v, active).contains(
            "⚠ COLLISION: "@ + text::decimal(live_in(v, active, repo).len())
                + " active sessions share the LIVE tree of "@ + repo + " — "@ + shown_list(
                live_in(v, active, repo),
            ),
        ),
{
    assert(is_live_in(v[i], active[i], repo));
    assert(is_live_in(v[j], active[j], repo));
    assert forall|me: Option<Seq<char>>| #[trigger] is_shared(v, active, repo, me) by {
        if me == Some(v[i].session_id) {
            assert(is_live_in(v[j], active[j], repo) && Some(v[j].session_id) != me);
        } else {
            assert(is_live_in(v[i], active[i], repo) && Some(v[i].session_id) != me);
        }
    }
    lemma_two_live(v, active, repo, i, j);
    lemma_live_repo(v, active, repo);
    let repos = live_repos(v, active);
    let k = choose|k: int| 0 <= k < repos.len() && repos[k] == repo;
    lemma_collision_line(repos, v, active, k);
    let found = collision_lines(repos, v, active);
    let line = "⚠ COLLISION: "@ + text::decimal(live_in(v, active, repo).len())
        + " active sessions share the LIVE tree of "@ + repo + " — "@ + shown_list(
        live_in(v, active, repo),
    );
    let at = choose|at: int| 0 <= at < found.len() && found[at] == line;
    let all = list_text(v, active);
    assert(all[1 + v.len() as int + at] == line);
}

/// The guard stops a session exactly where another one is active, has no tree of
/// its own and works in the repository; nothing else in the records counts.
pub proof fn guard_stops_for_a_live_session(
    v: Seq<Entry>,
    active: Seq<bool>,
    repo: Seq<char>,
    me: Option<Seq<char>>,
)
    ensures
        is_shared(v, active, repo, me) <==> exists|i: int|
            0 <= i < v.len() && active[i] && (#[trigger] v[i]).worktree is None && v[i].repo_root
                == Some(repo) && me != Some(v[i].session_id),
        guard_text(v, active, repo, me).len() == 2 <==> is_shared(v, active, repo, me),
        !is_shared(v, active, repo, me) ==> guard_text(v, active, repo, me) == seq![
            "ok: no live-tree collision for "@ + repo,
        ],
{
    if exists|i: int|
        0 <= i < v.len() && active[i] && (#[trigger] v[i]).worktree is None && v[i].repo_root
            == Some(repo) && me != Some(v[i].session_id) {
        let i = choose|i: int|
            0 <= i < v.len() && active[i] && (#[trigger] v[i]).worktree is None && v[i].repo_root
                == Some(repo) && me != Some(v[i].session_id);
        assert(is_live_in(v[i], active[i], repo));
    }
}

/// A collision that the list reports is one: two records of it are active, have
/// no tree of their own and name the same repository.
pub proof fn listed_collisions_are_real(v: Seq<Entry>, active: Seq<bool>)
    requires
        collision_lines(live_repos(v, active), v, active).len() > 0,
    ensures
        exists|i: int, j: int|
            0 <= i < v.len() && 0 <= j < v.len() && i != j && active[i] && active[j] && (
            #[trigger] v[i]).worktree is None && (#[trigger] v[j]).worktree is None
                && v[i].repo_root is Some && v[i].repo_root == v[j].repo_root,
{
    let repos = live_repos(v, active);
    lemma_collision_listed(repos, v, active);
    let k = choose|k: int| 0 <= k < repos.len() && collides(v, active, #[trigger] repos[k]);
    let repo = repos[k];
    lemma_live_some(v, active, repo);
    let i = choose|i: int| 0 <= i < v.len() && is_live_in(#[trigger] v[i], active[i], repo);
    let gone = Entry { repo_root: None, ..v[i] };
    let u = v.update(i, gone);
    lemma_live_update(v, active, repo, i, gone);
    lemma_live_some(u, active, repo);
    let j = choose|j: int| 0 <= j < u.len() && is_live_in(#[trigger] u[j], active[j], repo);
    assert(j != i && u[j] == v[j]);
    assert(v[i].worktree is None && v[j].worktree is None);
}

/// A file speaks for its session for ten minutes, and not from then on.
pub proof fn files_speak_for_ten_minutes(age: u64)
    ensures
        is_fresh(Some(age)) <==> age < 600,
        !is_fresh(None),
{
}

/// An identifier is made of ASCII letters, digits, dashes and underscores, of
/// one to a hundred of them; every such text is one.
pub proof fn identifiers_are_plain(s: Seq<char>)
    ensures
        is_sid(s) <==> 1 <= s.len() <= 100 && (forall|i: int|
            0 <= i < s.len() ==> 'a' <= #[trigger] s[i] <= 'z' || 'A' <= s[i] <= 'Z' || '0' <= s[i]
                <= '9' || s[i] == '-' || s[i] == '_'),
{
    if is_sid(s) {
        assert forall|i: int| 0 <= i < s.len() implies 'a' <= #[trigger] s[i] <= 'z' || 'A' <= s[i]
            <= 'Z' || '0' <= s[i] <= '9' || s[i] == '-' || s[i] == '_' by {
            assert(sid_char(s[i]));
        }
    }
}

/// What is asked for goes before what the surroundings say, and both before the
/// newest transcript; what is no identifier gives nothing, and no other is tried
/// in its place.
pub proof fn explicit_session_is_meant(
    asked: Seq<char>,
    named: Seq<char>,
    other: Option<Seq<char>>,
    newest: Option<Seq<char>>,
)
    requires
        named.len() > 0,
    ensures
        is_sid(asked) ==> meant(Some(asked), other, newest) == Some(asked),
        !is_sid(asked) ==> meant(Some(asked), other, newest) is None,
        is_sid(named) ==> meant(None, Some(named), newest) == Some(named),
        !is_sid(named) ==> meant(None, Some(named), newest) is None,
        meant(None, Some(Seq::empty()), newest) == meant(None, None, newest),
        newest is Some && is_sid(newest->0) ==> meant(None, None, newest) == newest,
        !(newest is Some && is_sid(newest->0)) ==> meant(None, None, newest) is None,
{
}

/// The newest transcript is one, no other of the list is newer, and none before
/// it is as new; there is one as soon as the list holds a transcript.
pub proof fn newest_transcript_is_newest(v: Seq<Transcript>)
    ensures
        ({
            let n = newest_place(v);
            &&& -1 <= n < v.len()
            &&& n >= 0 ==> paths::extension_is(v[n].name@, "jsonl"@)
            &&& forall|i: int|
                0 <= i < v.len() && paths::extension_is((#[trigger] v[i]).name@, "jsonl"@) ==> n
                    >= 0 && v[i].mtime <= v[n].mtime && (i < n ==> v[i].mtime < v[n].mtime)
        }),
    decreases v.len(),
{
    if v.len() > 0 {
        let w = v.drop_last();
        newest_transcript_is_newest(w);
        let n = newest_place(v);
        assert forall|i: int|
            0 <= i < v.len() && paths::extension_is(
                (#[trigger] v[i]).name@,
                "jsonl"@,
            ) implies n >= 0 && v[i].mtime <= v[n].mtime && (i < n ==> v[i].mtime
            < v[n].mtime) by {
            if i < w.len() {
                assert(w[i] == v[i]);
            }
        }
    }
}

/// Isolating keeps who a session is and when it began; the record says which tree
/// and branch it has in which repository.
pub proof fn isolation_is_recorded(
    e: Entry,
    repo: Seq<char>,
    tree: Seq<char>,
    branch: Seq<char>,
    now: Seq<char>,
)
    ensures
        ({
            let r = isolated_as(e, repo, tree, branch, now);
            &&& r.worktree == Some(tree) && r.branch == Some(branch) && r.repo_root == Some(repo)
            &&& r.last_seen == now && r.started_at == e.started_at
            &&& r.session_id == e.session_id && r.pwd == e.pwd && r.transcript == e.transcript
        }),
{
}

/// The list has a line for each session, which says whether it is active, whether
/// it has a tree of its own, and its repository or, without one, where it runs.
#[verifier::rlimit(80)]
#[verifier::spinoff_prover]
pub proof fn list_shows_every_session(v: Seq<Entry>, active: Seq<bool>, i: int)
    requires
        0 <= i < v.len(),
    ensures
        list_text(v, active)[1 + i] == text::left_aligned(text::head(v[i].session_id, 8), 10) + (
        if active[i] {
            " yes    "@
        } else {
            " no     "@
        }) + (if v[i].worktree is Some {
            " worktree  "@
        } else {
            " live      "@
        }) + (match v[i].repo_root {
            Some(r) => r,
            None => v[i].pwd,
        }),
{
    reveal_strlit(" ");
    reveal_strlit("yes");
    reveal_strlit("no");
    reveal_strlit("worktree");
    reveal_strlit("live");
    reveal_strlit(" yes    ");
    reveal_strlit(" no     ");
    reveal_strlit(" worktree  ");
    reveal_strlit(" live      ");
    let line = session_line(v[i], active[i]);
    assert(list_text(v, active)[1 + i] == session_lines(v, active)[i]);
    assert(" "@ + text::left_aligned("yes"@, 7) =~= " yes    "@);
    assert(" "@ + text::left_aligned("no"@, 7) =~= " no     "@);
    assert(" "@ + text::left_aligned("worktree"@, 9) + " "@ =~= " worktree  "@);
    assert(" "@ + text::left_aligned("live"@, 9) + " "@ =~= " live      "@);
    let a = text::left_aligned(text::head(v[i].session_id, 8), 10);
    let b = " "@ + text::left_aligned(
        if active[i] {
            "yes"@
        } else {
            "no"@
        },
        7,
    );
    let c = " "@ + text::left_aligned(
        if v[i].worktree is Some {
            "worktree"@
        } else {
            "live"@
        },
        9,
    ) + " "@;
    let d = match v[i].repo_root {
        Some(r) => r,
        None => v[i].pwd,
    };
    assert(line =~= a + b + c + d);
}

/// Registering says anew where a session works; who it is, when it began and the
/// tree it has stay, so that a session that was isolated is not back in the live
/// tree.
pub proof fn registering_keeps_isolation(
    e: Entry,
    pwd: Seq<char>,
    repo_root: Option<Seq<char>>,
    transcript: Option<Seq<char>>,
    now: Seq<char>,
)
    ensures
        ({
            let r = registered_as(e, pwd, repo_root, transcript, now);
            &&& r.pwd == pwd && r.repo_root == repo_root && r.transcript == transcript
            &&& r.last_seen == now
            &&& r.session_id == e.session_id && r.started_at == e.started_at
            &&& r.worktree == e.worktree && r.branch == e.branch
        }),
{
}

/// The branch and the tree of a session are named by the first eight characters
/// of its identifier, the tree under the name of its repository.
pub proof fn isolation_is_named_by_the_session(
    home: Option<Seq<char>>,
    name: Seq<char>,
    sid: Seq<char>,
)
    requires
        is_sid(sid),
        sid.len() >= 8,
        name.len() > 0,
        name[0] != '/',
        name.last() != '/',
    ensures
        branch_of(sid) == "session/"@ + sid.take(8),
        tree_of(home, name, sid) == trees(home) + seq!['/'] + name + seq!['/'] + sid.take(8),
{
    lemma_short_sid(sid);
    if sid.len() == 8 {
        assert(sid.take(8) =~= sid);
    }
    package::lemma_family();
    reveal_strlit("/worktrees");
    assert(trees(home).last() == 's');
    paths::names_go_under_their_directory(trees(home), name);
    let dir = paths::under(trees(home), name);
    assert(dir.last() == name.last());
    assert(sid_char(sid[0]));
    paths::names_go_under_their_directory(dir, sid.take(8));
}

} // verus!
