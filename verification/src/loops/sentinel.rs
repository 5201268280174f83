//! The sentinel: finds the block of a usage policy in the transcripts of
//! sessions and decides what follows from it.

use vstd::prelude::*;

use crate::clock;
use crate::clock::Moment;
use crate::json;
use crate::json::Json;
use crate::json::JsonTree;
use crate::letters;
use crate::loops::files;
use crate::loops::journal;
use crate::loops::journal::LoopEvent;
use crate::package;
use crate::paths;
use crate::text;

verus! {

// ---- hashing --------------------------------------------------------------

/// The FNV-1a hash of bytes.
pub open spec fn fnv(bytes: Seq<u8>) -> u64
    decreases bytes.len(),
{
    if bytes.len() == 0 {
        0xcbf2_9ce4_8422_2325
    } else {
        (fnv(bytes.drop_last()) ^ (bytes.last() as u64)).wrapping_mul(0x0000_0100_0000_01b3)
    }
}

/// The FNV-1a hash of a text.
pub fn fnv1a(s: &str) -> (r: u64)
    ensures
        r == fnv(vstd::utf8::encode_utf8(s@)),
{
    let bytes = s.as_bytes();
    let mut h: u64 = 0xcbf2_9ce4_8422_2325;
    let mut i: usize = 0;
    assert(bytes@.take(0) =~= Seq::empty());
    while i < bytes.len()
        invariant
            i <= bytes@.len(),
            h == fnv(bytes@.take(i as int)),
        decreases bytes@.len() - i,
    {
        assert(bytes@.take(i + 1).drop_last() =~= bytes@.take(i as int));
        h = (h ^ (bytes[i] as u64)).wrapping_mul(0x0000_0100_0000_01b3);
        i = i + 1;
    }
    assert(bytes@.take(i as int) =~= bytes@);
    h
}

// ---- error entries --------------------------------------------------------

/// The first text under a `text` key of a document: that of an object stands
/// before those of its members, which are searched in their order.
pub open spec fn error_text(t: JsonTree) -> Option<Seq<char>>
    decreases t,
{
    match t {
        JsonTree::Object(members) => match json::text_of(json::lookup(members, "text"@)) {
            Some(s) => Some(s),
            None => error_text_in_members(members),
        },
        JsonTree::Array(items) => error_text_in(items),
        _ => None,
    }
}

/// The first text under a `text` key of the documents of a list.
pub open spec fn error_text_in(items: Seq<JsonTree>) -> Option<Seq<char>>
    decreases items,
{
    if items.len() == 0 {
        None
    } else {
        match error_text_in(items.drop_last()) {
            Some(s) => Some(s),
            None => error_text(items.last()),
        }
    }
}

/// The first text under a `text` key of the members of an object.
pub open spec fn error_text_in_members(members: Seq<(Seq<char>, JsonTree)>) -> Option<Seq<char>>
    decreases members,
{
    if members.len() == 0 {
        None
    } else {
        match error_text_in_members(members.drop_last()) {
            Some(s) => Some(s),
            None => error_text(members.last().1),
        }
    }
}

/// What is found among the first documents of a list stays what is found.
proof fn lemma_error_text_in(items: Seq<JsonTree>, n: int)
    requires
        0 <= n <= items.len(),
        error_text_in(items.take(n)) is Some,
    ensures
        error_text_in(items) == error_text_in(items.take(n)),
    decreases items.len(),
{
    if n == items.len() {
        assert(items.take(n) =~= items);
    } else {
        assert(items.drop_last().take(n) =~= items.take(n));
        lemma_error_text_in(items.drop_last(), n);
    }
}

/// What is found among the first members of an object stays what is found.
proof fn lemma_error_text_in_members(members: Seq<(Seq<char>, JsonTree)>, n: int)
    requires
        0 <= n <= members.len(),
        error_text_in_members(members.take(n)) is Some,
    ensures
        error_text_in_members(members) == error_text_in_members(members.take(n)),
    decreases members.len(),
{
    if n == members.len() {
        assert(members.take(n) =~= members);
    } else {
        assert(members.drop_last().take(n) =~= members.take(n));
        lemma_error_text_in_members(members.drop_last(), n);
    }
}

/// The first text under a `text` key of a document.
pub fn extract_error_text(j: &Json) -> (r: Option<String>)
    ensures
        text::opt_string(r) == error_text(j@),
    decreases j,
{
    match json::get_str(j, "text") {
        Some(s) => {
            return Some(s.clone());
        },
        None => {},
    }
    match j {
        Json::Object(v) => {
            let ghost all = json::member_trees(v@);
            let mut i: usize = 0;
            proof {
                json::lemma_member_trees(v@);
                assert(all.take(0) =~= Seq::empty());
            }
            while i < v.len()
                invariant
                    i <= v@.len(),
                    all == json::member_trees(v@),
                    all.len() == v@.len(),
                    j@ == JsonTree::Object(all),
                    *j == Json::Object(*v),
                    json::text_of(json::lookup(all, "text"@)) is None,
                    forall|k: int|
                        0 <= k < v@.len() ==> #[trigger] all[k] == (v@[k].0@, json::tree(v@[k].1)),
                    error_text_in_members(all.take(i as int)) is None,
                decreases v@.len() - i,
            {
                assert(all.take(i + 1).drop_last() =~= all.take(i as int));
                assert(all.take(i + 1).last() == all[i as int]);
                assert(decreases_to!(j => v@[i as int].1));
                match extract_error_text(&v[i].1) {
                    Some(s) => {
                        proof {
                            lemma_error_text_in_members(all, i + 1);
                        }
                        return Some(s);
                    },
                    None => {},
                }
                i = i + 1;
            }
            assert(all.take(i as int) =~= all);
            None
        },
        Json::Array(v) => {
            let ghost all = json::trees(v@);
            let mut i: usize = 0;
            proof {
                json::lemma_trees(v@);
                assert(all.take(0) =~= Seq::empty());
            }
            while i < v.len()
                invariant
                    i <= v@.len(),
                    all == json::trees(v@),
                    all.len() == v@.len(),
                    j@ == JsonTree::Array(all),
                    *j == Json::Array(*v),
                    forall|k: int| 0 <= k < v@.len() ==> #[trigger] all[k] == json::tree(v@[k]),
                    error_text_in(all.take(i as int)) is None,
                decreases v@.len() - i,
            {
                assert(all.take(i + 1).drop_last() =~= all.take(i as int));
                assert(all.take(i + 1).last() == all[i as int]);
                assert(decreases_to!(j => v@[i as int]));
                match extract_error_text(&v[i]) {
                    Some(s) => {
                        proof {
                            lemma_error_text_in(all, i + 1);
                        }
                        return Some(s);
                    },
                    None => {},
                }
                i = i + 1;
            }
            assert(all.take(i as int) =~= all);
            None
        },
        _ => None,
    }
}

/// Whether a message is that of the block the sentinel is there for. Errors
/// that pass by themselves hold none of these phrases.
pub open spec fn is_policy_message(message: Seq<char>) -> bool {
    letters::mentions(message, "cybersecurity topic"@) || letters::mentions(
        message,
        "cyber-use-case"@,
    ) || letters::mentions(message, "flagged this message for a cybersecurity"@)
        || letters::mentions(message, "unable to respond to this request"@) || letters::mentions(
        message,
        "violate our usage policy"@,
    )
}

/// Whether a message is that of the block the sentinel is there for.
pub fn is_policy_block(message: &str) -> (r: bool)
    ensures
        r == is_policy_message(message@),
{
    proof {
        reveal_strlit("cybersecurity topic");
        reveal_strlit("cyber-use-case");
        reveal_strlit("flagged this message for a cybersecurity");
        reveal_strlit("unable to respond to this request");
        reveal_strlit("violate our usage policy");
    }
    letters::mentions_phrase(message, "cybersecurity topic") || letters::mentions_phrase(
        message,
        "cyber-use-case",
    ) || letters::mentions_phrase(message, "flagged this message for a cybersecurity")
        || letters::mentions_phrase(message, "unable to respond to this request")
        || letters::mentions_phrase(message, "violate our usage policy")
}

/// What an error entry of a transcript says.
pub struct ErrorNote {
    pub error_code: Seq<char>,
    pub message: Seq<char>,
    pub policy: bool,
    pub entrypoint: Seq<char>,
}

/// A text, or another where it is missing.
pub open spec fn or_else(s: Option<Seq<char>>, other: Seq<char>) -> Seq<char> {
    match s {
        Some(s) => s,
        None => other,
    }
}

/// What an error entry says.
pub open spec fn note_of(t: JsonTree) -> ErrorNote {
    let error_code = or_else(json::text_of(json::member(t, "error"@)), "api_error"@);
    let message = or_else(error_text(t), error_code);
    ErrorNote {
        error_code,
        message,
        policy: is_policy_message(message),
        entrypoint: or_else(json::text_of(json::member(t, "entrypoint"@)), ""@),
    }
}

/// The code, the message, whether it is the policy block, and the entrypoint of
/// an error entry.
pub fn classify(j: &Json) -> (r: (String, String, bool, String))
    ensures
        r.0@ == note_of(j@).error_code,
        r.1@ == note_of(j@).message,
        r.2 == note_of(j@).policy,
        r.3@ == note_of(j@).entrypoint,
{
    let error_code = match json::get_str(j, "error") {
        Some(s) => s.clone(),
        None => String::from_str("api_error"),
    };
    let message = match extract_error_text(j) {
        Some(s) => s,
        None => error_code.clone(),
    };
    let policy = is_policy_block(message.as_str());
    let entrypoint = match json::get_str(j, "entrypoint") {
        Some(s) => s.clone(),
        None => String::from_str(""),
    };
    (error_code, message, policy, entrypoint)
}

/// Whether a line of a transcript is marked as an API error.
pub open spec fn is_marked(line: Seq<char>) -> bool {
    text::has_text(line, "\"isApiErrorMessage\":true"@) || text::has_text(
        line,
        "\"isApiErrorMessage\": true"@,
    )
}

/// What a line of a transcript says, where it is an error entry.
pub open spec fn line_note(line: Seq<char>) -> Option<ErrorNote> {
    if !is_marked(line) {
        None
    } else {
        match json::parsed(line) {
            Some(t) => Some(note_of(t)),
            None => None,
        }
    }
}

/// The code, the message, whether it is the policy block, and the entrypoint of
/// a line that is an error entry.
pub fn classify_error_line(line: &str) -> (r: Option<(String, String, bool, String)>)
    ensures
        r is Some <==> line_note(line@) is Some,
        r matches Some(c) ==> {
            let n = line_note(line@)->0;
            c.0@ == n.error_code && c.1@ == n.message && c.2 == n.policy && c.3@ == n.entrypoint
        },
{
    if !text::contains(line, "\"isApiErrorMessage\":true") && !text::contains(
        line,
        "\"isApiErrorMessage\": true",
    ) {
        return None;
    }
    match json::parse(line) {
        Some(j) => Some(classify(&j)),
        None => None,
    }
}

// ---- finding a block ------------------------------------------------------

/// A block found in a transcript.
pub struct ApiErrorHit {
    pub transcript: String,
    pub session_id: String,
    /// What ran the session: `cli`, or `sdk-...` for an automated one.
    pub entrypoint: String,
    pub error_code: String,
    pub message: String,
    pub is_policy_block: bool,
    /// The same for the same line of the same session.
    pub key: String,
}

/// What an `ApiErrorHit` says.
pub struct Hit {
    pub transcript: Seq<char>,
    pub session_id: Seq<char>,
    pub entrypoint: Seq<char>,
    pub error_code: Seq<char>,
    pub message: Seq<char>,
    pub is_policy_block: bool,
    pub key: Seq<char>,
}

impl View for ApiErrorHit {
    type V = Hit;

    open spec fn view(&self) -> Hit {
        Hit {
            transcript: self.transcript@,
            session_id: self.session_id@,
            entrypoint: self.entrypoint@,
            error_code: self.error_code@,
            message: self.message@,
            is_policy_block: self.is_policy_block,
            key: self.key@,
        }
    }
}

/// Whether a line of a transcript holds the policy block.
pub open spec fn is_block(line: Seq<char>) -> bool {
    line_note(line) is Some && line_note(line)->0.policy
}

/// The position of the last line that holds the policy block; -1 where none
/// does.
pub open spec fn last_block(lines: Seq<Seq<char>>) -> int
    decreases lines.len(),
{
    if lines.len() == 0 {
        -1
    } else if is_block(lines.last()) {
        lines.len() - 1
    } else {
        last_block(lines.drop_last())
    }
}

/// The key of an incident.
pub open spec fn incident_key(session: Seq<char>, line: Seq<char>) -> Seq<char> {
    files::safe_label(session) + "-"@ + text::hexadecimal(
        fnv(vstd::utf8::encode_utf8(line)) as nat,
        16,
    )
}

/// The block that a line of a transcript holds. The session is named by the file
/// name of the transcript.
pub open spec fn hit_of(transcript: Seq<char>, name: Seq<char>, line: Seq<char>) -> Hit {
    let n = line_note(line)->0;
    Hit {
        transcript,
        session_id: paths::stem_of(name),
        entrypoint: n.entrypoint,
        error_code: n.error_code,
        message: n.message,
        is_policy_block: n.policy,
        key: incident_key(paths::stem_of(name), line),
    }
}

/// The newest policy block in the tail of a transcript with the path
/// `transcript` and the file name `name`. Every other error is passed over.
pub fn detect_api_error(transcript: &str, name: &str, tail: &str) -> (r: Option<ApiErrorHit>)
    ensures
        ({
            let lines = text::lines_of(tail@);
            let i = last_block(lines);
            match r {
                Some(h) => i >= 0 && h@ == hit_of(transcript@, name@, lines[i]) && h.is_policy_block,
                None => i < 0,
            }
        }),
{
    let lines = text::lines(tail);
    let ghost all = text::lines_of(tail@);
    let mut n: usize = lines.len();
    assert(all.take(n as int) =~= all);
    while n > 0
        invariant
            n <= lines@.len(),
            text::texts(lines@) == all,
            all == text::lines_of(tail@),
            last_block(all) == last_block(all.take(n as int)),
        decreases n,
    {
        let line = lines[n - 1].as_str();
        assert(all.take(n as int).last() == all[n - 1]);
        assert(all[n - 1] == lines@[n - 1]@);
        assert(all.take(n as int).drop_last() =~= all.take(n - 1));
        match classify_error_line(line) {
            Some((error_code, message, policy, entrypoint)) => {
                if policy {
                    let session_id = paths::file_stem(name);
                    let mut key = files::sanitize_label(session_id.as_str());
                    key.append("-");
                    key.append(text::show_hex(fnv1a(line), 16).as_str());
                    return Some(
                        ApiErrorHit {
                            transcript: String::from_str(transcript),
                            session_id,
                            entrypoint,
                            error_code,
                            message,
                            is_policy_block: policy,
                            key,
                        },
                    );
                }
            },
            None => {},
        }
        n = n - 1;
    }
    None
}

// ---- settings -------------------------------------------------------------

/// The settings of the sentinel.
pub struct SentinelConfig {
    pub email: Option<String>,
    pub email_enabled: bool,
    pub desktop_enabled: bool,
    /// Where transcripts are looked for beside the state directory.
    pub extra_project_roots: Vec<String>,
    /// Whether blocks of automated sessions are passed over.
    pub ignore_sdk: bool,
    /// How long no further mail is sent after one.
    pub cooldown_mins: i64,
}

/// The value of a switch that is on unless it says otherwise.
pub fn default_true() -> (r: bool)
    ensures
        r,
{
    true
}

/// The minutes for which no further mail is sent, unless set otherwise.
pub fn default_cooldown() -> (r: i64)
    ensures
        r == 120,
{
    120
}

impl Default for SentinelConfig {
    fn default() -> (r: Self)
        ensures
            r.email is None,
            !r.email_enabled,
            r.desktop_enabled,
            r.extra_project_roots@.len() == 0,
            r.ignore_sdk,
            r.cooldown_mins == 120,
    {
        SentinelConfig {
            email: None,
            email_enabled: false,
            desktop_enabled: default_true(),
            extra_project_roots: Vec::new(),
            ignore_sdk: default_true(),
            cooldown_mins: default_cooldown(),
        }
    }
}

/// What a setup is asked for.
pub enum Setup {
    NoEmail,
    Email(String),
    /// What was typed at the prompt for an address.
    Typed(String),
    /// Nothing is asked for, and nobody is there to ask.
    Nothing,
}

/// The address and whether mail is on, once a setup is done.
pub open spec fn set_up(
    email: Option<Seq<char>>,
    enabled: bool,
    setup: Setup,
) -> (Option<Seq<char>>, bool) {
    match setup {
        Setup::NoEmail => (email, false),
        Setup::Email(e) => (Some(e@), true),
        Setup::Typed(line) => if text::trimmed(line@).len() == 0 {
            (email, false)
        } else {
            (Some(text::trimmed(line@)), true)
        },
        Setup::Nothing => (email, enabled),
    }
}

/// The settings once a setup is done, which touches the mail only, and the line
/// it prints.
pub fn configure(cfg: SentinelConfig, setup: Setup) -> (r: (SentinelConfig, String))
    ensures
        (text::opt_string(r.0.email), r.0.email_enabled) == set_up(
            text::opt_string(cfg.email),
            cfg.email_enabled,
            setup,
        ),
        r.0.desktop_enabled == cfg.desktop_enabled,
        r.0.extra_project_roots == cfg.extra_project_roots,
        r.0.ignore_sdk == cfg.ignore_sdk,
        r.0.cooldown_mins == cfg.cooldown_mins,
        r.1@ == "{\"desktop_enabled\":"@ + json::bool_of(r.0.desktop_enabled) + ",\"email\":"@
            + json::quoted_or_null(text::opt_string(r.0.email)) + ",\"email_enabled\":"@
            + json::bool_of(r.0.email_enabled) + "}"@,
{
    let (email, email_enabled) = match setup {
        Setup::NoEmail => (cfg.email, false),
        Setup::Email(e) => (Some(e), true),
        Setup::Typed(line) => {
            let e = text::trim(line.as_str());
            if e.as_str().is_empty() {
                (cfg.email, false)
            } else {
                (Some(e), true)
            }
        },
        Setup::Nothing => (cfg.email, cfg.email_enabled),
    };
    let mut report = String::from_str("{\"desktop_enabled\":");
    report.append(json::show_bool(cfg.desktop_enabled));
    report.append(",\"email\":");
    match &email {
        Some(e) => report.append(json::quote(e.as_str()).as_str()),
        None => report.append("null"),
    }
    report.append(",\"email_enabled\":");
    report.append(json::show_bool(email_enabled));
    report.append("}");
    (
        SentinelConfig {
            email,
            email_enabled,
            desktop_enabled: cfg.desktop_enabled,
            extra_project_roots: cfg.extra_project_roots,
            ignore_sdk: cfg.ignore_sdk,
            cooldown_mins: cfg.cooldown_mins,
        },
        report,
    )
}

/// Where transcripts are looked for: in the state directory first.
pub fn projects_roots(dir: &str, cfg: &SentinelConfig) -> (r: Vec<String>)
    ensures
        text::texts(r@) == seq![paths::under(dir@, "projects"@)] + text::texts(
            cfg.extra_project_roots@,
        ),
{
    let mut roots: Vec<String> = Vec::new();
    roots.push(paths::join(dir, "projects"));
    let mut i: usize = 0;
    let ghost want = seq![paths::under(dir@, "projects"@)] + text::texts(cfg.extra_project_roots@);
    assert(text::texts(roots@) =~= want.take(1));
    while i < cfg.extra_project_roots.len()
        invariant
            i <= cfg.extra_project_roots@.len(),
            want == seq![paths::under(dir@, "projects"@)] + text::texts(cfg.extra_project_roots@),
            text::texts(roots@) == want.take(i + 1),
        decreases cfg.extra_project_roots@.len() - i,
    {
        let ghost was = roots@;
        roots.push(cfg.extra_project_roots[i].clone());
        proof {
            text::lemma_texts_push(was, roots@.last());
            assert(want[i + 1] == cfg.extra_project_roots@[i as int]@);
            assert(text::texts(roots@) =~= want.take(i + 2));
        }
        i = i + 1;
    }
    assert(want.take(i + 1) =~= want);
    roots
}

// ---- recent transcripts ---------------------------------------------------

/// A file under a place where transcripts are looked for.
pub struct Candidate {
    pub path: String,
    pub name: String,
    /// When it was last changed, in seconds since 1970.
    pub mtime: i64,
}

/// The path of a file and when it was changed.
pub open spec fn dated(c: Candidate) -> (Seq<char>, i64) {
    (c.path@, c.mtime)
}

/// Whether a file is a transcript that was changed since.
pub open spec fn is_recent(c: Candidate, cutoff: int) -> bool {
    paths::extension_is(c.name@, "jsonl"@) && c.mtime >= cutoff
}

/// A list with one more file, behind all that are as new or newer.
pub open spec fn placed(v: Seq<(Seq<char>, i64)>, x: (Seq<char>, i64)) -> Seq<(Seq<char>, i64)>
    decreases v.len(),
{
    if v.len() == 0 || v.last().1 >= x.1 {
        v.push(x)
    } else {
        placed(v.drop_last(), x).push(v.last())
    }
}

/// The recent transcripts of a list, the newest first; those of the same second
/// in the order of the list.
pub open spec fn newest(v: Seq<Candidate>, cutoff: int) -> Seq<(Seq<char>, i64)>
    decreases v.len(),
{
    if v.len() == 0 {
        Seq::empty()
    } else if is_recent(v.last(), cutoff) {
        placed(newest(v.drop_last(), cutoff), dated(v.last()))
    } else {
        newest(v.drop_last(), cutoff)
    }
}

/// A dated path as a pair of its text and its date.
pub open spec fn dated_texts(v: Seq<(String, i64)>) -> Seq<(Seq<char>, i64)> {
    v.map_values(|p: (String, i64)| (p.0@, p.1))
}

/// The paths of a list of dated paths.
pub open spec fn paths_of(v: Seq<(Seq<char>, i64)>) -> Seq<Seq<char>> {
    v.map_values(|p: (Seq<char>, i64)| p.0)
}

/// A list goes on unchanged behind the place of a new file.
proof fn lemma_placed_behind(v: Seq<(Seq<char>, i64)>, x: (Seq<char>, i64), k: int)
    requires
        0 <= k <= v.len(),
        k == 0 || v[k - 1].1 >= x.1,
        forall|i: int| k <= i < v.len() ==> v[i].1 < x.1,
    ensures
        placed(v, x) == v.take(k).push(x) + v.skip(k),
    decreases v.len(),
{
    if k == v.len() {
        assert(v.take(k).push(x) + v.skip(k) =~= v.push(x));
    } else {
        let w = v.drop_last();
        lemma_placed_behind(w, x, k);
        assert(w.take(k) =~= v.take(k));
        assert(w.skip(k).push(v.last()) =~= v.skip(k));
        assert(placed(v, x) =~= v.take(k).push(x) + v.skip(k));
    }
}

/// Puts a file into a list that has the newest first.
fn place(v: &mut Vec<(String, i64)>, path: String, mtime: i64)
    ensures
        dated_texts(final(v)@) == placed(dated_texts(old(v)@), (path@, mtime)),
{
    let ghost before = dated_texts(v@);
    let mut k: usize = v.len();
    while k > 0 && v[k - 1].1 < mtime
        invariant
            k <= v@.len(),
            *v == *old(v),
            before == dated_texts(v@),
            forall|i: int| k <= i < v@.len() ==> before[i].1 < mtime,
        decreases k,
    {
        k = k - 1;
        assert(before[k as int].1 == v@[k as int].1);
    }
    proof {
        if k > 0 {
            assert(before[k - 1].1 == v@[k - 1].1);
        }
        lemma_placed_behind(before, (path@, mtime), k as int);
    }
    v.insert(k, (path, mtime));
    assert(dated_texts(v@) =~= before.take(k as int).push((path@, mtime)) + before.skip(k as int));
}

/// The transcripts changed within the last `within_mins` minutes, the newest
/// first.
pub fn recent_transcripts(files: &Vec<Candidate>, now_secs: i64, within_mins: i64) -> (r: Vec<
    String,
>)
    requires
        within_mins > 0 ==> within_mins * 60 <= i64::MAX && now_secs - within_mins * 60 >= i64::MIN,
    ensures
        text::texts(r@) == paths_of(
            newest(
                files@,
                now_secs - (if within_mins > 0 {
                    within_mins * 60
                } else {
                    0
                }),
            ),
        ),
{
    let window: i64 = if within_mins > 0 {
        within_mins
    } else {
        0
    };
    let cutoff: i64 = now_secs - window * 60;
    let mut found: Vec<(String, i64)> = Vec::new();
    let mut i: usize = 0;
    assert(files@.take(0) =~= Seq::empty());
    assert(dated_texts(found@) =~= Seq::empty());
    while i < files.len()
        invariant
            i <= files@.len(),
            dated_texts(found@) == newest(files@.take(i as int), cutoff as int),
        decreases files@.len() - i,
    {
        assert(files@.take(i + 1).drop_last() =~= files@.take(i as int));
        let f = &files[i];
        if paths::has_ext(f.name.as_str(), "jsonl") && f.mtime >= cutoff {
            place(&mut found, f.path.clone(), f.mtime);
        }
        i = i + 1;
    }
    assert(files@.take(i as int) =~= files@);
    let ghost sorted = dated_texts(found@);
    let mut out: Vec<String> = Vec::new();
    let mut j: usize = 0;
    while j < found.len()
        invariant
            j <= found@.len(),
            sorted == dated_texts(found@),
            text::texts(out@) == paths_of(sorted).take(j as int),
        decreases found@.len() - j,
    {
        let ghost was = out@;
        out.push(found[j].0.clone());
        proof {
            text::lemma_texts_push(was, out@.last());
            assert(sorted[j as int] == (found@[j as int].0@, found@[j as int].1));
            assert(paths_of(sorted)[j as int] == found@[j as int].0@);
            assert(text::texts(out@) =~= paths_of(sorted).take(j + 1));
        }
        j = j + 1;
    }
    assert(paths_of(sorted).take(j as int) =~= paths_of(sorted));
    out
}

// ---- what follows from a block --------------------------------------------

/// Whether mail was sent less than that many minutes ago.
pub open spec fn cooling(last: Option<Seq<char>>, cooldown_mins: i64, now: Moment) -> bool {
    match last {
        Some(s) => match clock::rfc3339_moment(text::trimmed(s)) {
            Some(then) => clock::minutes_between(now, then) < cooldown_mins,
            None => false,
        },
        None => false,
    }
}

/// Whether the last mail was sent less than that many minutes ago.
pub fn in_cooldown_since(last: Option<Moment>, cooldown_mins: i64, now: Moment) -> (r: bool)
    requires
        now.wf(),
        last matches Some(t) ==> t.wf(),
    ensures
        r == (last is Some && clock::minutes_between(now, last->0) < cooldown_mins),
{
    match last {
        Some(then) => clock::whole_minutes(now, then) < cooldown_mins,
        None => false,
    }
}

/// Whether mail was sent less than that many minutes ago, going by the text that
/// says when.
pub fn email_in_cooldown(last_iso: Option<&str>, cooldown_mins: i64, now: Moment) -> (r: bool)
    requires
        now.wf(),
    ensures
        r == cooling(text::opt(last_iso), cooldown_mins, now),
{
    match last_iso {
        Some(s) => in_cooldown_since(
            clock::parse_rfc3339(text::trim(s).as_str()),
            cooldown_mins,
            now,
        ),
        None => false,
    }
}

/// Whether a session is an automated one.
pub open spec fn is_automated(entrypoint: Seq<char>) -> bool {
    text::begins(entrypoint, "sdk"@)
}

/// What the sentinel does.
#[derive(Clone, Copy, Debug, PartialEq, Eq, Structural)]
pub enum Verdict {
    /// There is no block.
    Healthy,
    /// The block is one of an automated session.
    IgnoredSdk,
    /// The block was acted on before.
    AlreadyActioned,
    /// Stop the loops, keep the conversation, tell the user.
    Act,
}

/// What the sentinel does about a block.
pub open spec fn verdict_on(hit: Option<Hit>, ignore_sdk: bool, actioned: bool) -> Verdict {
    match hit {
        None => Verdict::Healthy,
        Some(h) => if ignore_sdk && is_automated(h.entrypoint) {
            Verdict::IgnoredSdk
        } else if actioned {
            Verdict::AlreadyActioned
        } else {
            Verdict::Act
        },
    }
}

/// Whether a block is passed over because its session is an automated one.
pub fn ignores(hit: &ApiErrorHit, ignore_sdk: bool) -> (r: bool)
    ensures
        r == (verdict_on(Some(hit@), ignore_sdk, false) == Verdict::IgnoredSdk),
{
    ignore_sdk && text::starts_with(hit.entrypoint.as_str(), "sdk")
}

/// What the sentinel does about a block; `actioned` says whether it has the
/// marker of that incident.
pub fn verdict(hit: Option<&ApiErrorHit>, ignore_sdk: bool, actioned: bool) -> (r: Verdict)
    ensures
        r == verdict_on(
            match hit {
                Some(h) => Some(h@),
                None => None,
            },
            ignore_sdk,
            actioned,
        ),
{
    match hit {
        None => Verdict::Healthy,
        Some(h) => if ignores(h, ignore_sdk) {
            Verdict::IgnoredSdk
        } else if actioned {
            Verdict::AlreadyActioned
        } else {
            Verdict::Act
        },
    }
}

/// Whether the sentinel acts on a hit: a policy block that is neither passed
/// over nor has the marker of its incident.
pub open spec fn calls(h: Hit, actioned: bool, ignore_sdk: bool) -> bool {
    h.is_policy_block && verdict_on(Some(h), ignore_sdk, actioned) == Verdict::Act
}

/// What hits say.
pub open spec fn hits(found: Seq<ApiErrorHit>) -> Seq<Hit> {
    found.map_values(|h: ApiErrorHit| h@)
}

/// The place of the hit to act on: the first one that calls for it.
pub open spec fn search(found: Seq<Hit>, actioned: Seq<bool>, ignore_sdk: bool) -> Option<int>
    decreases found.len(),
{
    if found.len() == 0 {
        None
    } else {
        match search(found.drop_last(), actioned, ignore_sdk) {
            Some(i) => Some(i),
            None => if calls(found.last(), actioned[found.len() - 1], ignore_sdk) {
                Some(found.len() - 1)
            } else {
                None
            },
        }
    }
}

/// The place of the hit to act on, among those found in the transcripts from the
/// newest on; `actioned` says which of them have the marker of their incident.
pub fn choose_hit(found: &Vec<ApiErrorHit>, actioned: &Vec<bool>, ignore_sdk: bool) -> (r: Option<
    usize,
>)
    requires
        actioned@.len() == found@.len(),
    ensures
        match r {
            Some(i) => search(hits(found@), actioned@, ignore_sdk) == Some(i as int),
            None => search(hits(found@), actioned@, ignore_sdk) is None,
        },
        match r {
            Some(i) => i < found@.len() && calls(
                found@[i as int]@,
                actioned@[i as int],
                ignore_sdk,
            ) && forall|j: int|
                0 <= j < i ==> !calls(#[trigger] found@[j]@, actioned@[j], ignore_sdk),
            None => forall|j: int|
                0 <= j < found@.len() ==> !calls(#[trigger] found@[j]@, actioned@[j], ignore_sdk),
        },
{
    let ghost all = hits(found@);
    let mut i: usize = 0;
    assert(all.take(0) =~= Seq::empty());
    while i < found.len()
        invariant
            i <= found@.len(),
            actioned@.len() == found@.len(),
            all == hits(found@),
            search(all.take(i as int), actioned@, ignore_sdk) is None,
            forall|j: int|
                0 <= j < i ==> !calls(#[trigger] found@[j]@, actioned@[j], ignore_sdk),
        decreases found@.len() - i,
    {
        proof {
            assert(all.take(i + 1).drop_last() =~= all.take(i as int));
            assert(all.take(i + 1).last() == found@[i as int]@);
        }
        if found[i].is_policy_block && verdict(Some(&found[i]), ignore_sdk, actioned[i])
            == Verdict::Act {
            proof {
                first_call_decides(all, actioned@, ignore_sdk, i as int);
            }
            return Some(i);
        }
        i = i + 1;
    }
    assert(all.take(i as int) =~= all);
    None
}

/// The line printed where the sentinel has nothing to do.
pub open spec fn quiet_text(hit: Option<Hit>, v: Verdict) -> Seq<char> {
    match (hit, v) {
        (Some(h), Verdict::IgnoredSdk) => "{\"entrypoint\":"@ + json::quoted(h.entrypoint)
            + ",\"session\":"@ + json::quoted(h.session_id)
            + ",\"status\":\"ignored-sdk-subagent\"}"@,
        (Some(h), Verdict::AlreadyActioned) => "{\"key\":"@ + json::quoted(h.key)
            + ",\"status\":\"already-actioned\"}"@,
        _ => "{\"status\":\"healthy\"}"@,
    }
}

/// The line printed where the sentinel has nothing to do.
pub fn quiet_report(hit: Option<&ApiErrorHit>, v: Verdict) -> (r: String)
    ensures
        r@ == quiet_text(
            match hit {
                Some(h) => Some(h@),
                None => None,
            },
            v,
        ),
{
    match (hit, v) {
        (Some(h), Verdict::IgnoredSdk) => {
            let mut r = String::from_str("{\"entrypoint\":");
            r.append(json::quote(h.entrypoint.as_str()).as_str());
            r.append(",\"session\":");
            r.append(json::quote(h.session_id.as_str()).as_str());
            r.append(",\"status\":\"ignored-sdk-subagent\"}");
            r
        },
        (Some(h), Verdict::AlreadyActioned) => {
            let mut r = String::from_str("{\"key\":");
            r.append(json::quote(h.key.as_str()).as_str());
            r.append(",\"status\":\"already-actioned\"}");
            r
        },
        _ => String::from_str("{\"status\":\"healthy\"}"),
    }
}

/// The line printed where no hit calls for action, on the first of them.
pub fn stand_down(found: &Vec<ApiErrorHit>, actioned: &Vec<bool>, ignore_sdk: bool) -> (r: String)
    requires
        actioned@.len() == found@.len(),
    ensures
        r@ == (if found@.len() == 0 {
            quiet_text(None, Verdict::Healthy)
        } else {
            quiet_text(
                Some(found@[0]@),
                verdict_on(Some(found@[0]@), ignore_sdk, actioned@[0]),
            )
        }),
{
    if found.len() == 0 {
        quiet_report(None, Verdict::Healthy)
    } else {
        quiet_report(Some(&found[0]), verdict(Some(&found[0]), ignore_sdk, actioned[0]))
    }
}

/// Whether the sentinel stops the loop in a directory of that name: one that is
/// running and not stopped already. Names with a leading dot are no loops.
pub open spec fn to_stop(name: Seq<char>, st: journal::Standing) -> bool {
    !text::begins(name, "."@) && st.last is Some && (st.last->0).0 == "start"@ && !st.disabled
}

/// Whether the sentinel stops the loop in a directory of that name.
pub fn stops(name: &str, last: Option<&LoopEvent>, disabled: bool) -> (r: bool)
    ensures
        r == to_stop(name@, journal::Standing { last: journal::position(last), disabled }),
{
    if text::starts_with(name, ".") || disabled {
        return false;
    }
    match last {
        Some(e) => text::same(e.event.as_str(), "start"),
        None => false,
    }
}

/// What is said of the kind of a block.
pub open spec fn kind_suffix(policy: bool, words: Seq<char>) -> Seq<char> {
    if policy {
        words
    } else {
        ""@
    }
}

/// Why the sentinel stops a loop.
pub open spec fn stop_reason_text(h: Hit) -> Seq<char> {
    "sentinel: API error ("@ + h.error_code + ") in session "@ + h.session_id
        + " — loop DISABLED so it can't iterate into the block"@ + kind_suffix(
        h.is_policy_block,
        " (usage-policy / classifier block)"@,
    )
}

/// Why the sentinel stops a loop.
pub fn stop_reason(h: &ApiErrorHit) -> (r: String)
    ensures
        r@ == stop_reason_text(h@),
{
    let mut r = String::from_str("sentinel: API error (");
    r.append(h.error_code.as_str());
    r.append(") in session ");
    r.append(h.session_id.as_str());
    r.append(" — loop DISABLED so it can't iterate into the block");
    r.append(
        if h.is_policy_block {
            " (usage-policy / classifier block)"
        } else {
            ""
        },
    );
    r
}

/// Where the conversation of an incident is kept.
pub open spec fn incident_root(dir: Seq<char>, stamp: Seq<char>) -> Seq<char> {
    paths::under(files::checkpoint_root(dir), "api-incident-"@ + stamp)
}

/// Where the conversation of an incident is kept.
pub fn incident_dir(dir: &str, stamp: &str) -> (r: String)
    ensures
        r@ == incident_root(dir@, stamp@),
{
    let mut name = String::from_str("api-incident-");
    name.append(stamp);
    paths::join(files::loop_ckpt_root(dir).as_str(), name.as_str())
}

/// What is kept beside a conversation: how to take it up again.
pub open spec fn resume_text(h: Hit, stamp: Seq<char>) -> Seq<char> {
    "# API-error incident — "@ + stamp + "\n\nA loop/session hit an API error"@ + kind_suffix(
        h.is_policy_block,
        " (usage-policy / cybersecurity-classifier block)"@,
    ) + ".\n\n- **Error code:** `"@ + h.error_code + "`\n- **Message:** "@ + text::replaced(
        h.message,
        '\n',
        " "@,
    ) + "\n- **Session id:** `"@ + h.session_id + "`\n- **Original transcript:** `"@ + h.transcript
        + "`\n- **Full backup copy:** `transcript.jsonl` (this dir)\n\n## Resume (canonical)\nRe-attach to the original session — the entire conversation comes back:\n\n```sh\nclaude --resume "@
        + h.session_id
        + package::titled(
            "\n```\n\nIf that session is gone, `transcript.jsonl` here is the complete raw\nconversation (every turn "@,
            " Code wrote, independent of checkpoint/rewind).\nOpen it or feed it to a fresh session to review + continue.\n\n## Why the loop stopped\nThe sentinel DISABLED all running loops so they don't iterate into the same\nblock. Re-arm a fixed loop with `"@,
        ) + package::named(""@, "-loop guard --label <L> --reset`.\n"@)
}

/// What is kept beside a conversation: how to take it up again.
pub fn resume_note(h: &ApiErrorHit, stamp: &str) -> (r: String)
    ensures
        r@ == resume_text(h@, stamp@),
{
    let mut r = String::from_str("# API-error incident — ");
    r.append(stamp);
    r.append("\n\nA loop/session hit an API error");
    r.append(
        if h.is_policy_block {
            " (usage-policy / cybersecurity-classifier block)"
        } else {
            ""
        },
    );
    r.append(".\n\n- **Error code:** `");
    r.append(h.error_code.as_str());
    r.append("`\n- **Message:** ");
    r.append(text::replace_char(h.message.as_str(), '\n', " ").as_str());
    r.append("\n- **Session id:** `");
    r.append(h.session_id.as_str());
    r.append("`\n- **Original transcript:** `");
    r.append(h.transcript.as_str());
    r.append(
        "`\n- **Full backup copy:** `transcript.jsonl` (this dir)\n\n## Resume (canonical)\nRe-attach to the original session — the entire conversation comes back:\n\n```sh\nclaude --resume ",
    );
    r.append(h.session_id.as_str());
    r.append(
        package::title_in(
            "\n```\n\nIf that session is gone, `transcript.jsonl` here is the complete raw\nconversation (every turn ",
            " Code wrote, independent of checkpoint/rewind).\nOpen it or feed it to a fresh session to review + continue.\n\n## Why the loop stopped\nThe sentinel DISABLED all running loops so they don't iterate into the same\nblock. Re-arm a fixed loop with `",
        ).as_str(),
    );
    r.append(package::name_in("", "-loop guard --label <L> --reset`.\n").as_str());
    r
}

// ---- telling the user -----------------------------------------------------

/// The title of a notification.
pub open spec fn notice_title_text(policy: bool) -> Seq<char> {
    if policy {
        package::titled(""@, " Code blocked (usage-policy)"@)
    } else {
        package::titled(""@, " Code API error"@)
    }
}

/// The title of a notification.
pub fn notice_title(policy: bool) -> (r: String)
    ensures
        r@ == notice_title_text(policy),
{
    if policy {
        package::title_in("", " Code blocked (usage-policy)")
    } else {
        package::title_in("", " Code API error")
    }
}

/// The body of a notification.
pub open spec fn notice_body_text(h: Hit, stopped: nat, backup: Seq<char>) -> Seq<char> {
    h.error_code + " — session "@ + h.session_id + " stopped "@ + text::decimal(stopped)
        + " loop(s). Backup + RESUME.md: "@ + backup
}

/// The body of a notification.
pub fn notice_body(h: &ApiErrorHit, stopped: usize, backup: &str) -> (r: String)
    ensures
        r@ == notice_body_text(h@, stopped as nat, backup@),
{
    let mut r = h.error_code.clone();
    r.append(" — session ");
    r.append(h.session_id.as_str());
    r.append(" stopped ");
    r.append(text::show_usize(stopped).as_str());
    r.append(" loop(s). Backup + RESUME.md: ");
    r.append(backup);
    r
}

/// The command that shows a notification on a system, and its arguments.
pub open spec fn notice_command_text(
    os: Seq<char>,
    title: Seq<char>,
    body: Seq<char>,
) -> Option<(Seq<char>, Seq<Seq<char>>)> {
    if os == "linux"@ {
        Some(("notify-send"@, seq!["-u"@, "critical"@, title, body]))
    } else if os == "macos"@ {
        Some(
            (
                "osascript"@,
                seq![
                    "-e"@,
                    "display notification \""@ + text::replaced(body, '"', "'"@)
                        + "\" with title \""@ + text::replaced(title, '"', "'"@) + "\""@,
                ],
            ),
        )
    } else if os == "windows"@ {
        Some(
            (
                "powershell"@,
                seq![
                    "-NoProfile"@,
                    "-Command"@,
                    "New-BurntToastNotification -Text '"@ + text::replaced(title, '\'', "`'"@)
                        + "','"@ + text::replaced(body, '\'', "`'"@) + "'"@,
                ],
            ),
        )
    } else {
        None
    }
}

/// The command that shows a notification on a system, and its arguments; `None`
/// for a system that none is known for.
pub fn notice_command(os: &str, title: &str, body: &str) -> (r: Option<(String, Vec<String>)>)
    ensures
        match r {
            Some(c) => notice_command_text(os@, title@, body@) == Some(
                (c.0@, text::texts(c.1@)),
            ),
            None => notice_command_text(os@, title@, body@) is None,
        },
{
    let mut args: Vec<String> = Vec::new();
    if text::same(os, "linux") {
        args.push(String::from_str("-u"));
        args.push(String::from_str("critical"));
        args.push(String::from_str(title));
        args.push(String::from_str(body));
        assert(text::texts(args@) =~= seq!["-u"@, "critical"@, title@, body@]);
        Some((String::from_str("notify-send"), args))
    } else if text::same(os, "macos") {
        let mut script = String::from_str("display notification \"");
        script.append(text::replace_char(body, '"', "'").as_str());
        script.append("\" with title \"");
        script.append(text::replace_char(title, '"', "'").as_str());
        script.append("\"");
        let ghost shown = script@;
        args.push(String::from_str("-e"));
        args.push(script);
        assert(text::texts(args@) =~= seq!["-e"@, shown]);
        Some((String::from_str("osascript"), args))
    } else if text::same(os, "windows") {
        let mut script = String::from_str("New-BurntToastNotification -Text '");
        script.append(text::replace_char(title, '\'', "`'").as_str());
        script.append("','");
        script.append(text::replace_char(body, '\'', "`'").as_str());
        script.append("'");
        let ghost shown = script@;
        args.push(String::from_str("-NoProfile"));
        args.push(String::from_str("-Command"));
        args.push(script);
        assert(text::texts(args@) =~= seq!["-NoProfile"@, "-Command"@, shown]);
        Some((String::from_str("powershell"), args))
    } else {
        None
    }
}

/// The address that mail about an incident goes to, where it goes out.
pub fn mail_recipient<'a>(cfg: &'a SentinelConfig, in_cooldown: bool) -> (r: Option<&'a String>)
    ensures
        r is Some <==> cfg.email_enabled && !in_cooldown && cfg.email is Some,
        r matches Some(a) ==> *a == cfg.email->0,
{
    if cfg.email_enabled && !in_cooldown {
        match &cfg.email {
            Some(a) => Some(a),
            None => None,
        }
    } else {
        None
    }
}

/// The names of a list as JSON strings.
pub open spec fn quoted_all(v: Seq<Seq<char>>) -> Seq<Seq<char>> {
    v.map_values(|s: Seq<char>| json::quoted(s))
}

/// The line printed where the sentinel has acted.
pub open spec fn action_text(
    h: Hit,
    stopped: Seq<Seq<char>>,
    backup: Seq<char>,
    desktop: bool,
    emailed: bool,
    in_cooldown: bool,
) -> Seq<char> {
    "{\"backup\":"@ + json::quoted(backup) + ",\"entrypoint\":"@ + json::quoted(h.entrypoint)
        + ",\"error\":"@ + json::quoted(h.error_code) + ",\"loops_stopped\":"@ + json::array_of(
        quoted_all(stopped),
    ) + ",\"notified\":{\"desktop\":"@ + json::bool_of(desktop) + ",\"email\":"@ + json::bool_of(
        emailed,
    ) + ",\"email_suppressed_cooldown\":"@ + json::bool_of(in_cooldown)
        + "},\"policy_block\":"@ + json::bool_of(h.is_policy_block) + ",\"session\":"@
        + json::quoted(h.session_id) + ",\"status\":\"ACTIONED\"}"@
}

/// The line printed where the sentinel has acted.
pub fn action_report(
    h: &ApiErrorHit,
    stopped: &Vec<String>,
    backup: &str,
    desktop: bool,
    emailed: bool,
    in_cooldown: bool,
) -> (r: String)
    ensures
        r@ == action_text(h@, text::texts(stopped@), backup@, desktop, emailed, in_cooldown),
{
    let mut names: Vec<String> = Vec::new();
    let ghost want = quoted_all(text::texts(stopped@));
    let mut i: usize = 0;
    while i < stopped.len()
        invariant
            i <= stopped@.len(),
            want == quoted_all(text::texts(stopped@)),
            text::texts(names@) == want.take(i as int),
        decreases stopped@.len() - i,
    {
        let ghost was = names@;
        names.push(json::quote(stopped[i].as_str()));
        proof {
            text::lemma_texts_push(was, names@.last());
            assert(text::texts(names@) =~= want.take(i + 1));
        }
        i = i + 1;
    }
    assert(want.take(i as int) =~= want);
    let mut r = String::from_str("{\"backup\":");
    r.append(json::quote(backup).as_str());
    r.append(",\"entrypoint\":");
    r.append(json::quote(h.entrypoint.as_str()).as_str());
    r.append(",\"error\":");
    r.append(json::quote(h.error_code.as_str()).as_str());
    r.append(",\"loops_stopped\":");
    r.append(json::array(&names).as_str());
    r.append(",\"notified\":{\"desktop\":");
    r.append(json::show_bool(desktop));
    r.append(",\"email\":");
    r.append(json::show_bool(emailed));
    r.append(",\"email_suppressed_cooldown\":");
    r.append(json::show_bool(in_cooldown));
    r.append("},\"policy_block\":");
    r.append(json::show_bool(h.is_policy_block));
    r.append(",\"session\":");
    r.append(json::quote(h.session_id.as_str()).as_str());
    r.append(",\"status\":\"ACTIONED\"}");
    r
}

// ---- looking without acting -----------------------------------------------

/// The newest error of a transcript.
pub struct ScanRow {
    pub session: String,
    pub entrypoint: String,
    pub error: String,
    pub policy_block: bool,
    pub would_alert: bool,
    pub snippet: String,
}

/// What a `ScanRow` says.
pub struct Row {
    pub session: Seq<char>,
    pub entrypoint: Seq<char>,
    pub error: Seq<char>,
    pub policy_block: bool,
    pub would_alert: bool,
    pub snippet: Seq<char>,
}

impl View for ScanRow {
    type V = Row;

    open spec fn view(&self) -> Row {
        Row {
            session: self.session@,
            entrypoint: self.entrypoint@,
            error: self.error@,
            policy_block: self.policy_block,
            would_alert: self.would_alert,
            snippet: self.snippet@,
        }
    }
}

/// The position of the last line that is an error entry; -1 where none is.
pub open spec fn last_error(lines: Seq<Seq<char>>) -> int
    decreases lines.len(),
{
    if lines.len() == 0 {
        -1
    } else if line_note(lines.last()) is Some {
        lines.len() - 1
    } else {
        last_error(lines.drop_last())
    }
}

/// What a scan says of an error entry.
pub open spec fn row_of(name: Seq<char>, n: ErrorNote, ignore_sdk: bool) -> Row {
    Row {
        session: paths::stem_of(name),
        entrypoint: n.entrypoint,
        error: n.error_code,
        policy_block: n.policy,
        would_alert: n.policy && !(ignore_sdk && is_automated(n.entrypoint)),
        snippet: text::first_chars(n.message, 100),
    }
}

/// The newest error in the tail of a transcript.
pub fn scan_transcript(name: &str, tail: &str, ignore_sdk: bool) -> (r: Option<ScanRow>)
    ensures
        ({
            let lines = text::lines_of(tail@);
            let i = last_error(lines);
            match r {
                Some(row) => i >= 0 && row@ == row_of(name@, line_note(lines[i])->0, ignore_sdk),
                None => i < 0,
            }
        }),
{
    let lines = text::lines(tail);
    let ghost all = text::lines_of(tail@);
    let mut n: usize = lines.len();
    assert(all.take(n as int) =~= all);
    while n > 0
        invariant
            n <= lines@.len(),
            text::texts(lines@) == all,
            all == text::lines_of(tail@),
            last_error(all) == last_error(all.take(n as int)),
        decreases n,
    {
        assert(all.take(n as int).last() == all[n - 1]);
        assert(all[n - 1] == lines@[n - 1]@);
        assert(all.take(n as int).drop_last() =~= all.take(n - 1));
        match classify_error_line(lines[n - 1].as_str()) {
            Some((error, message, policy_block, entrypoint)) => {
                let would_alert = policy_block && !(ignore_sdk && text::starts_with(
                    entrypoint.as_str(),
                    "sdk",
                ));
                let snippet = text::take_chars(message.as_str(), 100);
                return Some(
                    ScanRow {
                        session: paths::file_stem(name),
                        entrypoint,
                        error,
                        policy_block,
                        would_alert,
                        snippet,
                    },
                );
            },
            None => {},
        }
        n = n - 1;
    }
    None
}

/// How many rows are policy blocks, and how many of them would alert.
pub open spec fn tally(rows: Seq<ScanRow>) -> (nat, nat)
    decreases rows.len(),
{
    if rows.len() == 0 {
        (0, 0)
    } else {
        let t = tally(rows.drop_last());
        (
            t.0 + (if rows.last().policy_block {
                1nat
            } else {
                0
            }),
            t.1 + (if rows.last().would_alert {
                1nat
            } else {
                0
            }),
        )
    }
}

/// How many rows are policy blocks, and how many of them would alert.
pub fn count_rows(rows: &Vec<ScanRow>) -> (r: (usize, usize))
    ensures
        (r.0 as nat, r.1 as nat) == tally(rows@),
{
    let mut policy: usize = 0;
    let mut alert: usize = 0;
    let mut i: usize = 0;
    assert(rows@.take(0) =~= Seq::empty());
    while i < rows.len()
        invariant
            i <= rows.len(),
            policy <= i,
            alert <= i,
            (policy as nat, alert as nat) == tally(rows@.take(i as int)),
        decreases rows@.len() - i,
    {
        assert(rows@.take(i + 1).drop_last() =~= rows@.take(i as int));
        if rows[i].policy_block {
            policy = policy + 1;
        }
        if rows[i].would_alert {
            alert = alert + 1;
        }
        i = i + 1;
    }
    assert(rows@.take(i as int) =~= rows@);
    (policy, alert)
}

/// A row of a scan as a document.
pub open spec fn row_tree(r: Row) -> JsonTree {
    JsonTree::Object(
        seq![
            ("entrypoint"@, JsonTree::Str(r.entrypoint)),
            ("error"@, JsonTree::Str(r.error)),
            ("policy_block"@, JsonTree::Bool(r.policy_block)),
            ("session"@, JsonTree::Str(r.session)),
            ("snippet"@, JsonTree::Str(r.snippet)),
            ("would_alert"@, JsonTree::Bool(r.would_alert)),
        ],
    )
}

/// The rows of a scan as documents.
pub open spec fn row_trees(v: Seq<ScanRow>) -> Seq<JsonTree> {
    v.map_values(|r: ScanRow| row_tree(r@))
}

/// What a scan found.
pub open spec fn scan_tree(v: Seq<ScanRow>, within_mins: int) -> JsonTree {
    JsonTree::Object(
        seq![
            ("policy_blocks"@, JsonTree::Number(text::decimal(tally(v).0))),
            ("rows"@, JsonTree::Array(row_trees(v))),
            ("scan_only"@, JsonTree::Bool(true)),
            ("transcripts_with_api_error"@, JsonTree::Number(text::decimal(v.len()))),
            ("within_mins"@, JsonTree::Number(text::signed_decimal(within_mins))),
            ("would_alert"@, JsonTree::Number(text::decimal(tally(v).1))),
        ],
    )
}

/// A row of a scan as a document.
fn show_row(row: &ScanRow) -> (r: Json)
    ensures
        r@ == row_tree(row@),
{
    let mut v: Vec<(String, Json)> = Vec::new();
    v.push((String::from_str("entrypoint"), json::string(row.entrypoint.as_str())));
    v.push((String::from_str("error"), json::string(row.error.as_str())));
    v.push((String::from_str("policy_block"), Json::Bool(row.policy_block)));
    v.push((String::from_str("session"), json::string(row.session.as_str())));
    v.push((String::from_str("snippet"), json::string(row.snippet.as_str())));
    v.push((String::from_str("would_alert"), Json::Bool(row.would_alert)));
    proof {
        json::lemma_member_trees(v@);
        assert(json::member_trees(v@) =~= row_tree(row@)->Object_0);
    }
    Json::Object(v)
}

/// The text that a scan prints.
pub fn scan_report(rows: &Vec<ScanRow>, within_mins: i64) -> (r: String)
    ensures
        r@ == json::laid_out(scan_tree(rows@, within_mins as int), ""@),
{
    let (policy, alert) = count_rows(rows);
    let ghost all = row_trees(rows@);
    let mut shown: Vec<Json> = Vec::new();
    let mut i: usize = 0;
    while i < rows.len()
        invariant
            i <= rows@.len(),
            all == row_trees(rows@),
            json::trees(shown@) == all.take(i as int),
        decreases rows@.len() - i,
    {
        let ghost was = shown@;
        shown.push(show_row(&rows[i]));
        assert(shown@.drop_last() =~= was);
        assert(json::trees(shown@) =~= all.take(i + 1));
        i = i + 1;
    }
    assert(all.take(i as int) =~= all);
    let mut v: Vec<(String, Json)> = Vec::new();
    v.push((String::from_str("policy_blocks"), json::count(policy)));
    v.push((String::from_str("rows"), Json::Array(shown)));
    v.push((String::from_str("scan_only"), Json::Bool(true)));
    v.push((String::from_str("transcripts_with_api_error"), json::count(rows.len())));
    v.push((String::from_str("within_mins"), Json::Number(text::show_i64(within_mins))));
    v.push((String::from_str("would_alert"), json::count(alert)));
    proof {
        json::lemma_member_trees(v@);
        assert(json::member_trees(v@) =~= scan_tree(rows@, within_mins as int)->Object_0);
    }
    proof {
        lemma_scan_is_regular(rows@, within_mins);
    }
    json::lay_out(&Json::Object(v))
}

proof fn lemma_row_is_regular(r: Row)
    ensures
        json::regular(row_tree(r), 98),
{
    reveal_strlit("entrypoint");
    reveal_strlit("error");
    reveal_strlit("policy_block");
    reveal_strlit("session");
    reveal_strlit("snippet");
    reveal_strlit("would_alert");
    reveal_with_fuel(text::before, 3);
    assert(text::before("entrypoint"@, "error"@));
    assert(text::before("session"@, "snippet"@));
    json::lemma_regular_object(row_tree(r)->Object_0, 98);
}

proof fn lemma_tally(v: Seq<ScanRow>)
    ensures
        tally(v).0 <= v.len(),
        tally(v).1 <= v.len(),
    decreases v.len(),
{
    if v.len() > 0 {
        lemma_tally(v.drop_last());
    }
}

proof fn lemma_scan_is_regular(v: Seq<ScanRow>, within_mins: i64)
    requires
        v.len() <= u64::MAX,
    ensures
        json::regular(scan_tree(v, within_mins as int), 100),
{
    reveal_strlit("policy_blocks");
    reveal_strlit("rows");
    reveal_strlit("scan_only");
    reveal_strlit("transcripts_with_api_error");
    reveal_strlit("within_mins");
    reveal_strlit("would_alert");
    reveal_with_fuel(text::before, 3);
    assert(text::before("within_mins"@, "would_alert"@));
    lemma_tally(v);
    let rows = row_trees(v);
    assert forall|i: int| 0 <= i < rows.len() implies json::regular(#[trigger] rows[i], 98) by {
        lemma_row_is_regular(v[i]@);
    }
    let (a, b, n) = (tally(v).0 as u64, tally(v).1 as u64, v.len() as u64);
    assert(json::is_integer(text::decimal(a as nat)));
    assert(json::is_integer(text::decimal(b as nat)));
    assert(json::is_integer(text::decimal(n as nat)));
    assert(json::is_integer(text::signed_decimal(within_mins as int)));
    assert(json::regular(JsonTree::Array(rows), 99));
    json::lemma_regular_object(scan_tree(v, within_mins as int)->Object_0, 100);
}

// ---- laws -----------------------------------------------------------------

/// The first hit that calls for action decides, whatever was found before it: a
/// block that is passed over, or was acted on before, hides none behind it.
pub proof fn first_call_decides(found: Seq<Hit>, actioned: Seq<bool>, ignore_sdk: bool, k: int)
    requires
        0 <= k < found.len(),
        calls(found[k], actioned[k], ignore_sdk),
        forall|j: int| 0 <= j < k ==> !calls(#[trigger] found[j], actioned[j], ignore_sdk),
    ensures
        search(found, actioned, ignore_sdk) == Some(k),
    decreases found.len(),
{
    let w = found.drop_last();
    if k < w.len() {
        assert(w[k] == found[k]);
        assert forall|j: int| 0 <= j < k implies !calls(#[trigger] w[j], actioned[j], ignore_sdk) by {
            assert(w[j] == found[j]);
        }
        first_call_decides(w, actioned, ignore_sdk, k);
    } else {
        assert forall|j: int| 0 <= j < w.len() implies !calls(
            #[trigger] w[j],
            actioned[j],
            ignore_sdk,
        ) by {
            assert(w[j] == found[j]);
        }
        no_call_no_action(w, actioned, ignore_sdk);
    }
}

/// Where no hit calls for action there is none.
pub proof fn no_call_no_action(found: Seq<Hit>, actioned: Seq<bool>, ignore_sdk: bool)
    requires
        forall|j: int|
            0 <= j < found.len() ==> !calls(#[trigger] found[j], actioned[j], ignore_sdk),
    ensures
        search(found, actioned, ignore_sdk) is None,
    decreases found.len(),
{
    if found.len() > 0 {
        let w = found.drop_last();
        assert forall|j: int| 0 <= j < w.len() implies !calls(
            #[trigger] w[j],
            actioned[j],
            ignore_sdk,
        ) by {
            assert(w[j] == found[j]);
        }
        assert(!calls(found[found.len() - 1], actioned[found.len() - 1], ignore_sdk));
        no_call_no_action(w, actioned, ignore_sdk);
    }
}

/// Every hit that calls for action gets its turn: once the chosen one is marked,
/// a later run chooses one behind it, as long as there is one.
pub proof fn next_call_has_its_turn(
    found: Seq<Hit>,
    actioned: Seq<bool>,
    ignore_sdk: bool,
    i: int,
    k: int,
)
    requires
        actioned.len() == found.len(),
        search(found, actioned, ignore_sdk) == Some(i),
        i < k < found.len(),
        calls(found[k], actioned[k], ignore_sdk),
        forall|j: int| i < j < k ==> !calls(#[trigger] found[j], actioned[j], ignore_sdk),
    ensures
        search(found, actioned.update(i, true), ignore_sdk) == Some(k),
{
    lemma_search(found, actioned, ignore_sdk);
    first_call_decides(found, actioned.update(i, true), ignore_sdk, k);
}

proof fn lemma_search(found: Seq<Hit>, actioned: Seq<bool>, ignore_sdk: bool)
    ensures
        search(found, actioned, ignore_sdk) matches Some(i) ==> 0 <= i < found.len()
            && forall|j: int| 0 <= j < i ==> !calls(#[trigger] found[j], actioned[j], ignore_sdk),
        search(found, actioned, ignore_sdk) is None ==> forall|j: int|
            0 <= j < found.len() ==> !calls(#[trigger] found[j], actioned[j], ignore_sdk),
    decreases found.len(),
{
    if found.len() > 0 {
        let w = found.drop_last();
        lemma_search(w, actioned, ignore_sdk);
        assert forall|j: int| 0 <= j < w.len() implies #[trigger] found[j] == w[j] by {}
    }
}

/// An incident is acted on once: with its marker in place it is not acted on
/// again.
pub proof fn incident_is_acted_on_once(hit: Option<Hit>, ignore_sdk: bool)
    ensures
        verdict_on(hit, ignore_sdk, true) != Verdict::Act,
{
}

/// A line without the mark of an API error is never taken for a block, whatever
/// it talks about.
pub proof fn talk_is_no_block(line: Seq<char>)
    requires
        !is_marked(line),
    ensures
        !is_block(line),
{
}

/// The newest block is found however many other lines follow it.
pub proof fn block_is_found_behind_other_lines(lines: Seq<Seq<char>>, k: int)
    requires
        0 <= k < lines.len(),
        is_block(lines[k]),
    ensures
        k <= last_block(lines) < lines.len(),
        is_block(lines[last_block(lines)]),
        forall|i: int| last_block(lines) < i < lines.len() ==> !is_block(#[trigger] lines[i]),
    decreases lines.len(),
{
    if !is_block(lines.last()) {
        let w = lines.drop_last();
        block_is_found_behind_other_lines(w, k);
        assert forall|i: int| last_block(lines) < i < lines.len() implies !is_block(
            #[trigger] lines[i],
        ) by {
            if i < lines.len() - 1 {
                assert(w[i] == lines[i]);
            }
        }
    }
}

/// The key of an incident is the name of one file.
pub proof fn incident_key_is_component(session: Seq<char>, line: Seq<char>)
    ensures
        files::is_component(incident_key(session, line)),
{
    files::safe_label_is_component(session);
    reveal_strlit("-");
    reveal_strlit(".");
    reveal_strlit("..");
    let a = files::safe_label(session);
    let n = fnv(vstd::utf8::encode_utf8(line)) as nat;
    let h = text::hexadecimal(n, 16);
    text::lemma_hexadecimal(n, 16);
    let k = incident_key(session, line);
    assert forall|i: int| 0 <= i < k.len() implies k[i] != '/' by {
        if i < a.len() {
            assert(a.contains(a[i]));
        } else if i > a.len() {
            assert(k[i] == h[i - a.len() - 1]);
        }
    }
    assert(k.len() > 2);
}

/// A scan says of the newest error what the sentinel would do about it: it
/// would alert exactly where the error is the policy block and the sentinel,
/// finding no marker, acts.
pub proof fn scan_agrees_with_verdict(
    transcript: Seq<char>,
    name: Seq<char>,
    line: Seq<char>,
    ignore_sdk: bool,
)
    requires
        line_note(line) is Some,
    ensures
        row_of(name, line_note(line)->0, ignore_sdk).would_alert <==> is_block(line) && verdict_on(
            Some(hit_of(transcript, name, line)),
            ignore_sdk,
            false,
        ) == Verdict::Act,
{
}

/// A loop that the sentinel has stopped halts at every fire until someone
/// re-arms it, and the sentinel leaves it alone from then on.
pub proof fn stopped_loop_stays_stopped(
    dirname: Seq<char>,
    iter: u64,
    label: Seq<char>,
    times: Seq<Seq<char>>,
    now: Seq<char>,
)
    ensures
        journal::fire_halts(
            journal::fired_times(journal::stopped(iter), label, times),
            false,
            label,
            now,
        ),
        !to_stop(dirname, journal::stopped(iter)),
{
    journal::halted_loop_stays_halted(journal::stopped(iter), label, times, now);
}

/// The recent transcripts come newest first.
pub proof fn transcripts_come_newest_first(v: Seq<Candidate>, cutoff: int, i: int, j: int)
    requires
        0 <= i < j < newest(v, cutoff).len(),
    ensures
        newest(v, cutoff)[i].1 >= newest(v, cutoff)[j].1,
{
    lemma_newest_sorted(v, cutoff);
}

/// Whether the newest comes first.
spec fn descending(v: Seq<(Seq<char>, i64)>) -> bool {
    forall|i: int, j: int| 0 <= i < j < v.len() ==> v[i].1 >= v[j].1
}

proof fn lemma_placed_sorted(v: Seq<(Seq<char>, i64)>, x: (Seq<char>, i64))
    requires
        descending(v),
    ensures
        descending(placed(v, x)),
        placed(v, x).len() == v.len() + 1,
        forall|i: int|
            0 <= i <= v.len() ==> (#[trigger] placed(v, x)[i] == x || v.contains(placed(v, x)[i])),
    decreases v.len(),
{
    if v.len() > 0 && v.last().1 < x.1 {
        let w = v.drop_last();
        lemma_placed_sorted(w, x);
        let p = placed(w, x);
        let q = placed(v, x);
        assert(q =~= p.push(v.last()));
        assert forall|i: int| 0 <= i <= v.len() implies (#[trigger] q[i] == x || v.contains(
            q[i],
        )) by {
            if i < v.len() {
                assert(q[i] == p[i]);
                if p[i] != x {
                    assert(w.contains(p[i]));
                    let k = choose|k: int| 0 <= k < w.len() && w[k] == p[i];
                    assert(v[k] == p[i]);
                }
            } else {
                assert(q[i] == v[v.len() - 1]);
            }
        }
        assert forall|i: int, j: int| 0 <= i < j < q.len() implies q[i].1 >= q[j].1 by {
            if j == v.len() {
                assert(q[i] == p[i]);
                if p[i] != x {
                    assert(w.contains(p[i]));
                    let k = choose|k: int| 0 <= k < w.len() && w[k] == p[i];
                    assert(v[k] == p[i]);
                }
            } else {
                assert(q[i] == p[i] && q[j] == p[j]);
            }
        }
    } else {
        let q = v.push(x);
        assert forall|i: int| 0 <= i <= v.len() implies (#[trigger] q[i] == x || v.contains(
            q[i],
        )) by {
            if i < v.len() {
                assert(q[i] == v[i]);
            }
        }
    }
}

proof fn lemma_newest_sorted(v: Seq<Candidate>, cutoff: int)
    ensures
        descending(newest(v, cutoff)),
    decreases v.len(),
{
    if v.len() > 0 {
        lemma_newest_sorted(v.drop_last(), cutoff);
        lemma_placed_sorted(newest(v.drop_last(), cutoff), dated(v.last()));
    }
}

/// A message is that of the block exactly where its lower case holds one of five
/// phrases. Whatever holds none of them is no block.
pub proof fn only_the_signatures_are_blocks(m: Seq<char>)
    ensures
        ({
            let signatures = seq![
                "cybersecurity topic"@,
                "cyber-use-case"@,
                "flagged this message for a cybersecurity"@,
                "unable to respond to this request"@,
                "violate our usage policy"@,
            ];
            is_policy_message(m) <==> exists|i: int, k: int|
                0 <= i < 5 && 0 <= k <= letters::folded(m).len() - signatures[i].len()
                    && #[trigger] letters::folded(m).subrange(k, k + signatures[i].len())
                    == signatures[i]
        }),
{
    let signatures = seq![
        "cybersecurity topic"@,
        "cyber-use-case"@,
        "flagged this message for a cybersecurity"@,
        "unable to respond to this request"@,
        "violate our usage policy"@,
    ];
    let low = letters::folded(m);
    if is_policy_message(m) {
        let i: int = if letters::mentions(m, signatures[0]) {
            0
        } else if letters::mentions(m, signatures[1]) {
            1
        } else if letters::mentions(m, signatures[2]) {
            2
        } else if letters::mentions(m, signatures[3]) {
            3
        } else {
            4
        };
        assert(letters::mentions(m, signatures[i]));
        let k = choose|k: int| text::is_at(low, k, signatures[i]);
        assert(low.subrange(k, k + signatures[i].len()) == signatures[i]);
    }
    assert forall|i: int, k: int|
        0 <= i < 5 && 0 <= k <= low.len() - signatures[i].len() && #[trigger] low.subrange(
            k,
            k + signatures[i].len(),
        ) == signatures[i] implies is_policy_message(m) by {
        assert(text::is_at(low, k, signatures[i]));
        assert(letters::mentions(m, signatures[i]));
    }
}

/// An ASCII message is the block exactly where it holds one of the five phrases
/// in letters of either case.
pub proof fn blocks_are_told_in_any_case(m: Seq<char>)
    requires
        vstd::utf8::is_ascii_chars(m),
    ensures
        ({
            let signatures = seq![
                "cybersecurity topic"@,
                "cyber-use-case"@,
                "flagged this message for a cybersecurity"@,
                "unable to respond to this request"@,
                "violate our usage policy"@,
            ];
            is_policy_message(m) <==> exists|i: int, k: int|
                0 <= i < 5 && 0 <= k <= m.len() - signatures[i].len() && (#[trigger] m.subrange(
                    k,
                    k + signatures[i].len(),
                )).map_values(
                    |c: char|
                        if 'A' <= c <= 'Z' {
                            (c as int + 32) as char
                        } else {
                            c
                        },
                ) == signatures[i]
        }),
{
    let signatures = seq![
        "cybersecurity topic"@,
        "cyber-use-case"@,
        "flagged this message for a cybersecurity"@,
        "unable to respond to this request"@,
        "violate our usage policy"@,
    ];
    let lower = |c: char|
        if 'A' <= c <= 'Z' {
            (c as int + 32) as char
        } else {
            c
        };
    let low = letters::folded(m);
    letters::lemma_folded_ascii(m);
    only_the_signatures_are_blocks(m);
    if is_policy_message(m) {
        let (i, k) = choose|i: int, k: int|
            0 <= i < 5 && 0 <= k <= low.len() - signatures[i].len() && #[trigger] low.subrange(
                k,
                k + signatures[i].len(),
            ) == signatures[i];
        let part = m.subrange(k, k + signatures[i].len());
        assert(part.map_values(lower) =~= low.subrange(k, k + signatures[i].len()));
        assert(m.subrange(k, k + signatures[i].len()).map_values(lower) == signatures[i]);
    }
    assert forall|i: int, k: int|
        0 <= i < 5 && 0 <= k <= m.len() - signatures[i].len() && (#[trigger] m.subrange(
            k,
            k + signatures[i].len(),
        )).map_values(lower) == signatures[i] implies is_policy_message(m) by {
        let part = m.subrange(k, k + signatures[i].len());
        assert(part.map_values(lower) =~= low.subrange(k, k + signatures[i].len()));
        assert(low.subrange(k, k + signatures[i].len()) == signatures[i]);
    }
}

/// Every phrase that tells a block holds the letter S; a message without it is
/// none.
proof fn lemma_no_block_without_s(m: Seq<char>)
    requires
        vstd::utf8::is_ascii_chars(m),
        forall|i: int| 0 <= i < m.len() ==> #[trigger] m[i] != 's' && m[i] != 'S',
    ensures
        !is_policy_message(m),
{
    reveal_strlit("cybersecurity topic");
    reveal_strlit("cyber-use-case");
    reveal_strlit("flagged this message for a cybersecurity");
    reveal_strlit("unable to respond to this request");
    reveal_strlit("violate our usage policy");
    only_the_signatures_are_blocks(m);
    letters::lemma_folded_ascii(m);
    let low = letters::folded(m);
    let signatures = seq![
        "cybersecurity topic"@,
        "cyber-use-case"@,
        "flagged this message for a cybersecurity"@,
        "unable to respond to this request"@,
        "violate our usage policy"@,
    ];
    if is_policy_message(m) {
        let (i, k) = choose|i: int, k: int|
            0 <= i < 5 && 0 <= k <= low.len() - signatures[i].len() && #[trigger] low.subrange(
                k,
                k + signatures[i].len(),
            ) == signatures[i];
        let j: int = if i == 0 {
            5
        } else if i == 1 {
            7
        } else if i == 2 {
            11
        } else if i == 3 {
            12
        } else {
            13
        };
        assert(signatures[i][j] == 's');
        assert(low.subrange(k, k + signatures[i].len())[j] == low[k + j]);
        assert(m[k + j] != 's' && m[k + j] != 'S');
    }
}

/// Errors that pass by themselves are no blocks.
pub proof fn passing_errors_are_no_blocks()
    ensures
        !is_policy_message("Rate limit reached"@),
        !is_policy_message("rate limit"@),
        !is_policy_message("Overloaded"@),
        !is_policy_message("Connection error"@),
        !is_policy_message("api_error"@),
{
    reveal_strlit("Rate limit reached");
    reveal_strlit("rate limit");
    reveal_strlit("Overloaded");
    reveal_strlit("Connection error");
    reveal_strlit("api_error");
    lemma_no_block_without_s("Rate limit reached"@);
    lemma_no_block_without_s("rate limit"@);
    lemma_no_block_without_s("Overloaded"@);
    lemma_no_block_without_s("Connection error"@);
    lemma_no_block_without_s("api_error"@);
}

/// A line is an error entry exactly where it holds the mark, with or without a
/// blank in it, and is a document.
pub proof fn error_entries_are_marked(line: Seq<char>)
    ensures
        line_note(line) is Some <==> json::parsed(line) is Some && (text::has_text(
            line,
            "\"isApiErrorMessage\":true"@,
        ) || text::has_text(line, "\"isApiErrorMessage\": true"@)),
{
}

/// What an error entry says is what it holds: its code under `error`, what ran
/// the session under `entrypoint`, and the first text in it as the message. An
/// entry without a code is an `api_error`, and one without a text says its code.
pub proof fn error_entries_are_read(line: Seq<char>, t: JsonTree)
    requires
        line_note(line) is Some,
        json::parsed(line) == Some(t),
    ensures
        ({
            let n = line_note(line)->0;
            &&& json::member(t, "error"@) matches Some(JsonTree::Str(s)) ==> n.error_code == s
            &&& !(json::member(t, "error"@) matches Some(JsonTree::Str(_))) ==> n.error_code
                == "api_error"@
            &&& json::member(t, "entrypoint"@) matches Some(JsonTree::Str(s)) ==> n.entrypoint
                == s
            &&& !(json::member(t, "entrypoint"@) matches Some(JsonTree::Str(_)))
                ==> n.entrypoint.len() == 0
            &&& error_text(t) matches Some(s) ==> n.message == s
            &&& error_text(t) is None ==> n.message == n.error_code
            &&& n.policy == is_policy_message(n.message)
        }),
{
    reveal_strlit("");
}

/// The text of an entry: its own, where it has one.
pub proof fn own_text_comes_first(members: Seq<(Seq<char>, JsonTree)>, s: Seq<char>)
    requires
        json::lookup(members, "text"@) == Some(JsonTree::Str(s)),
    ensures
        error_text(JsonTree::Object(members)) == Some(s),
{
}

/// An entry without a text of its own says what the first member of it says that
/// says anything, and a list what the first document of it says.
pub proof fn first_text_is_found(
    members: Seq<(Seq<char>, JsonTree)>,
    items: Seq<JsonTree>,
    k: int,
)
    ensures
        !(json::lookup(members, "text"@) matches Some(JsonTree::Str(_))) && 0 <= k < members.len()
            && error_text(members[k].1) is Some && (forall|j: int|
            0 <= j < k ==> error_text((#[trigger] members[j]).1) is None) ==> error_text(
            JsonTree::Object(members),
        ) == error_text(members[k].1),
        0 <= k < items.len() && error_text(items[k]) is Some && (forall|j: int|
            0 <= j < k ==> error_text(#[trigger] items[j]) is None) ==> error_text(
            JsonTree::Array(items),
        ) == error_text(items[k]),
{
    if 0 <= k < members.len() && error_text(members[k].1) is Some && (forall|j: int|
        0 <= j < k ==> error_text((#[trigger] members[j]).1) is None) {
        let head = members.take(k + 1);
        assert(head.drop_last() =~= members.take(k));
        assert forall|j: int| 0 <= j < k implies error_text(
            (#[trigger] members.take(k)[j]).1,
        ) is None by {
            assert(members.take(k)[j] == members[j]);
        }
        lemma_no_text_in_members(members.take(k));
        assert(head.last() == members[k]);
        lemma_error_text_in_members(members, k + 1);
    }
    if 0 <= k < items.len() && error_text(items[k]) is Some && (forall|j: int|
        0 <= j < k ==> error_text(#[trigger] items[j]) is None) {
        let head = items.take(k + 1);
        assert(head.drop_last() =~= items.take(k));
        assert forall|j: int| 0 <= j < k implies error_text(#[trigger] items.take(k)[j]) is None by {
            assert(items.take(k)[j] == items[j]);
        }
        lemma_no_text_in(items.take(k));
        assert(head.last() == items[k]);
        lemma_error_text_in(items, k + 1);
    }
}

proof fn lemma_no_text_in_members(members: Seq<(Seq<char>, JsonTree)>)
    requires
        forall|j: int| 0 <= j < members.len() ==> error_text((#[trigger] members[j]).1) is None,
    ensures
        error_text_in_members(members) is None,
    decreases members.len(),
{
    if members.len() > 0 {
        let w = members.drop_last();
        assert forall|j: int| 0 <= j < w.len() implies error_text((#[trigger] w[j]).1) is None by {
            assert(w[j] == members[j]);
        }
        lemma_no_text_in_members(w);
        assert(error_text(members[members.len() - 1].1) is None);
    }
}

proof fn lemma_no_text_in(items: Seq<JsonTree>)
    requires
        forall|j: int| 0 <= j < items.len() ==> error_text(#[trigger] items[j]) is None,
    ensures
        error_text_in(items) is None,
    decreases items.len(),
{
    if items.len() > 0 {
        let w = items.drop_last();
        assert forall|j: int| 0 <= j < w.len() implies error_text(#[trigger] w[j]) is None by {
            assert(w[j] == items[j]);
        }
        lemma_no_text_in(w);
        assert(error_text(items[items.len() - 1]) is None);
    }
}

/// What is found in a transcript is the last of its error entries whose message
/// is that of the block; nothing is found where no entry is.
pub proof fn only_blocks_are_found(lines: Seq<Seq<char>>)
    ensures
        ({
            let i = last_block(lines);
            &&& -1 <= i < lines.len()
            &&& i >= 0 ==> line_note(lines[i]) is Some && is_policy_message(
                line_note(lines[i])->0.message,
            )
            &&& forall|j: int|
                i < j < lines.len() ==> (line_note(#[trigger] lines[j]) matches Some(n)
                    ==> !is_policy_message(n.message))
        }),
    decreases lines.len(),
{
    if lines.len() > 0 {
        let w = lines.drop_last();
        only_blocks_are_found(w);
        let i = last_block(lines);
        assert forall|j: int| i < j < lines.len() implies (line_note(
            #[trigger] lines[j],
        ) matches Some(n) ==> !is_policy_message(n.message)) by {
            if j < w.len() {
                assert(w[j] == lines[j]);
            }
        }
    }
}

/// The sentinel acts on a hit exactly where it is the block, has not been acted
/// on, and is not one of an automated session that is to be passed over: one
/// whose entrypoint begins with the letters of an SDK.
pub proof fn sentinel_acts_on_new_blocks(h: Hit, actioned: bool, ignore_sdk: bool)
    ensures
        calls(h, actioned, ignore_sdk) <==> h.is_policy_block && !actioned && !(ignore_sdk
            && h.entrypoint.len() >= 3 && h.entrypoint[0] == 's' && h.entrypoint[1] == 'd'
            && h.entrypoint[2] == 'k'),
{
    reveal_strlit("sdk");
    let e = h.entrypoint;
    if e.len() >= 3 {
        let head = e.subrange(0, 3);
        assert(head[0] == e[0] && head[1] == e[1] && head[2] == e[2]);
        if e[0] == 's' && e[1] == 'd' && e[2] == 'k' {
            assert(head =~= "sdk"@);
        }
    }
}

/// The sentinel stops the loops that are in a fire, and leaves alone those that
/// are not, those that are stopped, and what is no loop.
pub proof fn running_loops_are_stopped(name: Seq<char>, event: Seq<char>, iter: u64)
    ensures
        to_stop(name, journal::Standing { last: Some((event, iter)), disabled: false }) <==> event
            == "start"@ && (name.len() == 0 || name[0] != '.'),
        !to_stop(name, journal::Standing { last: Some((event, iter)), disabled: true }),
        !to_stop(name, journal::Standing { last: None, disabled: false }),
{
    reveal_strlit(".");
    if name.len() > 0 {
        let head = name.subrange(0, 1);
        assert(head[0] == name[0]);
        if name[0] == '.' {
            assert(head =~= "."@);
        }
    }
}

/// Mail is held back for so many minutes after the last one, and not from then
/// on; never where no mail was sent or nobody can tell when.
pub proof fn mail_rests_for_the_cooldown(s: Seq<char>, cooldown_mins: i64, now: Moment)
    requires
        cooldown_mins > 0,
        now.nanos < 1_000_000_000,
        clock::rfc3339_moment(text::trimmed(s)) matches Some(then) ==> then.nanos < 1_000_000_000,
    ensures
        !cooling(None, cooldown_mins, now),
        cooling(Some(s), cooldown_mins, now) <==> (clock::rfc3339_moment(
            text::trimmed(s),
        ) matches Some(then) && (now.secs * 1_000_000_000 + now.nanos) - (then.secs * 1_000_000_000
            + then.nanos) < cooldown_mins * 60_000_000_000),
{
    if clock::rfc3339_moment(text::trimmed(s)) is Some {
        clock::time_passes_in_full(
            now,
            clock::rfc3339_moment(text::trimmed(s))->0,
            cooldown_mins as int,
        );
    }
}

proof fn lemma_placed_holds(v: Seq<(Seq<char>, i64)>, x: (Seq<char>, i64))
    ensures
        placed(v, x).to_multiset() == v.push(x).to_multiset(),
    decreases v.len(),
{
    vstd::seq_lib::to_multiset_build(v, x);
    if v.len() > 0 && v.last().1 < x.1 {
        let w = v.drop_last();
        lemma_placed_holds(w, x);
        vstd::seq_lib::to_multiset_build(w, x);
        vstd::seq_lib::to_multiset_build(placed(w, x), v.last());
        vstd::seq_lib::to_multiset_build(w, v.last());
        assert(w.push(v.last()) =~= v);
        assert(placed(v, x).to_multiset() =~= v.push(x).to_multiset());
    }
}

/// The recent transcripts are all the files with the extension of a transcript
/// that were changed at the cutoff or later, each as often as it is listed, and
/// no others.
pub proof fn recent_transcripts_are_searched(v: Seq<Candidate>, cutoff: int)
    ensures
        newest(v, cutoff).to_multiset() == v.filter(
            |c: Candidate| paths::extension_is(c.name@, "jsonl"@) && c.mtime >= cutoff,
        ).map_values(|c: Candidate| (c.path@, c.mtime)).to_multiset(),
    decreases v.len(),
{
    let p = |c: Candidate| paths::extension_is(c.name@, "jsonl"@) && c.mtime >= cutoff;
    let f = |c: Candidate| (c.path@, c.mtime);
    reveal(Seq::filter);
    if v.len() > 0 {
        let w = v.drop_last();
        recent_transcripts_are_searched(w, cutoff);
        let kept = w.filter(p);
        if p(v.last()) {
            lemma_placed_holds(newest(w, cutoff), dated(v.last()));
            vstd::seq_lib::to_multiset_build(newest(w, cutoff), dated(v.last()));
            vstd::seq_lib::to_multiset_build(kept.map_values(f), f(v.last()));
            assert(kept.push(v.last()).map_values(f) =~= kept.map_values(f).push(f(v.last())));
        }
    } else {
        assert(v.filter(p).map_values(f) =~= newest(v, cutoff));
    }
}

/// A scan counts the rows that are blocks, and those of its rows that would
/// alert.
pub proof fn scan_counts_its_rows(rows: Seq<ScanRow>)
    ensures
        tally(rows).0 == rows.filter(|r: ScanRow| r.policy_block).len(),
        tally(rows).1 == rows.filter(|r: ScanRow| r.would_alert).len(),
    decreases rows.len(),
{
    reveal(Seq::filter);
    if rows.len() > 0 {
        scan_counts_its_rows(rows.drop_last());
    }
}

/// A scan shows the last error entry of a transcript, whether or not it is the
/// block; nothing is shown where no line is one.
pub proof fn scan_shows_the_last_error(lines: Seq<Seq<char>>)
    ensures
        -1 <= last_error(lines) < lines.len(),
        last_error(lines) >= 0 ==> line_note(lines[last_error(lines)]) is Some,
        forall|j: int|
            last_error(lines) < j < lines.len() ==> line_note(#[trigger] lines[j]) is None,
    decreases lines.len(),
{
    if lines.len() > 0 {
        let w = lines.drop_last();
        scan_shows_the_last_error(w);
        assert forall|j: int| last_error(lines) < j < lines.len() implies line_note(
            #[trigger] lines[j],
        ) is None by {
            if j < w.len() {
                assert(w[j] == lines[j]);
            }
        }
    }
}

/// A setup that names an address switches mail on for it; one that refuses mail,
/// or leaves the prompt blank, switches it off and keeps the address on file; one
/// that asks for nothing changes nothing.
pub proof fn setup_decides_on_mail(email: Option<Seq<char>>, enabled: bool, s: String)
    ensures
        set_up(email, enabled, Setup::NoEmail) == (email, false),
        set_up(email, enabled, Setup::Nothing) == (email, enabled),
        set_up(email, enabled, Setup::Email(s)) == (Some(s@), true),
        text::trimmed(s@).len() > 0 ==> set_up(email, enabled, Setup::Typed(s)) == (
            Some(text::trimmed(s@)),
            true,
        ),
        text::trimmed(s@).len() == 0 ==> set_up(email, enabled, Setup::Typed(s)) == (email, false),
{
}

/// Where the sentinel has nothing to do it says why: which automated session it
/// passed over, or which incident it had acted on; else that all is well.
pub proof fn quiet_lines_say_why(h: Hit)
    ensures
        quiet_text(None, Verdict::Healthy) == "{\"status\":\"healthy\"}"@,
        text::ends(
            quiet_text(Some(h), Verdict::IgnoredSdk),
            json::quoted(h.session_id) + ",\"status\":\"ignored-sdk-subagent\"}"@,
        ),
        text::ends(
            quiet_text(Some(h), Verdict::AlreadyActioned),
            json::quoted(h.key) + ",\"status\":\"already-actioned\"}"@,
        ),
{
    let a = quiet_text(Some(h), Verdict::IgnoredSdk);
    let x = json::quoted(h.session_id) + ",\"status\":\"ignored-sdk-subagent\"}"@;
    assert(a.subrange(a.len() - x.len(), a.len() as int) =~= x);
    let b = quiet_text(Some(h), Verdict::AlreadyActioned);
    let y = json::quoted(h.key) + ",\"status\":\"already-actioned\"}"@;
    assert(b.subrange(b.len() - y.len(), b.len() as int) =~= y);
}

/// What is reported of an incident that was acted on: the session and the code,
/// which loops were stopped, where the backup is, and who was told how.
#[verifier::rlimit(80)]
#[verifier::spinoff_prover]
pub proof fn action_says_what_was_done(
    h: Hit,
    stopped: Seq<Seq<char>>,
    backup: Seq<char>,
    desktop: bool,
    emailed: bool,
    in_cooldown: bool,
)
    ensures
        ({
            let r = action_text(h, stopped, backup, desktop, emailed, in_cooldown);
            &&& text::begins(r, "{\"backup\":"@ + json::quoted(backup))
            &&& text::has_text(
                r,
                ",\"loops_stopped\":"@ + json::array_of(
                    stopped.map_values(|s: Seq<char>| json::quoted(s)),
                ),
            )
            &&& text::has_text(r, ",\"notified\":{\"desktop\":"@ + (if desktop {
                "true"@
            } else {
                "false"@
            }))
            &&& text::has_text(r, ",\"email\":"@ + (if emailed {
                "true"@
            } else {
                "false"@
            }))
            &&& text::ends(r, json::quoted(h.session_id) + ",\"status\":\"ACTIONED\"}"@)
        }),
{
    let names = stopped.map_values(|s: Seq<char>| json::quoted(s));
    assert(quoted_all(stopped) =~= names);
    lemma_action_parts(
        "{\"backup\":"@,
        json::quoted(backup),
        ",\"entrypoint\":"@,
        json::quoted(h.entrypoint),
        ",\"error\":"@,
        json::quoted(h.error_code),
        ",\"loops_stopped\":"@,
        json::array_of(names),
        ",\"notified\":{\"desktop\":"@,
        json::bool_of(desktop),
        ",\"email\":"@,
        json::bool_of(emailed),
        ",\"email_suppressed_cooldown\":"@,
        json::bool_of(in_cooldown),
        "},\"policy_block\":"@,
        json::bool_of(h.is_policy_block),
        ",\"session\":"@,
        json::quoted(h.session_id),
        ",\"status\":\"ACTIONED\"}"@,
    );
}

#[verifier::rlimit(80)]
#[verifier::spinoff_prover]
proof fn lemma_action_parts(
    a: Seq<char>,
    b: Seq<char>,
    c: Seq<char>,
    d: Seq<char>,
    e: Seq<char>,
    f: Seq<char>,
    g: Seq<char>,
    h: Seq<char>,
    i: Seq<char>,
    j: Seq<char>,
    k: Seq<char>,
    l: Seq<char>,
    m: Seq<char>,
    n: Seq<char>,
    o: Seq<char>,
    p: Seq<char>,
    q: Seq<char>,
    r: Seq<char>,
    t: Seq<char>,
)
    ensures
        ({
            let s = a + b + c + d + e + f + g + h + i + j + k + l + m + n + o + p + q + r + t;
            &&& text::begins(s, a + b)
            &&& text::has_text(s, g + h)
            &&& text::has_text(s, i + j)
            &&& text::has_text(s, k + l)
            &&& text::ends(s, r + t)
        }),
{
    let s = a + b + c + d + e + f + g + h + i + j + k + l + m + n + o + p + q + r + t;
    assert(s.subrange(0, (a + b).len() as int) =~= a + b);
    assert(s.subrange(s.len() - (r + t).len(), s.len() as int) =~= r + t);
    let x = a + b + c + d + e + f;
    let y = m + n + o + p + q + r + t;
    text::lemma_has_part(x, g + h, i + j + k + l + y);
    assert(s =~= x + (g + h) + (i + j + k + l + y));
    text::lemma_has_part(x + g + h, i + j, k + l + y);
    assert(s =~= x + g + h + (i + j) + (k + l + y));
    text::lemma_has_part(x + g + h + i + j, k + l, y);
    assert(s =~= x + g + h + i + j + (k + l) + y);
}

/// Why a loop was stopped, and what the user is told, names the code and the
/// session; the user is told how many loops were stopped and where the backup is.
#[verifier::rlimit(80)]
#[verifier::spinoff_prover]
pub proof fn reasons_name_the_session(h: Hit, stopped: nat, backup: Seq<char>)
    ensures
        text::begins(
            stop_reason_text(h),
            "sentinel: API error ("@ + h.error_code + ") in session "@ + h.session_id,
        ),
        notice_body_text(h, stopped, backup) == h.error_code + " — session "@ + h.session_id
            + " stopped "@ + text::decimal(stopped) + " loop(s). Backup + RESUME.md: "@ + backup,
        notice_title_text(true) != notice_title_text(false),
{
    let head = "sentinel: API error ("@ + h.error_code + ") in session "@ + h.session_id;
    let s = stop_reason_text(h);
    assert(s.subrange(0, head.len() as int) =~= head);
    reveal_strlit("");
    reveal_strlit(" Code blocked (usage-policy)");
    reveal_strlit(" Code API error");
    assert(notice_title_text(true).len() != notice_title_text(false).len());
}

/// The note for a resume says which session to go back to, where its transcript
/// is and what the error was.
#[verifier::rlimit(80)]
#[verifier::spinoff_prover]
pub proof fn resume_note_names_the_session(h: Hit, stamp: Seq<char>)
    ensures
        text::begins(resume_text(h, stamp), "# API-error incident — "@ + stamp),
        text::has_text(
            resume_text(h, stamp),
            "\n- **Session id:** `"@ + h.session_id + "`\n- **Original transcript:** `"@
                + h.transcript,
        ),
        text::has_text(
            resume_text(h, stamp),
            ".\n\n- **Error code:** `"@ + h.error_code + "`\n- **Message:** "@ + text::replaced(
                h.message,
                '\n',
                " "@,
            ),
        ),
{
    let s = resume_text(h, stamp);
    let head = "# API-error incident — "@ + stamp;
    let first = head + "\n\nA loop/session hit an API error"@ + kind_suffix(
        h.is_policy_block,
        " (usage-policy / cybersecurity-classifier block)"@,
    );
    let what = ".\n\n- **Error code:** `"@ + h.error_code + "`\n- **Message:** "@ + text::replaced(
        h.message,
        '\n',
        " "@,
    );
    let whose = "\n- **Session id:** `"@ + h.session_id + "`\n- **Original transcript:** `"@
        + h.transcript;
    assert(s.subrange(0, head.len() as int) =~= head);
    let n = first.len() as int;
    let k = n + what.len();
    assert(s.subrange(n, k) =~= what);
    assert(text::is_at(s, n, what));
    assert(s.subrange(k, k + whose.len()) =~= whose);
    assert(text::is_at(s, k, whose));
}

/// Every system with a command for it is told title and text: as they are on
/// Linux, and with the quotes of its command replaced elsewhere; no other system
/// is.
#[verifier::rlimit(80)]
#[verifier::spinoff_prover]
pub proof fn notices_are_shown(os: Seq<char>, title: Seq<char>, body: Seq<char>)
    ensures
        notice_command_text("linux"@, title, body) == Some(
            ("notify-send"@, seq!["-u"@, "critical"@, title, body]),
        ),
        os != "linux"@ && os != "macos"@ && os != "windows"@ ==> notice_command_text(
            os,
            title,
            body,
        ) is None,
        notice_command_text("macos"@, title, body) matches Some(c) && c.0 == "osascript"@
            && c.1.len() == 2 && c.1[0] == "-e"@,
        notice_command_text("windows"@, title, body) matches Some(c) && c.0 == "powershell"@
            && c.1.len() == 3,
        !title.contains('"') && !body.contains('"') ==> (notice_command_text(
            "macos"@,
            title,
            body,
        )->0).1[1] == "display notification \""@ + body + "\" with title \""@ + title + "\""@,
        !title.contains('\'') && !body.contains('\'') ==> (notice_command_text(
            "windows"@,
            title,
            body,
        )->0).1[2] == "New-BurntToastNotification -Text '"@ + title + "','"@ + body + "'"@,
{
    reveal_strlit("linux");
    reveal_strlit("macos");
    reveal_strlit("windows");
    assert("linux"@[0] == 'l' && "macos"@[0] == 'm' && "windows"@[0] == 'w');
    text::replacing_changes_one_character(title, title, '"', "'"@);
    text::replacing_changes_one_character(body, body, '"', "'"@);
    text::replacing_changes_one_character(title, title, '\'', "`'"@);
    text::replacing_changes_one_character(body, body, '\'', "`'"@);
}

/// A scan reports what it counted: the transcripts with an error, the blocks
/// among them, and those that would alert.
pub proof fn scan_reports_its_counts(v: Seq<ScanRow>, within_mins: int)
    ensures
        ({
            let m = scan_tree(v, within_mins)->Object_0;
            let blocks = v.filter(|r: ScanRow| r.policy_block).len();
            let alerts = v.filter(|r: ScanRow| r.would_alert).len();
            &&& m.contains(("policy_blocks"@, JsonTree::Number(text::decimal(blocks))))
            &&& m.contains(("would_alert"@, JsonTree::Number(text::decimal(alerts))))
            &&& m.contains(
                ("transcripts_with_api_error"@, JsonTree::Number(text::decimal(v.len()))),
            )
        }),
{
    scan_counts_its_rows(v);
    let m = scan_tree(v, within_mins)->Object_0;
    assert(m[0] == ("policy_blocks"@, JsonTree::Number(text::decimal(tally(v).0))));
    assert(m[3] == ("transcripts_with_api_error"@, JsonTree::Number(text::decimal(v.len()))));
    assert(m[5] == ("would_alert"@, JsonTree::Number(text::decimal(tally(v).1))));
}

/// What a scan shows of an error entry: whose it is, what it says, whether it is
/// the block, and whether the sentinel would act on it.
pub proof fn scan_shows_what_an_entry_says(name: Seq<char>, n: ErrorNote, ignore_sdk: bool)
    ensures
        ({
            let r = row_of(name, n, ignore_sdk);
            &&& r.session == paths::stem_of(name) && r.entrypoint == n.entrypoint && r.error
                == n.error_code && r.policy_block == n.policy
            &&& !n.policy ==> !r.would_alert
            &&& !ignore_sdk ==> r.would_alert == n.policy
            &&& n.message.len() <= 100 ==> r.snippet == n.message
            &&& n.message.len() > 100 ==> r.snippet == n.message.take(100)
        }),
{
}

/// What was found says where: the session is named by its transcript, and the
/// key by the session and the line.
pub proof fn hits_say_where_they_were_found(
    transcript: Seq<char>,
    name: Seq<char>,
    line: Seq<char>,
)
    requires
        line_note(line) is Some,
    ensures
        ({
            let h = hit_of(transcript, name, line);
            let n = line_note(line)->0;
            &&& h.transcript == transcript && h.session_id == paths::stem_of(name)
            &&& h.message == n.message && h.error_code == n.error_code && h.entrypoint
                == n.entrypoint && h.is_policy_block == n.policy
            &&& h.key == files::safe_label(paths::stem_of(name)) + "-"@ + text::hexadecimal(
                fnv(vstd::utf8::encode_utf8(line)) as nat,
                16,
            )
        }),
{
}

} // verus!
