//! A node of the mesh: who it is, where it keeps its state, and how it runs git.

use vstd::prelude::*;

use crate::lists;
use crate::package;
use crate::paths;
use crate::text;

verus! {

// ---- where a node keeps its state -----------------------------------------

/// What a process was started with.
pub struct Surroundings {
    /// The directory that `CLAUDE_MESH_HOME` names.
    pub mesh_home: Option<String>,
    pub home: Option<String>,
    /// The session that `CLAUDE_CODE_SESSION_ID` names.
    pub session: Option<String>,
}

impl Surroundings {
    /// Whether the session can be cut to its short form, where that names the
    /// directory.
    pub open spec fn wf(self) -> bool {
        self.mesh_home is None ==> (self.session matches Some(s) ==> text::cuttable(s@, 8))
    }
}

/// The directory that all nodes of a machine share.
pub open spec fn shared_root(e: Surroundings) -> Seq<char> {
    match e.mesh_home {
        Some(d) => d@,
        None => paths::under(
            match e.home {
                Some(h) => h@,
                None => "/root"@,
            },
            package::named("."@, "/mesh"@),
        ),
    }
}

/// The directory of a node: one for each session, unless the shared directory
/// was named.
pub open spec fn own_root(e: Surroundings) -> Seq<char> {
    if e.mesh_home is None && e.session is Some && text::byte_len(e.session->0@) >= 8 {
        paths::under(
            paths::under(shared_root(e), "sessions"@),
            text::head(e.session->0@, 8),
        )
    } else {
        shared_root(e)
    }
}

/// The directory that all nodes of a machine share.
pub fn base_home(e: &Surroundings) -> (r: String)
    ensures
        r@ == shared_root(*e),
{
    match &e.mesh_home {
        Some(d) => d.clone(),
        None => match &e.home {
            Some(h) => paths::join(h.as_str(), package::name_in(".", "/mesh").as_str()),
            None => paths::join("/root", package::name_in(".", "/mesh").as_str()),
        },
    }
}

/// The directory of a node.
pub fn session_dir(e: &Surroundings) -> (r: String)
    requires
        e.wf(),
    ensures
        r@ == own_root(*e),
{
    let base = base_home(e);
    if e.mesh_home.is_some() {
        return base;
    }
    match &e.session {
        Some(sid) => if text::size(sid.as_str()) >= 8 {
            let all = paths::join(base.as_str(), "sessions");
            paths::join(all.as_str(), text::byte_head(sid.as_str(), 8).as_str())
        } else {
            base
        },
        None => base,
    }
}

/// Where a node keeps its settings.
pub fn config_path(e: &Surroundings) -> (r: String)
    requires
        e.wf(),
    ensures
        r@ == paths::under(own_root(*e), "config.json"@),
{
    paths::join(session_dir(e).as_str(), "config.json")
}

/// Where a node keeps which messages it has seen.
pub fn seen_path(e: &Surroundings) -> (r: String)
    requires
        e.wf(),
    ensures
        r@ == paths::under(own_root(*e), "seen"@),
{
    paths::join(session_dir(e).as_str(), "seen")
}

/// Where a node keeps its signing key.
pub fn key_path(e: &Surroundings) -> (r: String)
    requires
        e.wf(),
    ensures
        r@ == paths::under(own_root(*e), "key"@),
{
    paths::join(session_dir(e).as_str(), "key")
}

/// Where the nodes of a machine leave messages for each other.
pub fn local_bus(e: &Surroundings) -> (r: String)
    ensures
        r@ == paths::under(shared_root(*e), "bus"@),
{
    paths::join(base_home(e).as_str(), "bus")
}

// ---- who a node is --------------------------------------------------------

/// The settings of a node.
pub struct Config {
    /// `role@host#sid8`.
    pub id: String,
    pub role: String,
    pub host: String,
    pub sid8: Option<String>,
    /// The shared repository.
    pub repo: String,
    /// The account that git runs as.
    pub git_user: Option<String>,
    /// The rooms the node takes part in.
    pub rooms: Vec<String>,
    /// The public key, in hexadecimal.
    pub pubkey: Option<String>,
}

/// What a `Config` says.
pub struct Node {
    pub id: Seq<char>,
    pub role: Seq<char>,
    pub host: Seq<char>,
    pub sid8: Option<Seq<char>>,
    pub repo: Seq<char>,
    pub git_user: Option<Seq<char>>,
    pub rooms: Seq<Seq<char>>,
    pub pubkey: Option<Seq<char>>,
}

impl View for Config {
    type V = Node;

    open spec fn view(&self) -> Node {
        Node {
            id: self.id@,
            role: self.role@,
            host: self.host@,
            sid8: text::opt_string(self.sid8),
            repo: self.repo@,
            git_user: text::opt_string(self.git_user),
            rooms: text::texts(self.rooms@),
            pubkey: text::opt_string(self.pubkey),
        }
    }
}

/// The room that messages go to unless they name one.
pub fn default_room() -> (r: String)
    ensures
        r@ == "main"@,
{
    String::from_str("main")
}

/// The rooms that a node takes part in at first.
pub fn default_rooms() -> (r: Vec<String>)
    ensures
        text::texts(r@) == seq!["main"@],
{
    let mut rooms: Vec<String> = Vec::new();
    rooms.push(default_room());
    assert(text::texts(rooms@) =~= seq!["main"@]);
    rooms
}

/// Whether a character is a letter or a digit of ASCII.
pub open spec fn alphanumeric(c: char) -> bool {
    ('a' <= c && c <= 'z') || ('A' <= c && c <= 'Z') || text::is_digit(c)
}

/// A text with a dash in the place of each character that is no letter or digit.
pub open spec fn dashed(s: Seq<char>) -> Seq<char> {
    Seq::new(
        s.len(),
        |i: int|
            if alphanumeric(s[i]) {
                s[i]
            } else {
                '-'
            },
    )
}

/// A text with a dash in the place of each character that is no letter or digit.
pub fn sanitize(s: &str) -> (r: String)
    ensures
        r@ == dashed(s@),
{
    let v = text::chars_of(s);
    let mut r = String::new();
    let mut i: usize = 0;
    while i < v.len()
        invariant
            i <= v@.len(),
            v@ == s@,
            r@ == dashed(s@).take(i as int),
        decreases v@.len() - i,
    {
        let c = v[i];
        if (c >= 'a' && c <= 'z') || (c >= 'A' && c <= 'Z') || (c >= '0' && c <= '9') {
            r.push(c);
        } else {
            r.push('-');
        }
        assert(r@ =~= dashed(s@).take(i + 1));
        i = i + 1;
    }
    assert(dashed(s@).take(i as int) =~= dashed(s@));
    r
}

/// What is made of an identifier is a file name of letters, digits and dashes,
/// as long as the identifier.
pub proof fn dashed_is_a_file_name(s: Seq<char>)
    ensures
        dashed(s).len() == s.len(),
        !dashed(s).contains('/'),
        !dashed(s).contains('.'),
        dashed(dashed(s)) == dashed(s),
{
    assert(dashed(dashed(s)) =~= dashed(s));
}

/// Bytes in hexadecimal, two digits each.
pub open spec fn hex_text(b: Seq<u8>) -> Seq<char>
    decreases b.len(),
{
    if b.len() == 0 {
        Seq::empty()
    } else {
        hex_text(b.drop_last()) + text::hexadecimal(b.last() as nat, 2)
    }
}

/// Random bytes as a text of hexadecimal digits.
pub fn rand_hex(bytes: &Vec<u8>) -> (r: String)
    ensures
        r@ == hex_text(bytes@),
{
    let mut r = String::new();
    let mut i: usize = 0;
    assert(bytes@.take(0) =~= Seq::empty());
    while i < bytes.len()
        invariant
            i <= bytes@.len(),
            r@ == hex_text(bytes@.take(i as int)),
        decreases bytes@.len() - i,
    {
        assert(bytes@.take(i + 1).drop_last() =~= bytes@.take(i as int));
        r.append(text::show_hex(bytes[i] as u64, 2).as_str());
        i = i + 1;
    }
    assert(bytes@.take(i as int) =~= bytes@);
    r
}

/// The suffix that keeps sessions apart: the one asked for, cut to eight
/// characters, or the beginning of the session's identifier, or a random one.
pub open spec fn suffix_of(
    asked: Option<Seq<char>>,
    session: Option<Seq<char>>,
    random: Seq<char>,
) -> Seq<char> {
    if asked is Some && asked->0.len() > 0 {
        text::first_chars(dashed(asked->0), 8)
    } else if session is Some && text::byte_len(session->0) >= 8 {
        text::head(session->0, 8)
    } else {
        random
    }
}

/// The suffix that keeps sessions apart. `random` is used where neither the
/// caller nor the session gives one.
pub fn derive_sid8(asked: Option<&str>, session: Option<&str>, random: &str) -> (r: String)
    requires
        asked is None || asked->0@.len() == 0 ==> (session matches Some(s) ==> text::cuttable(
            s@,
            8,
        )),
    ensures
        r@ == suffix_of(text::opt(asked), text::opt(session), random@),
{
    match asked {
        Some(a) => {
            let s = text::take_chars(sanitize(a).as_str(), 8);
            if !s.as_str().is_empty() {
                return s;
            }
        },
        None => {},
    }
    match session {
        Some(sid) => {
            if text::size(sid) >= 8 {
                return text::byte_head(sid, 8);
            }
        },
        None => {},
    }
    String::from_str(random)
}

/// The identifier of a node.
pub open spec fn node_id(role: Seq<char>, host: Seq<char>, sid8: Seq<char>) -> Seq<char> {
    role + "@"@ + host + "#"@ + sid8
}

/// The identifier of a node.
pub fn full_id(role: &str, host: &str, sid8: &str) -> (r: String)
    ensures
        r@ == node_id(role@, host@, sid8@),
{
    let mut r = String::from_str(role);
    r.append("@");
    r.append(host);
    r.append("#");
    r.append(sid8);
    r
}

/// The identifier without the session: what reaches every session of a role on
/// a machine.
pub open spec fn host_role(n: Node) -> Seq<char> {
    n.role + "@"@ + n.host
}

/// The identifier without the session.
pub fn bare(cfg: &Config) -> (r: String)
    ensures
        r@ == host_role(cfg@),
{
    let mut r = cfg.role.clone();
    r.append("@");
    r.append(cfg.host.as_str());
    r
}

/// The settings of a new node.
pub fn new_config(
    role: &str,
    host: &str,
    sid8: &str,
    repo: &str,
    git_user: Option<&str>,
    pubkey: Option<String>,
) -> (r: Config)
    ensures
        r@ == (Node {
            id: node_id(role@, host@, sid8@),
            role: role@,
            host: host@,
            sid8: Some(sid8@),
            repo: repo@,
            git_user: text::opt(git_user),
            rooms: seq!["main"@],
            pubkey: text::opt_string(pubkey),
        }),
{
    Config {
        id: full_id(role, host, sid8),
        role: String::from_str(role),
        host: String::from_str(host),
        sid8: Some(String::from_str(sid8)),
        repo: String::from_str(repo),
        git_user: match git_user {
            Some(u) => Some(String::from_str(u)),
            None => None,
        },
        rooms: default_rooms(),
        pubkey,
    }
}

/// The settings of a node whose identifier always has a suffix. One that has
/// none gets the suffix on record, or `fallback`.
pub open spec fn suffixed(n: Node, fallback: Seq<char>) -> Node {
    if !n.id.contains('#') {
        let sid8 = match n.sid8 {
            Some(s) => s,
            None => fallback,
        };
        Node { id: node_id(n.role, n.host, sid8), sid8: Some(sid8), ..n }
    } else if n.sid8 is None {
        Node { sid8: Some(text::pieces(n.id, '#')[1]), ..n }
    } else {
        n
    }
}

/// Where a text holds a separator it has more than one piece.
proof fn lemma_pieces_of(s: Seq<char>, sep: char)
    ensures
        s.contains(sep) <==> text::pieces(s, sep).len() > 1,
    decreases s.len(),
{
    if s.len() > 0 {
        let t = s.drop_last();
        lemma_pieces_of(t, sep);
        text::lemma_pieces(t, sep);
        if s.contains(sep) && s.last() != sep {
            let i = choose|i: int| 0 <= i < s.len() && s[i] == sep;
            assert(t[i] == sep);
        }
        if t.contains(sep) {
            let i = choose|i: int| 0 <= i < t.len() && t[i] == sep;
            assert(s[i] == sep);
        }
        if s.last() == sep {
            assert(s[s.len() - 1] == sep);
        }
    }
}

/// The settings of a node whose identifier always has a suffix.
pub fn with_suffix(cfg: Config, fallback: &str) -> (r: Config)
    ensures
        r@ == suffixed(cfg@, fallback@),
        r@.id.contains('#'),
        r@.sid8 is Some,
{
    let mut out = cfg;
    if !text::contains_char(out.id.as_str(), '#') {
        let sid8 = match &out.sid8 {
            Some(s) => s.clone(),
            None => String::from_str(fallback),
        };
        proof {
            reveal_strlit("#");
            let head = out.role@ + "@"@ + out.host@;
            let id = node_id(out.role@, out.host@, sid8@);
            assert(id[head.len() as int] == '#');
        }
        out.id = full_id(out.role.as_str(), out.host.as_str(), sid8.as_str());
        out.sid8 = Some(sid8);
    } else if out.sid8.is_none() {
        let parts = text::split(out.id.as_str(), '#');
        proof {
            lemma_pieces_of(out.id@, '#');
            assert(text::texts(parts@)[1] == parts@[1]@);
        }
        let sid8 = parts[1].clone();
        out.sid8 = Some(sid8);
    }
    out
}

/// Once an identifier has its suffix it keeps it.
pub proof fn suffix_stays(n: Node, fallback: Seq<char>, other: Seq<char>)
    ensures
        suffixed(suffixed(n, fallback), other) == suffixed(n, fallback),
{
    reveal_strlit("#");
    let m = suffixed(n, fallback);
    if !n.id.contains('#') {
        let head = n.role + "@"@ + n.host;
        assert(m.id[head.len() as int] == '#');
    }
}

/// Two sessions of one role on one machine have different identifiers wherever
/// their suffixes differ.
pub proof fn suffixes_keep_sessions_apart(
    role: Seq<char>,
    host: Seq<char>,
    a: Seq<char>,
    b: Seq<char>,
)
    requires
        a != b,
    ensures
        node_id(role, host, a) != node_id(role, host, b),
{
    let head = role + "@"@ + host + "#"@;
    assert(node_id(role, host, a).skip(head.len() as int) =~= a);
    assert(node_id(role, host, b).skip(head.len() as int) =~= b);
}

/// Takes part in a room, if the node does not yet; gives whether the settings
/// changed.
pub fn join_room(cfg: &mut Config, room: &str) -> (r: bool)
    ensures
        r == !old(cfg)@.rooms.contains(room@),
        final(cfg)@ == (Node {
            rooms: if old(cfg)@.rooms.contains(room@) {
                old(cfg)@.rooms
            } else {
                old(cfg)@.rooms.push(room@)
            },
            ..old(cfg)@
        }),
{
    if lists::lists(&cfg.rooms, room) {
        return false;
    }
    let ghost before = cfg.rooms@;
    cfg.rooms.push(String::from_str(room));
    proof {
        text::lemma_texts_push(before, cfg.rooms@.last());
    }
    true
}

// ---- running git ----------------------------------------------------------

/// The account that git is to run as: one that is named, differs from the
/// current one and exists on this machine. `is_account` tells whether it does.
pub fn sudo_target<F: Fn(&str) -> bool>(git_user: Option<&str>, current: &str, is_account: F) -> (r:
    Option<String>)
    requires
        git_user matches Some(u) ==> u@.len() > 0 && u@ != current@ ==> call_requires(
            is_account,
            (u,),
        ),
    ensures
        match r {
            Some(t) => git_user is Some && t@ == git_user->0@ && t@.len() > 0 && t@ != current@
                && call_ensures(is_account, (git_user->0,), true),
            None => git_user is None || git_user->0@.len() == 0 || git_user->0@ == current@
                || call_ensures(is_account, (git_user->0,), false),
        },
{
    match git_user {
        Some(u) => {
            if u.is_empty() || text::same(u, current) {
                return None;
            }
            if is_account(u) {
                Some(String::from_str(u))
            } else {
                None
            }
        },
        None => None,
    }
}

/// Whether the repository is to be handed back to the account git runs as: only
/// root can, and only where git runs as someone else.
pub fn should_heal_repo_ownership(current: &str, sudo_as: Option<&str>) -> (r: bool)
    ensures
        r == (current@ == "root"@ && sudo_as is Some),
{
    text::same(current, "root") && sudo_as.is_some()
}

/// Hands a file to the account git runs as, where that is someone else. A
/// failure is no reason to stop: the file is written.
pub fn share_with_git_user<E, F: Fn(&str, &str) -> Result<(), E>>(
    path: &str,
    sudo_as: Option<&str>,
    chown: F,
)
    requires
        sudo_as matches Some(u) ==> call_requires(chown, (path, u)),
    ensures
        sudo_as matches Some(u) ==> exists|r: Result<(), E>| call_ensures(chown, (path, u), r),
{
    match sudo_as {
        Some(u) => {
            let _ = chown(path, u);
        },
        None => {},
    }
}

/// The program and the arguments that run git in a repository.
pub open spec fn git_line(
    sudo_as: Option<Seq<char>>,
    repo: Seq<char>,
    args: Seq<Seq<char>>,
) -> (Seq<char>, Seq<Seq<char>>) {
    match sudo_as {
        Some(u) => ("sudo"@, seq!["-u"@, u, "git"@, "-C"@, repo] + args),
        None => ("git"@, seq!["-C"@, repo] + args),
    }
}

/// The program and the arguments that run git in a repository.
pub fn git_command(sudo_as: Option<&str>, repo: &str, args: &Vec<String>) -> (r: (
    &'static str,
    Vec<String>,
))
    ensures
        (r.0@, text::texts(r.1@)) == git_line(text::opt(sudo_as), repo@, text::texts(args@)),
{
    let mut v: Vec<String> = Vec::new();
    let program = match sudo_as {
        Some(u) => {
            v.push(String::from_str("-u"));
            v.push(String::from_str(u));
            v.push(String::from_str("git"));
            "sudo"
        },
        None => "git",
    };
    v.push(String::from_str("-C"));
    v.push(String::from_str(repo));
    let mut rest = lists::copy(args);
    let ghost head = v@;
    let ghost tail = rest@;
    v.append(&mut rest);
    assert(text::texts(v@) =~= text::texts(head) + text::texts(tail));
    assert(text::texts(v@) =~= git_line(text::opt(sudo_as), repo@, text::texts(args@)).1);
    (program, v)
}

/// Whether git did what it was asked for.
pub fn git_ok(outcome: &Result<String, String>) -> (r: bool)
    ensures
        r == (outcome is Ok),
{
    outcome.is_ok()
}

/// The arguments of a commit in the name of a node.
pub fn commit(id: &str, msg: &str) -> (r: Vec<String>)
    ensures
        text::texts(r@) == seq![
            "-c"@,
            "user.name="@ + id@,
            "-c"@,
            "user.email=mesh@plausiden.com"@,
            "commit"@,
            "-q"@,
            "-m"@,
            msg@,
        ],
{
    let mut name = String::from_str("user.name=");
    name.append(id);
    let ghost shown = name@;
    let mut v: Vec<String> = Vec::new();
    v.push(String::from_str("-c"));
    v.push(name);
    v.push(String::from_str("-c"));
    v.push(String::from_str("user.email=mesh@plausiden.com"));
    v.push(String::from_str("commit"));
    v.push(String::from_str("-q"));
    v.push(String::from_str("-m"));
    v.push(String::from_str(msg));
    assert(text::texts(v@) =~= seq![
        "-c"@,
        shown,
        "-c"@,
        "user.email=mesh@plausiden.com"@,
        "commit"@,
        "-q"@,
        "-m"@,
        msg@,
    ]);
    v
}

/// The file of a node in the shared repository, with that extension.
pub open spec fn node_file(id: Seq<char>, ext: Seq<char>) -> Seq<char> {
    "nodes/"@ + dashed(id) + ext
}

/// The file of a node in the shared repository, with that extension.
pub fn node_file_path(id: &str, ext: &str) -> (r: String)
    ensures
        r@ == node_file(id@, ext@),
{
    let mut r = String::from_str("nodes/");
    r.append(sanitize(id).as_str());
    r.append(ext);
    r
}

/// The name of a machine, as a command that tells it printed it.
pub fn host_name(printed: Option<&str>) -> (r: String)
    ensures
        r@ == (if printed is Some && text::trimmed(printed->0@).len() > 0 {
            text::trimmed(printed->0@)
        } else {
            "localhost"@
        }),
{
    match printed {
        Some(s) => {
            let name = text::trim(s);
            if name.as_str().is_empty() {
                String::from_str("localhost")
            } else {
                name
            }
        },
        None => String::from_str("localhost"),
    }
}

/// The current account: as a command that tells it printed it, or as the
/// surroundings name it, or root.
pub fn current_user(printed: Option<&str>, named: Option<&str>) -> (r: String)
    ensures
        r@ == (if printed is Some && text::trimmed(printed->0@).len() > 0 {
            text::trimmed(printed->0@)
        } else if named is Some {
            named->0@
        } else {
            "root"@
        }),
{
    match printed {
        Some(s) => {
            let name = text::trim(s);
            if !name.as_str().is_empty() {
                return name;
            }
        },
        None => {},
    }
    match named {
        Some(u) => String::from_str(u),
        None => String::from_str("root"),
    }
}

// ---- laws -----------------------------------------------------------------

/// A name as part of a file name keeps its letters and digits, each in its place,
/// and has a dash for everything else.
pub proof fn dashes_replace_the_rest(s: Seq<char>)
    ensures
        dashed(s).len() == s.len(),
        forall|i: int|
            0 <= i < s.len() ==> #[trigger] dashed(s)[i] == if 'a' <= s[i] <= 'z' || 'A' <= s[i]
                <= 'Z' || '0' <= s[i] <= '9' {
                s[i]
            } else {
                '-'
            },
{
}

/// A session has a directory of its own, named by the first eight characters of
/// its identifier, unless the directory to use was named; one that is too short
/// to be told apart shares the common one.
pub proof fn sessions_have_their_own_place(e: Surroundings)
    requires
        e.session matches Some(s) ==> forall|i: int|
            0 <= i < s@.len() ==> (#[trigger] s@[i] as u32) < 0x80,
    ensures
        e.mesh_home matches Some(d) ==> shared_root(e) == d@ && own_root(e) == d@,
        e.mesh_home is None && e.session is Some && e.session->0@.len() >= 8 ==> own_root(e)
            == paths::under(
            paths::under(shared_root(e), "sessions"@),
            e.session->0@.take(8),
        ),
        e.session is Some && e.session->0@.len() < 8 ==> own_root(e) == shared_root(e),
        e.session is None ==> own_root(e) == shared_root(e),
{
    if e.session is Some {
        text::lemma_ascii_bytes(e.session->0@, 8);
        let s = e.session->0@;
        if s.len() == 8 {
            assert(s.take(8) =~= s);
        }
    }
}

/// The suffix of a node is the one asked for, with dashes and cut to eight
/// characters; else the beginning of its session's identifier; else what chance
/// gives.
pub proof fn suffix_is_the_one_asked_for(
    asked: Seq<char>,
    session: Seq<char>,
    other: Option<Seq<char>>,
    random: Seq<char>,
)
    requires
        asked.len() > 0,
        forall|i: int| 0 <= i < session.len() ==> (#[trigger] session[i] as u32) < 0x80,
    ensures
        suffix_of(Some(asked), other, random) == if asked.len() > 8 {
            dashed(asked).take(8)
        } else {
            dashed(asked)
        },
        session.len() >= 8 ==> suffix_of(None, Some(session), random) == session.take(8),
        session.len() < 8 ==> suffix_of(None, Some(session), random) == random,
        suffix_of(None, None, random) == random,
        suffix_of(Some(Seq::empty()), other, random) == suffix_of(None, other, random),
{
    text::lemma_ascii_bytes(session, 8);
    if session.len() == 8 {
        assert(session.take(8) =~= session);
    }
    if asked.len() == 8 {
        assert(dashed(asked).take(8) =~= dashed(asked));
    }
}

/// A node is never without a suffix: one that has none gets its role, its host
/// and the suffix on record, or the one at hand; everything else stays.
pub proof fn identifiers_get_a_suffix(n: Node, fallback: Seq<char>)
    ensures
        ({
            let r = suffixed(n, fallback);
            &&& n.id.contains('#') ==> r.id == n.id
            &&& !n.id.contains('#') && n.sid8 is None ==> r.id == n.role + "@"@ + n.host + "#"@
                + fallback && r.sid8 == Some(fallback)
            &&& !n.id.contains('#') && n.sid8 is Some ==> r.id == n.role + "@"@ + n.host + "#"@
                + n.sid8->0 && r.sid8 == n.sid8
            &&& n.sid8 is Some ==> r.sid8 == n.sid8
            &&& r.sid8 is Some
            &&& r.role == n.role && r.host == n.host && r.repo == n.repo && r.rooms == n.rooms
            &&& r.git_user == n.git_user && r.pubkey == n.pubkey
        }),
{
}

/// Git runs in the repository with the arguments that it is given, behind those
/// that say where, and as another account where one is named.
pub proof fn git_runs_in_the_repository(
    user: Seq<char>,
    repo: Seq<char>,
    args: Seq<Seq<char>>,
)
    ensures
        git_line(None, repo, args) == ("git"@, seq!["-C"@, repo] + args),
        git_line(Some(user), repo, args).0 == "sudo"@,
        git_line(Some(user), repo, args).1.take(2) == seq!["-u"@, user],
        git_line(Some(user), repo, args).1.skip(2) == seq!["git"@] + git_line(None, repo, args).1,
{
    assert(git_line(Some(user), repo, args).1.take(2) =~= seq!["-u"@, user]);
    assert(git_line(Some(user), repo, args).1.skip(2) =~= seq!["git"@] + git_line(
        None,
        repo,
        args,
    ).1);
}

} // verus!
