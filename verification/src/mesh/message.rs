//! Messages: whom they reach, in which order they are read, and which of them
//! are new.

use vstd::prelude::*;

use crate::lists;
use crate::mesh::node;
use crate::mesh::node::Config;
use crate::text;

verus! {

// ---- a message ------------------------------------------------------------

/// A message.
pub struct Message {
    pub v: u32,
    pub id: String,
    pub from: String,
    pub to: String,
    pub ts: String,
    pub kind: String,
    /// The message that this one refers to.
    pub reference: Option<String>,
    pub subject: String,
    pub body: String,
    pub repo: Option<String>,
    pub room: String,
    /// Anything more, as JSON without whitespace.
    pub ext: String,
    /// The signature, in hexadecimal.
    pub sig: Option<String>,
}

/// What a `Message` says.
pub struct Letter {
    pub v: u32,
    pub id: Seq<char>,
    pub from: Seq<char>,
    pub to: Seq<char>,
    pub ts: Seq<char>,
    pub kind: Seq<char>,
    pub reference: Option<Seq<char>>,
    pub subject: Seq<char>,
    pub body: Seq<char>,
    pub repo: Option<Seq<char>>,
    pub room: Seq<char>,
    pub ext: Seq<char>,
    pub sig: Option<Seq<char>>,
}

impl View for Message {
    type V = Letter;

    open spec fn view(&self) -> Letter {
        Letter {
            v: self.v,
            id: self.id@,
            from: self.from@,
            to: self.to@,
            ts: self.ts@,
            kind: self.kind@,
            reference: text::opt_string(self.reference),
            subject: self.subject@,
            body: self.body@,
            repo: text::opt_string(self.repo),
            room: self.room@,
            ext: self.ext@,
            sig: text::opt_string(self.sig),
        }
    }
}

/// What the messages of a list say.
pub open spec fn letters_of(v: Seq<Message>) -> Seq<Letter> {
    v.map_values(|m: Message| m@)
}

/// What a list says that grew by one message.
pub proof fn lemma_letters_push(v: Seq<Message>, m: Message)
    ensures
        letters_of(v.push(m)) == letters_of(v).push(m@),
{
    assert(letters_of(v.push(m)) =~= letters_of(v).push(m@));
}

/// A text of its own, where there is one.
fn copy_opt(s: &Option<String>) -> (r: Option<String>)
    ensures
        text::opt_string(r) == text::opt_string(*s),
{
    match s {
        Some(s) => Some(s.clone()),
        None => None,
    }
}

/// A message of its own that says the same.
pub fn copy_message(m: &Message) -> (r: Message)
    ensures
        r@ == m@,
{
    Message {
        v: m.v,
        id: m.id.clone(),
        from: m.from.clone(),
        to: m.to.clone(),
        ts: m.ts.clone(),
        kind: m.kind.clone(),
        reference: copy_opt(&m.reference),
        subject: m.subject.clone(),
        body: m.body.clone(),
        repo: copy_opt(&m.repo),
        room: m.room.clone(),
        ext: m.ext.clone(),
        sig: copy_opt(&m.sig),
    }
}

// ---- writing one ----------------------------------------------------------

/// The letter that is posted.
pub open spec fn posted(
    n: node::Node,
    id: Seq<char>,
    now: Seq<char>,
    to: Seq<char>,
    kind: Seq<char>,
    subject: Seq<char>,
    reference: Option<Seq<char>>,
    repo: Option<Seq<char>>,
    room: Option<Seq<char>>,
    body: Seq<char>,
) -> Letter {
    Letter {
        v: 1,
        id,
        from: n.id,
        to,
        ts: now,
        kind,
        reference,
        subject,
        body: text::trimmed_end(body),
        repo,
        room: match room {
            Some(r) => r,
            None => "main"@,
        },
        ext: "{}"@,
        sig: None,
    }
}

/// A message to post, unsigned.
pub fn new_post(
    cfg: &Config,
    id: &str,
    now: &str,
    to: &str,
    kind: &str,
    subject: &str,
    reference: Option<&str>,
    repo: Option<&str>,
    room: Option<&str>,
    body: &str,
) -> (r: Message)
    ensures
        r@ == posted(
            cfg@,
            id@,
            now@,
            to@,
            kind@,
            subject@,
            text::opt(reference),
            text::opt(repo),
            text::opt(room),
            body@,
        ),
{
    Message {
        v: 1,
        id: String::from_str(id),
        from: cfg.id.clone(),
        to: String::from_str(to),
        ts: String::from_str(now),
        kind: String::from_str(kind),
        reference: match reference {
            Some(s) => Some(String::from_str(s)),
            None => None,
        },
        subject: String::from_str(subject),
        body: text::trim_end(body),
        repo: match repo {
            Some(s) => Some(String::from_str(s)),
            None => None,
        },
        room: match room {
            Some(s) => String::from_str(s),
            None => node::default_room(),
        },
        ext: String::from_str("{}"),
        sig: None,
    }
}

/// The subject of a message that is typed: as it was typed, or the beginning of
/// the body.
pub open spec fn typed_subject(subject: Seq<char>, body: Seq<char>) -> Seq<char> {
    if text::trimmed(subject).len() > 0 {
        text::trimmed(subject)
    } else if text::joined(text::words_of(body), " "@).len() > 0 {
        text::first_chars(text::joined(text::words_of(body), " "@), 60)
    } else {
        "(message)"@
    }
}

/// The letter that is typed. Only that of the owner carries the owner's
/// authority.
pub open spec fn typed(
    n: node::Node,
    id: Seq<char>,
    now: Seq<char>,
    to: Seq<char>,
    room: Seq<char>,
    subject: Seq<char>,
    body: Seq<char>,
) -> Letter {
    Letter {
        v: 1,
        id,
        from: n.id,
        to,
        ts: now,
        kind: if n.role == "owner"@ {
            "directive"@
        } else {
            "say"@
        },
        reference: None,
        subject: typed_subject(subject, body),
        body: text::trimmed(body),
        repo: None,
        room,
        ext: if n.role == "owner"@ {
            "{\"authority\":\"owner\"}"@
        } else {
            "{}"@
        },
        sig: None,
    }
}

/// A message that was typed, unsigned.
pub fn send_from_monitor(
    cfg: &Config,
    id: &str,
    now: &str,
    to: &str,
    room: &str,
    subject: &str,
    body: &str,
) -> (r: Message)
    ensures
        r@ == typed(cfg@, id@, now@, to@, room@, subject@, body@),
{
    let owner = text::same(cfg.role.as_str(), "owner");
    let trimmed = text::trim(subject);
    let chosen = if trimmed.as_str().is_empty() {
        let words = text::words(body);
        let d = text::join(&words, " ");
        if d.as_str().is_empty() {
            String::from_str("(message)")
        } else {
            text::take_chars(d.as_str(), 60)
        }
    } else {
        trimmed
    };
    Message {
        v: 1,
        id: String::from_str(id),
        from: cfg.id.clone(),
        to: String::from_str(to),
        ts: String::from_str(now),
        kind: String::from_str(
            if owner {
                "directive"
            } else {
                "say"
            },
        ),
        reference: None,
        subject: chosen,
        body: text::trim(body),
        repo: None,
        room: String::from_str(room),
        ext: String::from_str(
            if owner {
                "{\"authority\":\"owner\"}"
            } else {
                "{}"
            },
        ),
        sig: None,
    }
}

/// Only the owner's messages carry the owner's authority, and only they are
/// directives.
pub proof fn only_the_owner_directs(
    n: node::Node,
    id: Seq<char>,
    now: Seq<char>,
    to: Seq<char>,
    room: Seq<char>,
    subject: Seq<char>,
    body: Seq<char>,
)
    ensures
        typed(n, id, now, to, room, subject, body).kind == "directive"@ <==> n.role == "owner"@,
        typed(n, id, now, to, room, subject, body).ext == "{\"authority\":\"owner\"}"@ <==> n.role
            == "owner"@,
{
    reveal_strlit("directive");
    reveal_strlit("say");
    reveal_strlit("{}");
    reveal_strlit("{\"authority\":\"owner\"}");
    assert("directive"@[0] == 'd');
    assert("say"@[0] == 's');
    assert("{}"@.len() == 2);
    assert("{\"authority\":\"owner\"}"@.len() > 2);
}

/// The file name of a message.
pub open spec fn file_name(stamp: Seq<char>, node: Seq<char>, id: Seq<char>) -> Seq<char> {
    stamp + "-"@ + node::dashed(node) + "-"@ + text::head(id, 8) + ".json"@
}

/// The file name of a message.
pub fn message_file(stamp: &str, cfg: &Config, id: &str) -> (r: String)
    requires
        text::chars_before(id@, 8) >= 0,
    ensures
        r@ == file_name(stamp@, cfg@.id, id@),
{
    let mut r = String::from_str(stamp);
    r.append("-");
    r.append(node::sanitize(cfg.id.as_str()).as_str());
    r.append("-");
    r.append(text::byte_head(id, 8).as_str());
    r.append(".json");
    r
}

// ---- order ----------------------------------------------------------------

/// Whether a message is read before another: the earlier first, and of two of
/// one second the one with the lesser identifier.
pub open spec fn earlier(a: Letter, b: Letter) -> bool {
    text::before(a.ts, b.ts) || (a.ts == b.ts && text::before(a.id, b.id))
}

/// Whether a list has a message with an identifier.
pub open spec fn has_id(v: Seq<Letter>, id: Seq<char>) -> bool {
    exists|i: int| 0 <= i < v.len() && (#[trigger] v[i]).id == id
}

/// The messages of a list, of those with one identifier only the first.
pub open spec fn arrivals(v: Seq<Letter>) -> Seq<Letter>
    decreases v.len(),
{
    if v.len() == 0 {
        Seq::empty()
    } else {
        let before = arrivals(v.drop_last());
        if has_id(before, v.last().id) {
            before
        } else {
            before.push(v.last())
        }
    }
}

/// A list with one more message, behind all that it is not read before.
pub open spec fn placed(v: Seq<Letter>, x: Letter) -> Seq<Letter>
    decreases v.len(),
{
    if v.len() == 0 || !earlier(x, v.last()) {
        v.push(x)
    } else {
        placed(v.drop_last(), x).push(v.last())
    }
}

/// The messages of a list in the order they are read.
pub open spec fn in_order(v: Seq<Letter>) -> Seq<Letter>
    decreases v.len(),
{
    if v.len() == 0 {
        Seq::empty()
    } else {
        placed(in_order(v.drop_last()), v.last())
    }
}

/// Whether a message is read before another.
pub fn is_earlier(a: &Message, b: &Message) -> (r: bool)
    ensures
        r == earlier(a@, b@),
{
    text::is_before(a.ts.as_str(), b.ts.as_str()) || (text::same(a.ts.as_str(), b.ts.as_str())
        && text::is_before(a.id.as_str(), b.id.as_str()))
}

/// Whether a list has a message with an identifier.
fn knows_id(v: &Vec<Message>, id: &str) -> (r: bool)
    ensures
        r == has_id(letters_of(v@), id@),
{
    let mut i: usize = 0;
    while i < v.len()
        invariant
            i <= v@.len(),
            forall|k: int| 0 <= k < i ==> (#[trigger] letters_of(v@)[k]).id != id@,
        decreases v@.len() - i,
    {
        assert(letters_of(v@)[i as int] == v@[i as int]@);
        if text::same(v[i].id.as_str(), id) {
            return true;
        }
        i = i + 1;
    }
    false
}

proof fn lemma_placed(v: Seq<Letter>, x: Letter, k: int)
    requires
        0 <= k <= v.len(),
        k == 0 || !earlier(x, v[k - 1]),
        forall|i: int| k <= i < v.len() ==> earlier(x, v[i]),
    ensures
        placed(v, x) == v.take(k).push(x) + v.skip(k),
    decreases v.len(),
{
    if k == v.len() {
        assert(v.take(k).push(x) + v.skip(k) =~= v.push(x));
    } else {
        let w = v.drop_last();
        lemma_placed(w, x, k);
        assert(w.take(k) =~= v.take(k));
        assert(w.skip(k).push(v.last()) =~= v.skip(k));
        assert(placed(v, x) =~= v.take(k).push(x) + v.skip(k));
    }
}

/// The messages that were read from several places, in the order they are read,
/// each once.
pub fn sorted_msgs(found: &Vec<Message>) -> (r: Vec<Message>)
    ensures
        letters_of(r@) == in_order(arrivals(letters_of(found@))),
{
    let ghost all = letters_of(found@);
    let mut once: Vec<Message> = Vec::new();
    let mut i: usize = 0;
    assert(all.take(0) =~= Seq::empty());
    assert(letters_of(once@) =~= Seq::empty());
    while i < found.len()
        invariant
            i <= found@.len(),
            all == letters_of(found@),
            letters_of(once@) == arrivals(all.take(i as int)),
        decreases found@.len() - i,
    {
        proof {
            assert(all.take(i + 1).drop_last() =~= all.take(i as int));
            assert(all.take(i + 1).last() == found@[i as int]@);
        }
        if !knows_id(&once, found[i].id.as_str()) {
            let ghost was = once@;
            once.push(copy_message(&found[i]));
            proof {
                lemma_letters_push(was, once@.last());
            }
        }
        i = i + 1;
    }
    assert(all.take(i as int) =~= all);
    sort_messages(&once)
}

/// The messages of a list in the order they are read.
pub fn sort_messages(v: &Vec<Message>) -> (r: Vec<Message>)
    ensures
        letters_of(r@) == in_order(letters_of(v@)),
{
    let ghost all = letters_of(v@);
    let mut out: Vec<Message> = Vec::new();
    let mut i: usize = 0;
    assert(all.take(0) =~= Seq::empty());
    assert(letters_of(out@) =~= Seq::empty());
    while i < v.len()
        invariant
            i <= v@.len(),
            all == letters_of(v@),
            letters_of(out@) == in_order(all.take(i as int)),
        decreases v@.len() - i,
    {
        let m = copy_message(&v[i]);
        let ghost before = letters_of(out@);
        let mut k: usize = out.len();
        while k > 0 && is_earlier(&m, &out[k - 1])
            invariant
                k <= out@.len(),
                before == letters_of(out@),
                forall|j: int| k <= j < out@.len() ==> earlier(m@, #[trigger] before[j]),
            decreases k,
        {
            k = k - 1;
            assert(before[k as int] == out@[k as int]@);
        }
        proof {
            assert(all.take(i + 1).drop_last() =~= all.take(i as int));
            assert(all.take(i + 1).last() == m@);
            if k > 0 {
                assert(before[k - 1] == out@[k - 1]@);
            }
            lemma_placed(before, m@, k as int);
        }
        out.insert(k, m);
        assert(letters_of(out@) =~= before.take(k as int).push(m@) + before.skip(k as int));
        i = i + 1;
    }
    assert(all.take(i as int) =~= all);
    out
}

// ---- whom it reaches ------------------------------------------------------

/// Whether a message is for a node: for it, for everyone, for its role, or for
/// its role on its machine.
pub open spec fn reaches(m: Letter, n: node::Node) -> bool {
    m.to == n.id || m.to == "all"@ || m.to == "role:"@ + n.role || m.to == node::host_role(n)
}

/// Whether a message names the node, and not a circle of nodes.
pub open spec fn is_direct(m: Letter, n: node::Node) -> bool {
    m.to == n.id || m.to == node::host_role(n)
}

/// Whether a message is new to a node: for it, from another, not seen, and in a
/// room it takes part in unless it names the node.
pub open spec fn is_unread(m: Letter, n: node::Node, seen: Seq<Seq<char>>) -> bool {
    m.from != n.id && reaches(m, n) && !seen.contains(m.id) && (is_direct(m, n) || n.rooms.contains(
        m.room,
    ))
}

/// Whether a message is for a node.
pub fn addressed_to_me(m: &Message, cfg: &Config) -> (r: bool)
    ensures
        r == reaches(m@, cfg@),
{
    let to = m.to.as_str();
    let mut role = String::from_str("role:");
    role.append(cfg.role.as_str());
    text::same(to, cfg.id.as_str()) || text::same(to, "all") || text::same(to, role.as_str())
        || text::same(to, node::bare(cfg).as_str())
}

/// Whether a message names the node, and not a circle of nodes.
pub fn names_me(m: &Message, cfg: &Config) -> (r: bool)
    ensures
        r == is_direct(m@, cfg@),
{
    text::same(m.to.as_str(), cfg.id.as_str()) || text::same(
        m.to.as_str(),
        node::bare(cfg).as_str(),
    )
}

/// Those messages of a list that are new to a node, in their order.
pub open spec fn unread_of(v: Seq<Letter>, n: node::Node, seen: Seq<Seq<char>>) -> Seq<Letter>
    decreases v.len(),
{
    if v.len() == 0 {
        Seq::empty()
    } else if is_unread(v.last(), n, seen) {
        unread_of(v.drop_last(), n, seen).push(v.last())
    } else {
        unread_of(v.drop_last(), n, seen)
    }
}

/// Those messages of a list that are new to a node.
pub fn unread(msgs: &Vec<Message>, cfg: &Config, seen: &Vec<String>) -> (r: Vec<Message>)
    ensures
        letters_of(r@) == unread_of(letters_of(msgs@), cfg@, text::texts(seen@)),
{
    let ghost all = letters_of(msgs@);
    let mut out: Vec<Message> = Vec::new();
    let mut i: usize = 0;
    assert(all.take(0) =~= Seq::empty());
    assert(letters_of(out@) =~= Seq::empty());
    while i < msgs.len()
        invariant
            i <= msgs@.len(),
            all == letters_of(msgs@),
            letters_of(out@) == unread_of(all.take(i as int), cfg@, text::texts(seen@)),
        decreases msgs@.len() - i,
    {
        let m = &msgs[i];
        proof {
            assert(all.take(i + 1).drop_last() =~= all.take(i as int));
            assert(all.take(i + 1).last() == m@);
        }
        if !text::same(m.from.as_str(), cfg.id.as_str()) && addressed_to_me(m, cfg)
            && !lists::lists(seen, m.id.as_str()) && (names_me(m, cfg) || lists::lists(
            &cfg.rooms,
            m.room.as_str(),
        )) {
            let ghost was = out@;
            out.push(copy_message(m));
            proof {
                lemma_letters_push(was, out@.last());
            }
        }
        i = i + 1;
    }
    assert(all.take(i as int) =~= all);
    out
}

/// The messages of a list in some rooms, in their order.
pub open spec fn in_rooms(v: Seq<Letter>, rooms: Seq<Seq<char>>) -> Seq<Letter>
    decreases v.len(),
{
    if v.len() == 0 {
        Seq::empty()
    } else if rooms.contains(v.last().room) {
        in_rooms(v.drop_last(), rooms).push(v.last())
    } else {
        in_rooms(v.drop_last(), rooms)
    }
}

/// The messages of a list in some rooms.
pub fn filter_rooms(msgs: &Vec<Message>, rooms: &Vec<String>) -> (r: Vec<Message>)
    ensures
        letters_of(r@) == in_rooms(letters_of(msgs@), text::texts(rooms@)),
{
    let ghost all = letters_of(msgs@);
    let mut out: Vec<Message> = Vec::new();
    let mut i: usize = 0;
    assert(all.take(0) =~= Seq::empty());
    assert(letters_of(out@) =~= Seq::empty());
    while i < msgs.len()
        invariant
            i <= msgs@.len(),
            all == letters_of(msgs@),
            letters_of(out@) == in_rooms(all.take(i as int), text::texts(rooms@)),
        decreases msgs@.len() - i,
    {
        proof {
            assert(all.take(i + 1).drop_last() =~= all.take(i as int));
            assert(all.take(i + 1).last() == msgs@[i as int]@);
        }
        if lists::lists(rooms, msgs[i].room.as_str()) {
            let ghost was = out@;
            out.push(copy_message(&msgs[i]));
            proof {
                lemma_letters_push(was, out@.last());
            }
        }
        i = i + 1;
    }
    assert(all.take(i as int) =~= all);
    out
}

/// The rooms to read: the one asked for, or those that a node takes part in.
pub fn wanted_rooms(room: Option<&str>, cfg: &Config) -> (r: Vec<String>)
    ensures
        text::texts(r@) == (match room {
            Some(x) => seq![x@],
            None => cfg@.rooms,
        }),
{
    match room {
        Some(x) => {
            let mut v: Vec<String> = Vec::new();
            v.push(String::from_str(x));
            assert(text::texts(v@) =~= seq![x@]);
            v
        },
        None => lists::copy(&cfg.rooms),
    }
}

/// Whether a message is the one that is asked for, by its identifier or the
/// beginning of it.
pub open spec fn answers_to(m: Letter, id: Seq<char>) -> bool {
    m.id == id || text::begins(m.id, id)
}

/// The first message of a list that is asked for; `None` where there is none.
pub fn find_message<'a>(msgs: &'a Vec<Message>, id: &str) -> (r: Option<&'a Message>)
    ensures
        match r {
            Some(m) => exists|i: int|
                0 <= i < msgs@.len() && #[trigger] msgs@[i] == *m && answers_to(m@, id@)
                    && forall|k: int| 0 <= k < i ==> !answers_to((#[trigger] msgs@[k])@, id@),
            None => forall|k: int| 0 <= k < msgs@.len() ==> !answers_to((#[trigger] msgs@[k])@, id@),
        },
{
    let mut i: usize = 0;
    while i < msgs.len()
        invariant
            i <= msgs@.len(),
            forall|k: int| 0 <= k < i ==> !answers_to((#[trigger] msgs@[k])@, id@),
        decreases msgs@.len() - i,
    {
        if text::same(msgs[i].id.as_str(), id) || text::starts_with(msgs[i].id.as_str(), id) {
            return Some(&msgs[i]);
        }
        i = i + 1;
    }
    None
}

// ---- what was seen --------------------------------------------------------

/// The lines of a text without the whitespace around them.
pub open spec fn trimmed_lines(s: Seq<char>) -> Seq<Seq<char>> {
    text::lines_of(s).map_values(|l: Seq<char>| text::trimmed(l))
}

/// The identifiers on record as seen.
pub fn load_seen(raw: &str) -> (r: Vec<String>)
    ensures
        text::texts(r@) == trimmed_lines(raw@),
{
    let lines = text::lines(raw);
    let ghost all = trimmed_lines(raw@);
    let mut out: Vec<String> = Vec::new();
    let mut i: usize = 0;
    while i < lines.len()
        invariant
            i <= lines@.len(),
            text::texts(lines@) == text::lines_of(raw@),
            all == trimmed_lines(raw@),
            text::texts(out@) == all.take(i as int),
        decreases lines@.len() - i,
    {
        let ghost was = out@;
        out.push(text::trim(lines[i].as_str()));
        proof {
            text::lemma_texts_push(was, out@.last());
            assert(text::lines_of(raw@)[i as int] == lines@[i as int]@);
            assert(text::texts(out@) =~= all.take(i + 1));
        }
        i = i + 1;
    }
    assert(all.take(i as int) =~= all);
    out
}

/// The text that puts identifiers on record: all of them in their order, each
/// on a line.
pub open spec fn seen_text(ids: Seq<Seq<char>>) -> Seq<char> {
    text::joined(lists::sorted_set(ids), "\n"@) + "\n"@
}

/// What is to be put on record once messages were seen; `None` where all of
/// them were seen before.
pub fn mark_seen(seen: &Vec<String>, ids: &Vec<String>) -> (r: Option<String>)
    ensures
        r is None <==> forall|i: int|
            0 <= i < ids@.len() ==> text::texts(seen@).contains((#[trigger] ids@[i])@),
        r matches Some(s) ==> s@ == seen_text(text::texts(seen@) + text::texts(ids@)),
{
    let mut changed = false;
    let mut all = lists::copy(seen);
    let ghost old_ids = text::texts(seen@);
    let ghost new_ids = text::texts(ids@);
    let mut i: usize = 0;
    assert(old_ids + new_ids.take(0) =~= old_ids);
    while i < ids.len()
        invariant
            i <= ids@.len(),
            old_ids == text::texts(seen@),
            new_ids == text::texts(ids@),
            text::texts(all@) == old_ids + new_ids.take(i as int),
            !changed <==> forall|k: int|
                0 <= k < i ==> old_ids.contains((#[trigger] ids@[k])@),
        decreases ids@.len() - i,
    {
        if !lists::lists(seen, ids[i].as_str()) {
            changed = true;
        }
        let ghost was = all@;
        all.push(ids[i].clone());
        proof {
            text::lemma_texts_push(was, all@.last());
            assert(text::texts(all@) =~= old_ids + new_ids.take(i + 1));
        }
        i = i + 1;
    }
    if !changed {
        return None;
    }
    assert(new_ids.take(i as int) =~= new_ids);
    let sorted = lists::sort_set(&all);
    let mut r = text::join(&sorted, "\n");
    r.append("\n");
    Some(r)
}

// ---- laws -----------------------------------------------------------------

/// A message that names a node is new to it whatever rooms the node takes part
/// in.
pub proof fn direct_messages_are_delivered(m: Letter, n: node::Node, seen: Seq<Seq<char>>)
    requires
        is_direct(m, n),
        m.from != n.id,
        !seen.contains(m.id),
    ensures
        is_unread(m, n, seen),
{
}

/// A node is never told of its own messages.
pub proof fn own_messages_are_not_new(m: Letter, n: node::Node, seen: Seq<Seq<char>>)
    requires
        m.from == n.id,
    ensures
        !is_unread(m, n, seen),
{
}

/// Whether an identifier can be put on record on a line of its own.
pub open spec fn recordable(id: Seq<char>) -> bool {
    text::trimmed(id) == id && !id.contains('\n')
}

proof fn lemma_recordable(id: Seq<char>)
    requires
        recordable(id),
    ensures
        text::without_suffix(id, '\r') == id,
{
    if id.len() > 0 {
        let (i, j) = text::lemma_trimmed_shape(id);
        let t = id.subrange(i, j);
        assert(t == id);
        assert(t.len() == j - i);
        assert(i == 0 && j == id.len());
        assert(id.subrange(i, j) =~= id);
        assert(!text::white(id[j - 1]));
        assert(text::white('\r'));
        assert(id.last() == id[j - 1]);
        assert(id.last() != '\r');
    }
}

/// What is put on record as seen is what is read from it.
pub proof fn seen_is_read_back(ids: Seq<Seq<char>>)
    requires
        ids.len() > 0,
        forall|i: int| 0 <= i < ids.len() ==> recordable(#[trigger] ids[i]),
    ensures
        forall|x: Seq<char>| #[trigger]
            trimmed_lines(seen_text(ids)).contains(x) <==> ids.contains(x),
{
    reveal_strlit("\n");
    let set = lists::sorted_set(ids);
    lists::sorted_set_is_a_set(ids);
    assert("\n"@ =~= seq!['\n']);
    assert(ids.contains(ids[0]));
    assert(set.contains(ids[0]));
    assert forall|i: int| 0 <= i < set.len() implies recordable(#[trigger] set[i])
        && !set[i].contains('\n') && text::without_suffix(set[i], '\r') == set[i] by {
        assert(set.contains(set[i]));
        assert(ids.contains(set[i]));
        let k = choose|k: int| 0 <= k < ids.len() && ids[k] == set[i];
        assert(recordable(ids[k]));
        lemma_recordable(set[i]);
    }
    text::lines_read_back(set);
    assert(trimmed_lines(seen_text(ids)) =~= set);
}

/// What is on record once messages were seen.
pub open spec fn record_after(raw: Seq<char>, ids: Seq<Seq<char>>) -> Seq<char> {
    let seen = trimmed_lines(raw);
    if forall|i: int| 0 <= i < ids.len() ==> seen.contains(#[trigger] ids[i]) {
        raw
    } else {
        seen_text(seen + ids)
    }
}

/// What is read from a record can be put on record again.
proof fn lemma_seen_recordable(raw: Seq<char>, i: int)
    requires
        0 <= i < trimmed_lines(raw).len(),
    ensures
        recordable(trimmed_lines(raw)[i]),
{
    let l = text::lines_of(raw)[i];
    let p = text::pieces(raw, '\n');
    text::lemma_pieces(raw, '\n');
    assert(!p[i].contains('\n'));
    assert forall|k: int| 0 <= k < l.len() implies l[k] != '\n' by {
        assert(l[k] == p[i][k]);
        assert(p[i].contains(p[i][k]));
    }
    let (from, to) = text::lemma_trimmed_shape(l);
    let t = text::trimmed(l);
    if t.contains('\n') {
        let k = choose|k: int| 0 <= k < t.len() && t[k] == '\n';
        assert(t[k] == l[from + k]);
    }
    if from < to {
        assert(t[0] == l[from] && t.last() == l[to - 1]);
    }
    assert(text::trimmed(t) =~= t);
}

/// Once a message is put on record as seen it is not new any more, and none that
/// was seen before becomes new.
pub proof fn acked_message_is_not_new(
    m: Letter,
    n: node::Node,
    raw: Seq<char>,
    ids: Seq<Seq<char>>,
)
    requires
        ids.contains(m.id) || trimmed_lines(raw).contains(m.id),
        forall|i: int| 0 <= i < ids.len() ==> recordable(#[trigger] ids[i]),
    ensures
        !is_unread(m, n, trimmed_lines(record_after(raw, ids))),
{
    let seen = trimmed_lines(raw);
    if ids.contains(m.id) {
        let k = choose|k: int| 0 <= k < ids.len() && ids[k] == m.id;
        assert((seen + ids)[seen.len() + k] == m.id);
        assert(ids[k] == m.id);
    } else {
        let k = choose|k: int| 0 <= k < seen.len() && seen[k] == m.id;
        assert((seen + ids)[k] == m.id);
    }
    if exists|i: int| 0 <= i < ids.len() && !seen.contains(#[trigger] ids[i]) {
        assert forall|i: int| 0 <= i < (seen + ids).len() implies recordable(
            #[trigger] (seen + ids)[i],
        ) by {
            if i < seen.len() {
                lemma_seen_recordable(raw, i);
            } else {
                assert((seen + ids)[i] == ids[i - seen.len()]);
            }
        }
        seen_is_read_back(seen + ids);
        assert(trimmed_lines(seen_text(seen + ids)).contains(m.id));
    }
}

/// Whether each message is read before those behind it.
pub open spec fn ascending(v: Seq<Letter>) -> bool {
    forall|i: int, j: int| 0 <= i < j < v.len() ==> earlier(v[i], v[j])
}

/// Whether no two messages of a list have one identifier.
pub open spec fn distinct(v: Seq<Letter>) -> bool {
    forall|i: int, j: int| 0 <= i < j < v.len() ==> v[i].id != v[j].id
}

proof fn lemma_earlier_transitive(a: Letter, b: Letter, c: Letter)
    requires
        earlier(a, b),
        earlier(b, c),
    ensures
        earlier(a, c),
{
    if text::before(a.ts, b.ts) && text::before(b.ts, c.ts) {
        text::lemma_before_transitive(a.ts, b.ts, c.ts);
    }
    if text::before(a.id, b.id) && text::before(b.id, c.id) {
        text::lemma_before_transitive(a.id, b.id, c.id);
    }
}

proof fn lemma_earlier_total(a: Letter, b: Letter)
    requires
        a.id != b.id,
    ensures
        earlier(a, b) || earlier(b, a),
        !(earlier(a, b) && earlier(b, a)),
{
    text::lemma_before_total(a.ts, b.ts);
    text::lemma_before_total(a.id, b.id);
    if earlier(a, b) && earlier(b, a) {
        lemma_earlier_transitive(a, b, a);
        text::lemma_before_irreflexive(a.ts);
        text::lemma_before_irreflexive(a.id);
    }
}

proof fn lemma_arrivals(v: Seq<Letter>)
    ensures
        distinct(arrivals(v)),
        forall|i: int| 0 <= i < v.len() ==> has_id(arrivals(v), (#[trigger] v[i]).id),
        forall|i: int| 0 <= i < arrivals(v).len() ==> v.contains(#[trigger] arrivals(v)[i]),
    decreases v.len(),
{
    if v.len() > 0 {
        let w = v.drop_last();
        let x = v.last();
        lemma_arrivals(w);
        let a = arrivals(w);
        let r = arrivals(v);
        assert forall|i: int| 0 <= i < v.len() implies has_id(r, (#[trigger] v[i]).id) by {
            if i < w.len() {
                assert(w[i] == v[i]);
                let k = choose|k: int| 0 <= k < a.len() && (#[trigger] a[k]).id == v[i].id;
                assert(r[k] == a[k]);
            } else if !has_id(a, x.id) {
                assert(r[a.len() as int] == x);
            }
        }
        assert forall|i: int| 0 <= i < r.len() implies v.contains(#[trigger] r[i]) by {
            if i < a.len() {
                assert(r[i] == a[i]);
                let k = choose|k: int| 0 <= k < w.len() && w[k] == a[i];
                assert(v[k] == a[i]);
            } else {
                assert(v[v.len() - 1] == x);
            }
        }
    }
}

/// Of the messages read from several places each is kept once, under its
/// identifier, and none is made up.
pub proof fn messages_are_kept_once(v: Seq<Letter>)
    ensures
        distinct(arrivals(v)),
        forall|i: int| 0 <= i < v.len() ==> has_id(arrivals(v), (#[trigger] v[i]).id),
        forall|i: int| 0 <= i < arrivals(v).len() ==> v.contains(#[trigger] arrivals(v)[i]),
{
    lemma_arrivals(v);
}

proof fn lemma_placed_order(v: Seq<Letter>, x: Letter)
    requires
        ascending(v),
        !has_id(v, x.id),
    ensures
        ascending(placed(v, x)),
        placed(v, x).len() == v.len() + 1,
        forall|m: Letter| #[trigger] placed(v, x).contains(m) <==> v.contains(m) || m == x,
    decreases v.len(),
{
    let r = placed(v, x);
    if v.len() == 0 || !earlier(x, v.last()) {
        if v.len() > 0 {
            assert(v[v.len() - 1].id != x.id);
            lemma_earlier_total(x, v.last());
        }
        assert forall|i: int, j: int| 0 <= i < j < r.len() implies earlier(r[i], r[j]) by {
            if j == v.len() && i < v.len() - 1 {
                assert(earlier(v[i], v[v.len() - 1]));
                lemma_earlier_transitive(v[i], v.last(), x);
            }
        }
        assert forall|m: Letter| #[trigger] r.contains(m) <==> v.contains(m) || m == x by {
            if r.contains(m) {
                let k = choose|k: int| 0 <= k < r.len() && r[k] == m;
                if k < v.len() {
                    assert(v[k] == m);
                }
            }
            if v.contains(m) {
                let k = choose|k: int| 0 <= k < v.len() && v[k] == m;
                assert(r[k] == m);
            }
            assert(r[v.len() as int] == x);
        }
    } else {
        let w = v.drop_last();
        assert(!has_id(w, x.id)) by {
            if has_id(w, x.id) {
                let k = choose|k: int| 0 <= k < w.len() && (#[trigger] w[k]).id == x.id;
                assert(v[k].id == x.id);
            }
        }
        lemma_placed_order(w, x);
        let u = placed(w, x);
        assert forall|i: int, j: int| 0 <= i < j < r.len() implies earlier(r[i], r[j]) by {
            if j == u.len() {
                assert(r[i] == u[i] && r[j] == v.last());
                assert(u.contains(u[i]));
                assert(w.contains(u[i]) || u[i] == x);
                if u[i] != x {
                    let k = choose|k: int| 0 <= k < w.len() && w[k] == u[i];
                    assert(v[k] == u[i]);
                    assert(earlier(v[k], v[v.len() - 1]));
                }
            } else {
                assert(r[i] == u[i] && r[j] == u[j]);
            }
        }
        assert forall|m: Letter| #[trigger] r.contains(m) <==> v.contains(m) || m == x by {
            if r.contains(m) {
                let k = choose|k: int| 0 <= k < r.len() && r[k] == m;
                if k < u.len() {
                    assert(u[k] == m);
                    assert(u.contains(m));
                    if m != x {
                        let q = choose|q: int| 0 <= q < w.len() && w[q] == m;
                        assert(v[q] == m);
                    }
                } else {
                    assert(v[v.len() - 1] == m);
                }
            }
            if v.contains(m) || m == x {
                if m == v.last() {
                    assert(r[u.len() as int] == m);
                } else {
                    if m != x {
                        let q = choose|q: int| 0 <= q < v.len() && v[q] == m;
                        assert(w[q] == m);
                    }
                    assert(u.contains(m));
                    let k = choose|k: int| 0 <= k < u.len() && u[k] == m;
                    assert(r[k] == m);
                }
            }
        }
    }
}

/// Messages with distinct identifiers are put into one order, the earlier
/// before the later, with none lost and none added.
pub proof fn messages_come_in_order(v: Seq<Letter>)
    requires
        distinct(v),
    ensures
        ascending(in_order(v)),
        in_order(v).len() == v.len(),
        forall|m: Letter| #[trigger] in_order(v).contains(m) <==> v.contains(m),
    decreases v.len(),
{
    if v.len() > 0 {
        let w = v.drop_last();
        let x = v.last();
        messages_come_in_order(w);
        let r = in_order(w);
        assert(!has_id(r, x.id)) by {
            if has_id(r, x.id) {
                let k = choose|k: int| 0 <= k < r.len() && (#[trigger] r[k]).id == x.id;
                assert(r.contains(r[k]));
                let q = choose|q: int| 0 <= q < w.len() && w[q] == r[k];
                assert(v[q].id == v[v.len() - 1].id);
            }
        }
        lemma_placed_order(r, x);
        assert forall|m: Letter| #[trigger] in_order(v).contains(m) <==> v.contains(m) by {
            assert(in_order(v).contains(m) <==> r.contains(m) || m == x);
            if v.contains(m) {
                let k = choose|k: int| 0 <= k < v.len() && v[k] == m;
                if k < w.len() {
                    assert(w[k] == m);
                }
            }
            if w.contains(m) {
                let k = choose|k: int| 0 <= k < w.len() && w[k] == m;
                assert(v[k] == m);
            }
            assert(v[v.len() - 1] == x);
        }
    }
}

proof fn lemma_order_unique(a: Seq<Letter>, b: Seq<Letter>)
    requires
        ascending(a),
        ascending(b),
        a.len() == b.len(),
        forall|m: Letter| #[trigger] a.contains(m) <==> b.contains(m),
    ensures
        a == b,
    decreases a.len(),
{
    if a.len() > 0 {
        let x = a.last();
        let y = b.last();
        assert(a[a.len() - 1] == x && a.contains(x));
        assert(b[b.len() - 1] == y && b.contains(y));
        assert(a.contains(y));
        let i = choose|i: int| 0 <= i < b.len() && b[i] == x;
        let j = choose|j: int| 0 <= j < a.len() && a[j] == y;
        if i < b.len() - 1 {
            assert(earlier(b[i], b[b.len() - 1]));
            if j < a.len() - 1 {
                assert(earlier(a[j], a[a.len() - 1]));
                lemma_earlier_transitive(x, y, x);
            }
            text::lemma_before_irreflexive(x.ts);
            text::lemma_before_irreflexive(x.id);
            assert(false);
        }
        let c = a.drop_last();
        let d = b.drop_last();
        assert forall|m: Letter| #[trigger] c.contains(m) <==> d.contains(m) by {
            text::lemma_before_irreflexive(x.ts);
            text::lemma_before_irreflexive(x.id);
            if c.contains(m) {
                let k = choose|k: int| 0 <= k < c.len() && c[k] == m;
                assert(a[k] == m);
                assert(earlier(a[k], a[a.len() - 1]));
                assert(a.contains(m));
                let q = choose|q: int| 0 <= q < b.len() && b[q] == m;
                assert(d[q] == m);
            }
            if d.contains(m) {
                let k = choose|k: int| 0 <= k < d.len() && d[k] == m;
                assert(b[k] == m);
                assert(earlier(b[k], b[b.len() - 1]));
                assert(b.contains(m));
                assert(a.contains(m));
                let q = choose|q: int| 0 <= q < a.len() && a[q] == m;
                assert(c[q] == m);
            }
        }
        lemma_order_unique(c, d);
        assert(a =~= c.push(x));
        assert(b =~= d.push(y));
    }
}

/// The order does not depend on the order in which messages were found: the
/// same messages are always read in the same order.
pub proof fn order_is_deterministic(a: Seq<Letter>, b: Seq<Letter>)
    requires
        distinct(a),
        distinct(b),
        a.len() == b.len(),
        forall|m: Letter| #[trigger] a.contains(m) <==> b.contains(m),
    ensures
        in_order(a) == in_order(b),
{
    messages_come_in_order(a);
    messages_come_in_order(b);
    assert forall|m: Letter| #[trigger] in_order(a).contains(m) <==> in_order(b).contains(m) by {
        assert(in_order(a).contains(m) <==> a.contains(m));
    }
    lemma_order_unique(in_order(a), in_order(b));
}

/// Whether no two messages of a list differ that have one identifier.
pub open spec fn consistent(v: Seq<Letter>) -> bool {
    forall|i: int, j: int|
        0 <= i < v.len() && 0 <= j < v.len() && v[i].id == v[j].id ==> v[i] == v[j]
}

proof fn lemma_arrivals_hold_all(v: Seq<Letter>, m: Letter)
    requires
        consistent(v),
    ensures
        arrivals(v).contains(m) <==> v.contains(m),
{
    lemma_arrivals(v);
    let a = arrivals(v);
    if a.contains(m) {
        let i = choose|i: int| 0 <= i < a.len() && a[i] == m;
        assert(v.contains(a[i]));
    }
    if v.contains(m) {
        let i = choose|i: int| 0 <= i < v.len() && v[i] == m;
        assert(has_id(a, v[i].id));
        let k = choose|k: int| 0 <= k < a.len() && (#[trigger] a[k]).id == m.id;
        assert(v.contains(a[k]));
        let j = choose|j: int| 0 <= j < v.len() && v[j] == a[k];
        assert(v[i].id == v[j].id);
        assert(a[k] == m);
    }
}

/// Whoever reads messages from several places reads one of every identifier among
/// them, and of no other, even where two messages have one.
pub proof fn reading_keeps_identifiers(v: Seq<Letter>, id: Seq<char>)
    ensures
        has_id(in_order(arrivals(v)), id) <==> has_id(v, id),
{
    let a = arrivals(v);
    let r = in_order(a);
    lemma_arrivals(v);
    messages_come_in_order(a);
    if has_id(v, id) {
        let i = choose|i: int| 0 <= i < v.len() && (#[trigger] v[i]).id == id;
        assert(has_id(a, v[i].id));
        let k = choose|k: int| 0 <= k < a.len() && (#[trigger] a[k]).id == id;
        assert(a.contains(a[k]));
        assert(r.contains(a[k]));
        let j = choose|j: int| 0 <= j < r.len() && r[j] == a[k];
        assert(r[j].id == id);
    }
    if has_id(r, id) {
        let j = choose|j: int| 0 <= j < r.len() && (#[trigger] r[j]).id == id;
        assert(r.contains(r[j]));
        assert(a.contains(r[j]));
        let k = choose|k: int| 0 <= k < a.len() && a[k] == r[j];
        assert(v.contains(a[k]));
        let i = choose|i: int| 0 <= i < v.len() && v[i] == a[k];
        assert(v[i].id == id);
    }
}

/// Where messages lie does not matter: as long as every message lies somewhere,
/// the same are read, in the same order. So a message that was moved into the
/// archive is read as before by whoever reads the archive too.
pub proof fn moved_messages_stay_readable(before: Seq<Letter>, after: Seq<Letter>)
    requires
        consistent(before),
        forall|m: Letter| #[trigger] before.contains(m) <==> after.contains(m),
    ensures
        in_order(arrivals(before)) == in_order(arrivals(after)),
{
    assert forall|i: int, j: int|
        0 <= i < after.len() && 0 <= j < after.len() && after[i].id == after[j].id implies after[i]
        == after[j] by {
        assert(after.contains(after[i]) && after.contains(after[j]));
        assert(before.contains(after[i]) && before.contains(after[j]));
        let p = choose|p: int| 0 <= p < before.len() && before[p] == after[i];
        let q = choose|q: int| 0 <= q < before.len() && before[q] == after[j];
        assert(before[p].id == before[q].id);
    }
    let a = arrivals(before);
    let b = arrivals(after);
    lemma_arrivals(before);
    lemma_arrivals(after);
    assert forall|m: Letter| #[trigger] a.contains(m) <==> b.contains(m) by {
        lemma_arrivals_hold_all(before, m);
        lemma_arrivals_hold_all(after, m);
        assert(before.contains(m) <==> after.contains(m));
    }
    assert(a.no_duplicates()) by {
        assert forall|i: int, j: int| 0 <= i < a.len() && 0 <= j < a.len() && i != j implies a[i]
            != a[j] by {
            if i < j {
                assert(a[i].id != a[j].id);
            } else {
                assert(a[j].id != a[i].id);
            }
        }
    }
    assert(b.no_duplicates()) by {
        assert forall|i: int, j: int| 0 <= i < b.len() && 0 <= j < b.len() && i != j implies b[i]
            != b[j] by {
            if i < j {
                assert(b[i].id != b[j].id);
            } else {
                assert(b[j].id != b[i].id);
            }
        }
    }
    a.unique_seq_to_set();
    b.unique_seq_to_set();
    assert(a.to_set() =~= b.to_set());
    order_is_deterministic(a, b);
}

/// What a node is told of is what it was not told of before, from another node,
/// for it by its identifier or by its role on its machine whatever the room, and
/// for everyone or for its role in the rooms it takes part in: each message of
/// that kind, and none of another.
pub proof fn new_messages_are_delivered(
    v: Seq<Letter>,
    n: node::Node,
    seen: Seq<Seq<char>>,
    m: Letter,
)
    ensures
        unread_of(v, n, seen).contains(m) <==> {
            &&& v.contains(m)
            &&& m.from != n.id
            &&& !seen.contains(m.id)
            &&& {
                ||| m.to == n.id
                ||| m.to == n.role + "@"@ + n.host
                ||| n.rooms.contains(m.room) && (m.to == "all"@ || m.to == "role:"@ + n.role)
            }
        },
    decreases v.len(),
{
    if v.len() > 0 {
        let w = v.drop_last();
        new_messages_are_delivered(w, n, seen, m);
        let a = unread_of(w, n, seen);
        let r = unread_of(v, n, seen);
        if a.contains(m) {
            let k = choose|k: int| 0 <= k < a.len() && a[k] == m;
            assert(r[k] == m);
        }
        if w.contains(m) {
            let k = choose|k: int| 0 <= k < w.len() && w[k] == m;
            assert(v[k] == m);
        }
        if m == v.last() {
            assert(v[v.len() - 1] == m);
            if is_unread(m, n, seen) {
                assert(r[r.len() - 1] == m);
            }
        } else {
            if v.contains(m) {
                let k = choose|k: int| 0 <= k < v.len() && v[k] == m;
                assert(w[k] == m);
            }
            if r.contains(m) {
                let k = choose|k: int| 0 <= k < r.len() && r[k] == m;
                assert(a[k] == m);
            }
        }
    }
}

/// A message to everyone, or to the role of a node, is new to it in every room
/// that it takes part in.
pub proof fn broadcasts_are_delivered(
    v: Seq<Letter>,
    n: node::Node,
    seen: Seq<Seq<char>>,
    i: int,
)
    requires
        0 <= i < v.len(),
        v[i].to == "all"@ || v[i].to == "role:"@ + n.role,
        v[i].from != n.id,
        !seen.contains(v[i].id),
        n.rooms.contains(v[i].room),
    ensures
        unread_of(v, n, seen).contains(v[i]),
{
    new_messages_are_delivered(v, n, seen, v[i]);
}

/// A message to everyone or to a role is not new in a room that a node takes no
/// part in.
pub proof fn other_rooms_are_quiet(v: Seq<Letter>, n: node::Node, seen: Seq<Seq<char>>, m: Letter)
    requires
        !n.rooms.contains(m.room),
        m.to != n.id,
        m.to != n.role + "@"@ + n.host,
    ensures
        !unread_of(v, n, seen).contains(m),
{
    new_messages_are_delivered(v, n, seen, m);
}

/// Messages that are new come in the order that they have, each as often as it is
/// there: what is new among two lists read one after the other is what is new
/// among the first, and then what is new among the second.
pub proof fn new_messages_keep_their_order(
    a: Seq<Letter>,
    b: Seq<Letter>,
    n: node::Node,
    seen: Seq<Seq<char>>,
)
    ensures
        unread_of(a + b, n, seen) == unread_of(a, n, seen) + unread_of(b, n, seen),
    decreases b.len(),
{
    if b.len() == 0 {
        assert(a + b =~= a);
        assert(unread_of(b, n, seen) =~= Seq::empty());
        assert(unread_of(a, n, seen) + unread_of(b, n, seen) =~= unread_of(a, n, seen));
    } else {
        new_messages_keep_their_order(a, b.drop_last(), n, seen);
        assert((a + b).drop_last() =~= a + b.drop_last());
        assert((a + b).last() == b.last());
        assert(unread_of(a + b, n, seen) =~= unread_of(a, n, seen) + unread_of(b, n, seen));
    }
}

/// Messages are read in the order of their times, and those of one time in the
/// order of their identifiers.
pub proof fn older_messages_come_first(v: Seq<Letter>, i: int, j: int)
    requires
        distinct(v),
        0 <= i < j < in_order(v).len(),
    ensures
        ({
            let (a, b) = (in_order(v)[i], in_order(v)[j]);
            text::before(a.ts, b.ts) || a.ts == b.ts && text::before(a.id, b.id)
        }),
{
    messages_come_in_order(v);
    assert(earlier(in_order(v)[i], in_order(v)[j]));
}

/// Of messages with one identifier the first is kept.
pub proof fn first_copy_is_kept(v: Seq<Letter>, k: int)
    requires
        0 <= k < v.len(),
        forall|i: int| 0 <= i < k ==> (#[trigger] v[i]).id != v[k].id,
    ensures
        arrivals(v).contains(v[k]),
    decreases v.len(),
{
    let w = v.drop_last();
    let before = arrivals(w);
    let all = arrivals(v);
    messages_are_kept_once(w);
    if k < w.len() {
        assert forall|i: int| 0 <= i < k implies (#[trigger] w[i]).id != w[k].id by {
            assert(w[i] == v[i]);
        }
        first_copy_is_kept(w, k);
        let i = choose|i: int| 0 <= i < before.len() && before[i] == v[k];
        assert(all[i] == v[k]);
    } else {
        if has_id(before, v[k].id) {
            let i = choose|i: int| 0 <= i < before.len() && (#[trigger] before[i]).id == v[k].id;
            assert(w.contains(before[i]));
            let j = choose|j: int| 0 <= j < w.len() && w[j] == before[i];
            assert(v[j] == w[j]);
        }
        assert(all[all.len() - 1] == v[k]);
    }
}

proof fn lemma_in_rooms(v: Seq<Letter>, rooms: Seq<Seq<char>>)
    ensures
        in_rooms(v, rooms) == v.filter(|m: Letter| rooms.contains(m.room)),
    decreases v.len(),
{
    reveal(Seq::filter);
    if v.len() > 0 {
        lemma_in_rooms(v.drop_last(), rooms);
    }
}

/// The messages of some rooms are all those that were sent there, in their order,
/// and no others.
pub proof fn rooms_show_their_messages(v: Seq<Letter>, rooms: Seq<Seq<char>>, m: Letter)
    ensures
        in_rooms(v, rooms) == v.filter(|m: Letter| rooms.contains(m.room)),
        in_rooms(v, rooms).contains(m) <==> v.contains(m) && rooms.contains(m.room),
{
    lemma_in_rooms(v, rooms);
    lists::lemma_filtered(v, |m: Letter| rooms.contains(m.room));
}

/// A message is found by the whole of its identifier or by any beginning of it.
pub proof fn messages_are_found_by_a_beginning(m: Letter, id: Seq<char>)
    ensures
        answers_to(m, id) <==> id.len() <= m.id.len() && (forall|i: int|
            0 <= i < id.len() ==> #[trigger] id[i] == m.id[i]),
{
    if id.len() <= m.id.len() {
        let head = m.id.subrange(0, id.len() as int);
        if forall|i: int| 0 <= i < id.len() ==> #[trigger] id[i] == m.id[i] {
            assert(head =~= id);
        }
        if head == id {
            assert forall|i: int| 0 <= i < id.len() implies #[trigger] id[i] == m.id[i] by {
                assert(head[i] == m.id[i]);
            }
        }
    }
}

/// A message that is posted is from the node that posts it and says what it was
/// given, without the blanks at its end; it goes to the room that was named, or
/// to the one that all nodes share. It is not signed yet.
pub proof fn posts_say_what_they_are_given(
    n: node::Node,
    id: Seq<char>,
    now: Seq<char>,
    to: Seq<char>,
    kind: Seq<char>,
    subject: Seq<char>,
    reference: Option<Seq<char>>,
    repo: Option<Seq<char>>,
    room: Option<Seq<char>>,
    body: Seq<char>,
)
    ensures
        ({
            let m = posted(n, id, now, to, kind, subject, reference, repo, room, body);
            &&& m.from == n.id && m.to == to && m.id == id && m.ts == now
            &&& m.kind == kind && m.subject == subject && m.body == text::trimmed_end(body)
            &&& m.reference == reference && m.repo == repo && m.sig is None
            &&& room matches Some(r) ==> m.room == r
            &&& room is None ==> m.room == "main"@
        }),
{
}

/// What is typed goes to whom and where it was meant, from the node it was typed
/// at, without the blanks around it. A subject that is left blank is taken from
/// the first sixty characters of the words.
pub proof fn typed_messages_say_what_was_typed(
    n: node::Node,
    id: Seq<char>,
    now: Seq<char>,
    to: Seq<char>,
    room: Seq<char>,
    subject: Seq<char>,
    body: Seq<char>,
)
    ensures
        ({
            let m = typed(n, id, now, to, room, subject, body);
            let said = text::joined(text::words_of(body), " "@);
            &&& m.from == n.id && m.to == to && m.room == room && m.id == id && m.ts == now
            &&& m.body == text::trimmed(body) && m.sig is None
            &&& text::trimmed(subject).len() > 0 ==> m.subject == text::trimmed(subject)
            &&& text::trimmed(subject).len() == 0 && 0 < said.len() <= 60 ==> m.subject == said
            &&& text::trimmed(subject).len() == 0 && said.len() > 60 ==> m.subject == said.take(60)
            &&& n.role != "owner"@ ==> m.kind == "say"@
        }),
{
}

/// Whom a message reaches: the session that it names, all sessions of a role on a
/// machine, all sessions of a role, and everyone.
pub proof fn messages_reach_whom_they_name(m: Letter, n: node::Node)
    ensures
        m.to == "all"@ ==> reaches(m, n),
        m.to == "role:"@ + n.role ==> reaches(m, n),
        m.to == n.role + "@"@ + n.host ==> reaches(m, n) && is_direct(m, n),
        m.to == n.id ==> reaches(m, n) && is_direct(m, n),
        reaches(m, n) ==> m.to == "all"@ || m.to == "role:"@ + n.role || m.to == n.role + "@"@
            + n.host || m.to == n.id,
        is_direct(m, n) ==> m.to == n.role + "@"@ + n.host || m.to == n.id,
{
}

/// The file of a message begins with its time, so that files sort as they were
/// written, and messages of one node and time whose identifiers begin otherwise
/// have files of their own.
pub proof fn message_files_are_apart(
    stamp: Seq<char>,
    sender: Seq<char>,
    a: Seq<char>,
    b: Seq<char>,
)
    ensures
        text::begins(file_name(stamp, sender, a), stamp),
        text::ends(file_name(stamp, sender, a), ".json"@),
        text::head(a, 8) != text::head(b, 8) ==> file_name(stamp, sender, a) != file_name(
            stamp,
            sender,
            b,
        ),
{
    let head = stamp + "-"@ + node::dashed(sender) + "-"@;
    let (x, y) = (file_name(stamp, sender, a), file_name(stamp, sender, b));
    let tail = ".json"@;
    assert(x.subrange(0, stamp.len() as int) =~= stamp);
    assert(x.subrange(x.len() - tail.len(), x.len() as int) =~= tail);
    assert(x.subrange(head.len() as int, x.len() - tail.len()) =~= text::head(a, 8));
    assert(y.subrange(head.len() as int, y.len() - tail.len()) =~= text::head(b, 8));
}

} // verus!
