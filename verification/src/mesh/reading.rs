//! How messages are shown on a terminal: the inbox, the nudge and the log.

use vstd::prelude::*;

use crate::lists;
use crate::mesh::layout;
use crate::mesh::message;
use crate::mesh::message::Letter;
use crate::mesh::message::Message;
use crate::mesh::node;
use crate::mesh::node::Config;
use crate::mesh::signing;
use crate::package;
use crate::text;

verus! {

// ---- pieces ---------------------------------------------------------------

/// Whether the identifiers of all messages of a list can be cut to their short
/// forms.
pub open spec fn all_listable(v: Seq<Letter>) -> bool {
    forall|i: int| 0 <= i < v.len() ==> text::cuttable((#[trigger] v[i]).id, 8)
}

/// Whether the messages of a list can be shown in an inbox.
pub fn can_list(msgs: &Vec<Message>) -> (r: bool)
    ensures
        r == all_listable(message::letters_of(msgs@)),
{
    let ghost all = message::letters_of(msgs@);
    let mut i: usize = 0;
    while i < msgs.len()
        invariant
            i <= msgs@.len(),
            all == message::letters_of(msgs@),
            forall|k: int| 0 <= k < i ==> text::cuttable((#[trigger] all[k]).id, 8),
        decreases msgs@.len() - i,
    {
        assert(all[i as int] == msgs@[i as int]@);
        if !text::can_cut(msgs[i].id.as_str(), 8) {
            return false;
        }
        i = i + 1;
    }
    true
}

/// What messages are worth, one after the other.
pub open spec fn worths(v: Seq<&'static str>) -> Seq<Seq<char>> {
    v.map_values(|s: &'static str| s@)
}

/// What a message is worth by the record of its sender.
pub open spec fn worth(m: Letter, record: Option<String>) -> Seq<char> {
    signing::trust(
        m,
        match record {
            Some(s) => signing::pinned_key(s@),
            None => None,
        },
    )
}

/// What messages are worth by the records of their senders.
pub open spec fn weighed(v: Seq<Letter>, records: Seq<Option<String>>) -> Seq<Seq<char>> {
    Seq::new(v.len(), |i: int| worth(v[i], records[i]))
}

/// What messages are worth by the records of their senders.
pub fn weigh(msgs: &Vec<Message>, records: &Vec<Option<String>>) -> (r: Vec<&'static str>)
    requires
        records@.len() == msgs@.len(),
    ensures
        worths(r@) == weighed(message::letters_of(msgs@), records@),
        r@.len() == msgs@.len(),
{
    let ghost all = weighed(message::letters_of(msgs@), records@);
    let mut out: Vec<&'static str> = Vec::new();
    let mut i: usize = 0;
    assert(worths(out@) =~= all.take(0));
    while i < msgs.len()
        invariant
            i <= msgs@.len(),
            records@.len() == msgs@.len(),
            out@.len() == i,
            all == weighed(message::letters_of(msgs@), records@),
            worths(out@) == all.take(i as int),
        decreases msgs@.len() - i,
    {
        let record: Option<&str> = match &records[i] {
            Some(s) => Some(s.as_str()),
            None => None,
        };
        let state = signing::verify_state(&msgs[i], record);
        assert(message::letters_of(msgs@)[i as int] == msgs@[i as int]@);
        assert(all[i as int] == state@);
        let ghost was = out@;
        out.push(state);
        assert(worths(out@) =~= worths(was).push(state@));
        assert(worths(out@) =~= all.take(i + 1));
        i = i + 1;
    }
    assert(all.take(i as int) =~= all);
    out
}

/// The line for a message.
pub open spec fn line_of(m: Letter) -> Seq<char> {
    m.ts + "  ["@ + m.kind + "] "@ + m.from + " → "@ + m.to + "  "@ + m.subject + "  (id "@
        + text::head(m.id, 8) + ")"@
}

/// The line for a message.
pub fn line(m: &Message) -> (r: String)
    requires
        text::cuttable(m@.id, 8),
    ensures
        r@ == line_of(m@),
{
    let mut r = m.ts.clone();
    r.append("  [");
    r.append(m.kind.as_str());
    r.append("] ");
    r.append(m.from.as_str());
    r.append(" → ");
    r.append(m.to.as_str());
    r.append("  ");
    r.append(m.subject.as_str());
    r.append("  (id ");
    r.append(text::byte_head(m.id.as_str(), 8).as_str());
    r.append(")");
    r
}

// ---- the inbox ------------------------------------------------------------

/// The lines for the messages of a list, indented.
pub open spec fn listed(v: Seq<Letter>) -> Seq<Seq<char>> {
    v.map_values(|m: Letter| "  "@ + line_of(m))
}

/// The lines of the inbox of a node.
pub open spec fn inbox_text(v: Seq<Letter>, id: Seq<char>) -> Seq<Seq<char>> {
    if v.len() == 0 {
        seq!["no new messages for "@ + id]
    } else {
        seq![text::decimal(v.len()) + " new message(s) for "@ + id + ":"@] + listed(v) + seq![
            package::named("read one: "@, "-mesh read <id>   |   mark all seen: "@) + package::named(
                ""@,
                "-mesh ack --all"@,
            ),
        ]
    }
}

/// The lines of the inbox of a node.
pub fn inbox(msgs: &Vec<Message>, cfg: &Config) -> (r: Vec<String>)
    requires
        all_listable(message::letters_of(msgs@)),
    ensures
        text::texts(r@) == inbox_text(message::letters_of(msgs@), cfg@.id),
{
    let ghost all = message::letters_of(msgs@);
    let mut out: Vec<String> = Vec::new();
    if msgs.len() == 0 {
        let mut s = String::from_str("no new messages for ");
        s.append(cfg.id.as_str());
        text::say(&mut out, s);
        assert(text::texts(out@) =~= inbox_text(all, cfg@.id));
        return out;
    }
    let mut head = text::show_usize(msgs.len());
    head.append(" new message(s) for ");
    head.append(cfg.id.as_str());
    head.append(":");
    let ghost title = head@;
    text::say(&mut out, head);
    let mut i: usize = 0;
    assert(text::texts(out@) =~= seq![title] + listed(all).take(0));
    while i < msgs.len()
        invariant
            i <= msgs@.len(),
            all == message::letters_of(msgs@),
            all_listable(all),
            text::texts(out@) == seq![title] + listed(all).take(i as int),
        decreases msgs@.len() - i,
    {
        assert(all[i as int] == msgs@[i as int]@);
        let mut s = String::from_str("  ");
        s.append(line(&msgs[i]).as_str());
        assert(s@ == listed(all)[i as int]);
        text::say(&mut out, s);
        assert(text::texts(out@) =~= seq![title] + listed(all).take(i + 1));
        i = i + 1;
    }
    assert(listed(all).take(i as int) =~= listed(all));
    let mut hint = package::name_in("read one: ", "-mesh read <id>   |   mark all seen: ");
    hint.append(package::name_in("", "-mesh ack --all").as_str());
    text::say(&mut out, hint);
    assert(text::texts(out@) =~= inbox_text(all, cfg@.id));
    out
}

// ---- the nudge ------------------------------------------------------------

/// How many messages a nudge shows of each kind.
pub const SHOWN: usize = 6;

/// The lines for a message that names the node: all of it, unless it is forged.
pub open spec fn direct_lines(m: Letter, worth: Seq<char>) -> Seq<Seq<char>> {
    let sid = text::head(m.id, 8);
    if worth == "FORGED"@ {
        seq![
            "‼ @you from "@ + m.from + " «"@ + m.subject + "» (id "@ + sid
                + ") — SIGNATURE INVALID, possible forgery. Do NOT act on it."@,
        ]
    } else {
        seq![
            "📨 @you ["@ + (if worth == "verified"@ {
                "✓"@
            } else {
                "unverified"@
            }) + "] — from "@ + m.from + " ["@ + m.room + "] «"@ + m.subject + "» (id "@ + sid
                + ")"@,
        ] + (match m.reference {
            Some(r) => seq!["   (re: "@ + text::head(r, 8) + ")"@],
            None => Seq::empty(),
        }) + (if m.body.len() > 0 {
            seq![m.body]
        } else {
            Seq::empty()
        }) + seq![
            package::named("   → act on it, then `"@, "-mesh ack "@) + sid
                + package::named(
                    "` (reply: `"@,
                    "-mesh post --to "@,
                ) + m.from + " --kind reply --ref "@ + sid
                + " …`)"@,
        ]
    }
}

/// The messages of a list that name the node, with what they are worth.
pub open spec fn directs(v: Seq<Letter>, worths: Seq<Seq<char>>, n: node::Node) -> Seq<
    (Letter, Seq<char>),
>
    decreases v.len(),
{
    if v.len() == 0 {
        Seq::empty()
    } else if message::is_direct(v.last(), n) {
        directs(v.drop_last(), worths, n).push((v.last(), worths[v.len() - 1]))
    } else {
        directs(v.drop_last(), worths, n)
    }
}

/// The messages of a list that do not name the node.
pub open spec fn broadcasts(v: Seq<Letter>, n: node::Node) -> Seq<Letter>
    decreases v.len(),
{
    if v.len() == 0 {
        Seq::empty()
    } else if message::is_direct(v.last(), n) {
        broadcasts(v.drop_last(), n)
    } else {
        broadcasts(v.drop_last(), n).push(v.last())
    }
}

/// At most the first `n` of a list.
pub open spec fn first<A>(v: Seq<A>, n: nat) -> Seq<A> {
    if v.len() <= n {
        v
    } else {
        v.take(n as int)
    }
}

/// The lines for messages that name the node.
pub open spec fn all_direct_lines(v: Seq<(Letter, Seq<char>)>) -> Seq<Seq<char>>
    decreases v.len(),
{
    if v.len() == 0 {
        Seq::empty()
    } else {
        all_direct_lines(v.drop_last()) + direct_lines(v.last().0, v.last().1)
    }
}

/// The lines for messages to a circle of nodes.
pub open spec fn broadcast_lines(v: Seq<Letter>) -> Seq<Seq<char>> {
    v.map_values(|m: Letter| "   • "@ + m.subject + " from "@ + m.from)
}

/// The lines of a nudge: messages that name the node in full, as many as are
/// shown, and how many more there are; then the subjects of the others.
pub open spec fn nudge_text(v: Seq<Letter>, worths: Seq<Seq<char>>, n: node::Node) -> Seq<
    Seq<char>,
> {
    let d = directs(v, worths, n);
    let b = broadcasts(v, n);
    all_direct_lines(first(d, SHOWN as nat)) + (if d.len() > SHOWN {
        seq![
            "📨 (+"@ + text::decimal((d.len() - SHOWN) as nat)
                + package::named(" more addressed to you — `"@, "-mesh inbox`)"@),
        ]
    } else {
        Seq::empty()
    }) + (if b.len() > 0 {
        seq!["📨 "@ + text::decimal(b.len()) + package::named(
            " broadcast message(s) — `"@,
            "-mesh inbox`:"@,
        )]
            + broadcast_lines(first(b, SHOWN as nat))
    } else {
        Seq::empty()
    })
}

/// Whether a message that names the node can be shown: its identifier can be
/// cut, and so can what it refers to, unless it is forged.
pub open spec fn can_show(d: (Letter, Seq<char>)) -> bool {
    text::cuttable(d.0.id, 8) && (d.1 != "FORGED"@ ==> (d.0.reference matches Some(r)
        ==> text::cuttable(r, 8)))
}

/// Whether all that a nudge shows of messages can be shown.
pub open spec fn can_nudge_with(v: Seq<Letter>, worths: Seq<Seq<char>>, n: node::Node) -> bool {
    let shown = first(directs(v, worths, n), SHOWN as nat);
    forall|i: int| 0 <= i < shown.len() ==> can_show(#[trigger] shown[i])
}

proof fn lemma_directs_before(v: Seq<Letter>, worths: Seq<Seq<char>>, n: node::Node, i: int)
    requires
        0 <= i <= v.len(),
    ensures
        directs(v.take(i), worths, n).len() <= directs(v, worths, n).len(),
        forall|k: int|
            0 <= k < directs(v.take(i), worths, n).len() ==> #[trigger] directs(
                v.take(i),
                worths,
                n,
            )[k] == directs(v, worths, n)[k],
    decreases v.len(),
{
    if i < v.len() {
        lemma_directs_before(v.drop_last(), worths, n, i);
        assert(v.drop_last().take(i) =~= v.take(i));
    } else {
        assert(v.take(i) =~= v);
    }
}

/// Whether all that a nudge shows of messages can be shown.
pub fn can_nudge(msgs: &Vec<Message>, states: &Vec<&'static str>, cfg: &Config) -> (r: bool)
    requires
        states@.len() == msgs@.len(),
    ensures
        r == can_nudge_with(message::letters_of(msgs@), worths(states@), cfg@),
{
    let ghost all = message::letters_of(msgs@);
    let ghost ws = worths(states@);
    let ghost shown = first(directs(all, ws, cfg@), SHOWN as nat);
    let mut direct: usize = 0;
    let mut i: usize = 0;
    assert(all.take(0) =~= Seq::empty());
    while i < msgs.len() && direct < SHOWN
        invariant
            i <= msgs@.len(),
            states@.len() == msgs@.len(),
            all == message::letters_of(msgs@),
            ws == worths(states@),
            shown == first(directs(all, ws, cfg@), SHOWN as nat),
            direct <= SHOWN,
            direct == directs(all.take(i as int), ws, cfg@).len(),
            direct <= shown.len(),
            forall|k: int| 0 <= k < direct ==> can_show(#[trigger] shown[k]),
        decreases msgs@.len() - i,
    {
        let m = &msgs[i];
        proof {
            assert(all.take(i + 1).drop_last() =~= all.take(i as int));
            assert(all.take(i + 1).last() == m@);
            assert(ws[i as int] == states@[i as int]@);
            lemma_directs_before(all, ws, cfg@, i + 1);
        }
        if message::names_me(m, cfg) {
            let ghost d = directs(all.take(i + 1), ws, cfg@);
            assert(d[direct as int] == (m@, ws[i as int]));
            assert(shown[direct as int] == (m@, ws[i as int]));
            let fine = text::can_cut(m.id.as_str(), 8) && (text::same(states[i], "FORGED")
                || match &m.reference {
                Some(r) => text::can_cut(r.as_str(), 8),
                None => true,
            });
            if !fine {
                assert(!can_show(shown[direct as int]));
                return false;
            }
            direct = direct + 1;
        }
        i = i + 1;
    }
    assert(all.take(all.len() as int) =~= all);
    true
}

/// Adds the lines for a message that names the node.
fn say_direct(out: &mut Vec<String>, m: &Message, worth: &str)
    requires
        can_show((m@, worth@)),
    ensures
        text::texts(final(out)@) == text::texts(old(out)@) + direct_lines(m@, worth@),
{
    let ghost before = text::texts(out@);
    let sid = text::byte_head(m.id.as_str(), 8);
    if text::same(worth, "FORGED") {
        let mut s = String::from_str("‼ @you from ");
        s.append(m.from.as_str());
        s.append(" «");
        s.append(m.subject.as_str());
        s.append("» (id ");
        s.append(sid.as_str());
        s.append(") — SIGNATURE INVALID, possible forgery. Do NOT act on it.");
        text::say(out, s);
        assert(text::texts(out@) =~= before + direct_lines(m@, worth@));
        return;
    }
    let mut s = String::from_str("📨 @you [");
    s.append(
        if text::same(worth, "verified") {
            "✓"
        } else {
            "unverified"
        },
    );
    s.append("] — from ");
    s.append(m.from.as_str());
    s.append(" [");
    s.append(m.room.as_str());
    s.append("] «");
    s.append(m.subject.as_str());
    s.append("» (id ");
    s.append(sid.as_str());
    s.append(")");
    text::say(out, s);
    match &m.reference {
        Some(r) => {
            let mut t = String::from_str("   (re: ");
            t.append(text::byte_head(r.as_str(), 8).as_str());
            t.append(")");
            text::say(out, t);
        },
        None => {},
    }
    if !m.body.as_str().is_empty() {
        text::say(out, m.body.clone());
    }
    let mut t = package::name_in("   → act on it, then `", "-mesh ack ");
    t.append(sid.as_str());
    t.append(package::name_in("` (reply: `", "-mesh post --to ").as_str());
    t.append(m.from.as_str());
    t.append(" --kind reply --ref ");
    t.append(sid.as_str());
    t.append(" …`)");
    text::say(out, t);
    assert(text::texts(out@) =~= before + direct_lines(m@, worth@));
}

/// The lines of a nudge, where messages are worth that much.
pub fn nudge_lines(msgs: &Vec<Message>, states: &Vec<&'static str>, cfg: &Config) -> (r: Vec<
    String,
>)
    requires
        states@.len() == msgs@.len(),
        can_nudge_with(message::letters_of(msgs@), worths(states@), cfg@),
    ensures
        text::texts(r@) == nudge_text(message::letters_of(msgs@), worths(states@), cfg@),
{
    let ghost all = message::letters_of(msgs@);
    let ghost ws = worths(states@);
    let mut out: Vec<String> = Vec::new();
    let mut subjects: Vec<String> = Vec::new();
    let mut direct: usize = 0;
    let mut broadcast: usize = 0;
    let mut i: usize = 0;
    assert(all.take(0) =~= Seq::empty());
    assert(text::texts(out@) =~= Seq::empty());
    assert(text::texts(subjects@) =~= broadcast_lines(Seq::empty()));
    while i < msgs.len()
        invariant
            i <= msgs.len(),
            states@.len() == msgs@.len(),
            all == message::letters_of(msgs@),
            ws == worths(states@),
            can_nudge_with(all, ws, cfg@),
            direct <= i,
            broadcast <= i,
            direct == directs(all.take(i as int), ws, cfg@).len(),
            broadcast == broadcasts(all.take(i as int), cfg@).len(),
            text::texts(out@) == all_direct_lines(
                first(directs(all.take(i as int), ws, cfg@), SHOWN as nat),
            ),
            text::texts(subjects@) == broadcast_lines(
                first(broadcasts(all.take(i as int), cfg@), SHOWN as nat),
            ),
        decreases msgs@.len() - i,
    {
        let m = &msgs[i];
        let ghost d = directs(all.take(i as int), ws, cfg@);
        let ghost b = broadcasts(all.take(i as int), cfg@);
        proof {
            assert(all.take(i + 1).drop_last() =~= all.take(i as int));
            assert(all.take(i + 1).last() == m@);
            assert(all[i as int] == m@);
            assert(ws[i as int] == states@[i as int]@);
        }
        if message::names_me(m, cfg) {
            let ghost x = (m@, ws[i as int]);
            if direct < SHOWN {
                proof {
                    lemma_directs_before(all, ws, cfg@, i + 1);
                    assert(directs(all.take(i + 1), ws, cfg@)[direct as int] == x);
                    assert(first(directs(all, ws, cfg@), SHOWN as nat)[direct as int] == x);
                }
                say_direct(&mut out, m, states[i]);
                assert(d.push(x).drop_last() =~= d);
            } else {
                assert(first(d.push(x), SHOWN as nat) =~= first(d, SHOWN as nat));
            }
            direct = direct + 1;
        } else {
            if broadcast < SHOWN {
                let mut s = String::from_str("   • ");
                s.append(m.subject.as_str());
                s.append(" from ");
                s.append(m.from.as_str());
                text::say(&mut subjects, s);
                assert(broadcast_lines(b.push(m@)) =~= broadcast_lines(b).push(s@));
            } else {
                assert(first(b.push(m@), SHOWN as nat) =~= first(b, SHOWN as nat));
            }
            broadcast = broadcast + 1;
        }
        i = i + 1;
    }
    assert(all.take(i as int) =~= all);
    if direct > SHOWN {
        let mut s = String::from_str("📨 (+");
        s.append(text::show_usize(direct - SHOWN).as_str());
        s.append(package::name_in(" more addressed to you — `", "-mesh inbox`)").as_str());
        text::say(&mut out, s);
    }
    if broadcast > 0 {
        let mut s = String::from_str("📨 ");
        s.append(text::show_usize(broadcast).as_str());
        s.append(package::name_in(" broadcast message(s) — `", "-mesh inbox`:").as_str());
        text::say(&mut out, s);
        let ghost x = out@;
        let ghost y = subjects@;
        out.append(&mut subjects);
        assert(text::texts(out@) =~= text::texts(x) + text::texts(y));
    }
    assert(text::texts(out@) =~= nudge_text(all, ws, cfg@));
    out
}

/// The lines of a nudge, with the records of the senders; none where something
/// that it shows cannot be cut.
pub fn nudge(msgs: &Vec<Message>, records: &Vec<Option<String>>, cfg: &Config) -> (r: Option<
    Vec<String>,
>)
    requires
        records@.len() == msgs@.len(),
    ensures
        r is Some <==> can_nudge_with(
            message::letters_of(msgs@),
            weighed(message::letters_of(msgs@), records@),
            cfg@,
        ),
        r matches Some(lines) ==> text::texts(lines@) == nudge_text(
            message::letters_of(msgs@),
            weighed(message::letters_of(msgs@), records@),
            cfg@,
        ),
{
    let states = weigh(msgs, records);
    if can_nudge(msgs, &states, cfg) {
        Some(nudge_lines(msgs, &states, cfg))
    } else {
        None
    }
}

/// A forged message is announced as one, in one line, and nothing of its body is
/// shown: whatever the body is, the line is the same.
pub proof fn forged_messages_are_not_shown(m: Letter, body: Seq<char>)
    ensures
        direct_lines(m, "FORGED"@).len() == 1,
        text::has_text(direct_lines(m, "FORGED"@)[0], "SIGNATURE INVALID"@),
        direct_lines((Letter { body, ..m }), "FORGED"@) == direct_lines(m, "FORGED"@),
{
    reveal_strlit(") — SIGNATURE INVALID, possible forgery. Do NOT act on it.");
    reveal_strlit("SIGNATURE INVALID");
    let tail = ") — SIGNATURE INVALID, possible forgery. Do NOT act on it."@;
    let head = "‼ @you from "@ + m.from + " «"@ + m.subject + "» (id "@ + text::head(m.id, 8);
    let whole = direct_lines(m, "FORGED"@)[0];
    assert(tail.subrange(4, 21) =~= "SIGNATURE INVALID"@);
    assert(text::is_at(tail, 4, "SIGNATURE INVALID"@));
    assert(head + tail + Seq::empty() =~= whole);
    text::lemma_has_text_in_whole(head, tail, Seq::empty(), "SIGNATURE INVALID"@);
}

/// A message that names the node and is not forged is shown in full: its body
/// is not cut.
pub proof fn direct_messages_are_shown_in_full(m: Letter, worth: Seq<char>)
    requires
        worth != "FORGED"@,
        m.body.len() > 0,
    ensures
        direct_lines(m, worth).contains(m.body),
{
    let r = direct_lines(m, worth);
    let k: int = if m.reference is Some {
        2
    } else {
        1
    };
    assert(r[k] == m.body);
}

// ---- the log --------------------------------------------------------------

/// The hash of a name that picks its colour.
pub open spec fn name_hash(bytes: Seq<u8>) -> u32
    decreases bytes.len(),
{
    if bytes.len() == 0 {
        0
    } else {
        name_hash(bytes.drop_last()).wrapping_mul(31).wrapping_add(bytes.last() as u32)
    }
}

/// The hash of a name that picks its colour.
pub fn hash_name(s: &str) -> (r: u32)
    ensures
        r == name_hash(vstd::utf8::encode_utf8(s@)),
{
    let bytes = s.as_bytes();
    let mut h: u32 = 0;
    let mut i: usize = 0;
    assert(bytes@.take(0) =~= Seq::empty());
    while i < bytes.len()
        invariant
            i <= bytes@.len(),
            h == name_hash(bytes@.take(i as int)),
        decreases bytes@.len() - i,
    {
        assert(bytes@.take(i + 1).drop_last() =~= bytes@.take(i as int));
        h = h.wrapping_mul(31).wrapping_add(bytes[i] as u32);
        i = i + 1;
    }
    assert(bytes@.take(i as int) =~= bytes@);
    h
}

/// The code of a colour of the palette.
pub open spec fn palette(i: int) -> Seq<char> {
    if i == 0 {
        "\x1b[1;36m"@
    } else if i == 1 {
        "\x1b[1;32m"@
    } else if i == 2 {
        "\x1b[1;33m"@
    } else if i == 3 {
        "\x1b[1;35m"@
    } else if i == 4 {
        "\x1b[1;34m"@
    } else {
        "\x1b[1;91m"@
    }
}

/// The colour of a sender: always the same for one identifier.
pub fn sender_color(id: &str) -> (r: &'static str)
    ensures
        r@ == palette(name_hash(vstd::utf8::encode_utf8(id@)) as int % 6),
{
    let k: u32 = hash_name(id) % 6;
    if k == 0 {
        "\x1b[1;36m"
    } else if k == 1 {
        "\x1b[1;32m"
    } else if k == 2 {
        "\x1b[1;33m"
    } else if k == 3 {
        "\x1b[1;35m"
    } else if k == 4 {
        "\x1b[1;34m"
    } else {
        "\x1b[1;91m"
    }
}

/// The codes that a terminal is told to change its style with; none are used
/// where the output is no terminal.
pub struct Style {
    pub bold: &'static str,
    pub bad: &'static str,
    pub good: &'static str,
    pub dim: &'static str,
    pub reset: &'static str,
    pub tty: bool,
}

/// Whether a style is the one for a terminal or for none.
pub open spec fn styled(s: Style, tty: bool) -> bool {
    &&& s.tty == tty
    &&& tty ==> s.bold@ == "\x1b[1m"@ && s.bad@ == "\x1b[1;31m"@ && s.good@ == "\x1b[32m"@ && s.dim@
        == "\x1b[2m"@ && s.reset@ == "\x1b[0m"@
    &&& !tty ==> s.bold@ == ""@ && s.bad@ == ""@ && s.good@ == ""@ && s.dim@ == ""@ && s.reset@
        == ""@
}

/// The style for a terminal or for none.
pub fn style(tty: bool) -> (r: Style)
    ensures
        styled(r, tty),
{
    if tty {
        Style {
            bold: "\x1b[1m",
            bad: "\x1b[1;31m",
            good: "\x1b[32m",
            dim: "\x1b[2m",
            reset: "\x1b[0m",
            tty,
        }
    } else {
        Style { bold: "", bad: "", good: "", dim: "", reset: "", tty }
    }
}

/// The time of day of a message, where its time has one.
pub open spec fn clock_time(ts: Seq<char>) -> Option<Seq<char>> {
    text::byte_range(ts, 11, 16)
}

/// The width of a log: a hundred columns unless asked otherwise, and between 32
/// and 240.
pub open spec fn log_width(width: nat) -> nat {
    let w = if width == 0 {
        100
    } else {
        width
    };
    if w < 32 {
        32
    } else if w > 240 {
        240
    } else {
        w
    }
}

/// What is shown of a body: all of it where that is asked for or it is short,
/// else its beginning.
pub open spec fn excerpt(body: Seq<char>, full: bool, limit: nat) -> Seq<char> {
    if full || body.len() <= limit {
        body
    } else {
        body.take(limit as int) + "…"@
    }
}

/// What is shown of a body.
pub fn show_excerpt(body: &str, full: bool, limit: usize) -> (r: String)
    ensures
        r@ == excerpt(body@, full, limit as nat),
{
    if full || body.unicode_len() <= limit {
        String::from_str(body)
    } else {
        let mut r = text::take_chars(body, limit);
        r.append("…");
        r
    }
}

/// The lines of a list, each between two texts.
pub open spec fn wrapped_in(lines: Seq<Seq<char>>, a: Seq<char>, b: Seq<char>) -> Seq<Seq<char>> {
    lines.map_values(|l: Seq<char>| a + l + b)
}

/// The mark for what a message is worth.
pub open spec fn worth_mark(worth: Seq<char>, st: Style) -> Seq<char> {
    if worth == "verified"@ {
        st.good@ + "✓"@ + st.reset@
    } else if worth == "FORGED"@ {
        st.bad@ + "‼FORGED"@ + st.reset@
    } else {
        ""@
    }
}

/// The first line for a message in a log.
pub open spec fn log_head(m: Letter, worth: Seq<char>, st: Style) -> Seq<char> {
    (if st.tty {
        palette(name_hash(vstd::utf8::encode_utf8(m.from)) as int % 6)
    } else {
        ""@
    }) + m.from + st.reset@ + " "@ + st.dim@ + (match clock_time(m.ts) {
        Some(t) => t,
        None => m.ts,
    }) + " · "@ + m.room + " → "@ + m.to + st.reset@ + " "@ + worth_mark(worth, st)
}

/// The lines for the body of a message in a log.
pub open spec fn log_body(m: Letter, full: bool, w: nat, st: Style) -> Seq<Seq<char>> {
    let body = text::trimmed(m.body);
    if body.len() == 0 {
        Seq::empty()
    } else {
        layout::wrapped(excerpt(body, full, 400), w, "  "@) + (if !full && body.len() > 400 {
            seq![
                "  "@ + st.dim@ + package::named(
                    "(full: mesh --full-context, or "@,
                    "-mesh read "@,
                ) + text::head(
                    m.id,
                    8,
                ) + ")"@ + st.reset@,
            ]
        } else {
            Seq::empty()
        })
    }
}

/// The lines for a message in a log, after an empty one.
pub open spec fn log_block(m: Letter, worth: Seq<char>, full: bool, w: nat, st: Style) -> Seq<
    Seq<char>,
> {
    seq![""@, log_head(m, worth, st)] + wrapped_in(
        layout::wrapped(text::trimmed(m.subject), w, "  "@),
        st.bold@,
        st.reset@,
    ) + (match m.reference {
        Some(r) => seq!["  "@ + st.dim@ + "↩ re "@ + text::head(r, 6) + st.reset@],
        None => Seq::empty(),
    }) + log_body(m, full, w, st)
}

/// The lines for messages in a log.
pub open spec fn log_blocks(
    v: Seq<Letter>,
    worths: Seq<Seq<char>>,
    full: bool,
    w: nat,
    st: Style,
) -> Seq<Seq<char>>
    decreases v.len(),
{
    if v.len() == 0 {
        Seq::empty()
    } else {
        log_blocks(v.drop_last(), worths, full, w, st) + log_block(
            v.last(),
            worths[v.len() - 1],
            full,
            w,
            st,
        )
    }
}

/// The first line of a log.
pub open spec fn log_title(
    rooms: Seq<Seq<char>>,
    shown: nat,
    total: nat,
    full: bool,
    w: nat,
    st: Style,
) -> Seq<char> {
    st.dim@ + "── ["@ + text::joined(rooms, ","@) + "] · "@ + text::decimal(shown) + " of "@
        + text::decimal(total) + " · "@ + text::decimal(w) + " cols"@ + (if full {
        " · full"@
    } else {
        ""@
    }) + " ──"@ + st.reset@
}

/// Whether a message can be shown in a log: what it refers to can be cut, and
/// its identifier where the log names it.
pub open spec fn can_log_one(m: Letter, full: bool) -> bool {
    &&& m.reference matches Some(r) ==> text::cuttable(r, 6)
    &&& !full && text::trimmed(m.body).len() > 400 ==> text::cuttable(m.id, 8)
}

/// Whether all messages of a list can be shown in a log.
pub open spec fn can_log_all(v: Seq<Letter>, full: bool) -> bool {
    forall|i: int| 0 <= i < v.len() ==> can_log_one(#[trigger] v[i], full)
}

/// Whether all messages of a list can be shown in a log.
pub fn can_log(msgs: &Vec<Message>, full: bool) -> (r: bool)
    ensures
        r == can_log_all(message::letters_of(msgs@), full),
{
    let ghost all = message::letters_of(msgs@);
    let mut i: usize = 0;
    while i < msgs.len()
        invariant
            i <= msgs@.len(),
            all == message::letters_of(msgs@),
            forall|k: int| 0 <= k < i ==> can_log_one(#[trigger] all[k], full),
        decreases msgs@.len() - i,
    {
        let m = &msgs[i];
        assert(all[i as int] == m@);
        let names = !full && text::trim(m.body.as_str()).as_str().unicode_len() > 400;
        let fine = (!names || text::can_cut(m.id.as_str(), 8)) && match &m.reference {
            Some(r) => text::can_cut(r.as_str(), 6),
            None => true,
        };
        if !fine {
            assert(!can_log_one(all[i as int], full));
            return false;
        }
        i = i + 1;
    }
    true
}

/// The newest `n` of a list.
pub open spec fn newest(v: Seq<Letter>, n: nat) -> Seq<Letter> {
    if n >= v.len() {
        v
    } else {
        v.skip(v.len() - n)
    }
}

/// The newest `n` messages of a list.
pub fn newest_messages(msgs: &Vec<Message>, n: usize) -> (r: Vec<Message>)
    ensures
        message::letters_of(r@) == newest(message::letters_of(msgs@), n as nat),
{
    let ghost all = message::letters_of(msgs@);
    let start: usize = if n >= msgs.len() {
        0
    } else {
        msgs.len() - n
    };
    let mut out: Vec<Message> = Vec::new();
    let mut i: usize = start;
    assert(message::letters_of(out@) =~= all.subrange(start as int, start as int));
    while i < msgs.len()
        invariant
            start <= i <= msgs@.len(),
            all == message::letters_of(msgs@),
            message::letters_of(out@) == all.subrange(start as int, i as int),
        decreases msgs@.len() - i,
    {
        let ghost was = out@;
        out.push(message::copy_message(&msgs[i]));
        proof {
            message::lemma_letters_push(was, out@.last());
            assert(message::letters_of(out@) =~= all.subrange(start as int, i + 1));
        }
        i = i + 1;
    }
    assert(message::letters_of(out@) =~= newest(all, n as nat));
    out
}

/// Adds lines, each between two texts.
fn say_wrapped(out: &mut Vec<String>, lines: &Vec<String>, a: &str, b: &str)
    ensures
        text::texts(final(out)@) == text::texts(old(out)@) + wrapped_in(
            text::texts(lines@),
            a@,
            b@,
        ),
{
    let ghost before = text::texts(out@);
    let ghost all = wrapped_in(text::texts(lines@), a@, b@);
    let mut i: usize = 0;
    assert(before + all.take(0) =~= before);
    while i < lines.len()
        invariant
            i <= lines@.len(),
            all == wrapped_in(text::texts(lines@), a@, b@),
            text::texts(out@) == before + all.take(i as int),
        decreases lines@.len() - i,
    {
        let mut s = String::from_str(a);
        s.append(lines[i].as_str());
        s.append(b);
        assert(s@ == all[i as int]);
        text::say(out, s);
        assert(text::texts(out@) =~= before + all.take(i + 1));
        i = i + 1;
    }
    assert(all.take(i as int) =~= all);
}

/// Adds the lines for a message.
fn say_block(out: &mut Vec<String>, m: &Message, worth: &str, full: bool, w: usize, st: &Style)
    requires
        can_log_one(m@, full),
    ensures
        text::texts(final(out)@) == text::texts(old(out)@) + log_block(
            m@,
            worth@,
            full,
            w as nat,
            *st,
        ),
{
    proof {
        reveal_strlit("  ");
    }
    let ghost before = text::texts(out@);
    text::say(out, String::from_str(""));
    let mut mark = String::from_str("");
    if text::same(worth, "verified") {
        mark = String::from_str(st.good);
        mark.append("✓");
        mark.append(st.reset);
    } else if text::same(worth, "FORGED") {
        mark = String::from_str(st.bad);
        mark.append("‼FORGED");
        mark.append(st.reset);
    }
    assert(mark@ =~= worth_mark(worth@, *st));
    let time = match text::byte_slice(m.ts.as_str(), 11, 16) {
        Some(t) => t,
        None => m.ts.clone(),
    };
    let mut head = String::from_str(
        if st.tty {
            sender_color(m.from.as_str())
        } else {
            ""
        },
    );
    head.append(m.from.as_str());
    head.append(st.reset);
    head.append(" ");
    head.append(st.dim);
    head.append(time.as_str());
    head.append(" · ");
    head.append(m.room.as_str());
    head.append(" → ");
    head.append(m.to.as_str());
    head.append(st.reset);
    head.append(" ");
    head.append(mark.as_str());
    assert(head@ == log_head(m@, worth@, *st));
    text::say(out, head);
    let subject = layout::wrap(text::trim(m.subject.as_str()).as_str(), w, "  ");
    say_wrapped(out, &subject, st.bold, st.reset);
    match &m.reference {
        Some(r) => {
            let mut s = String::from_str("  ");
            s.append(st.dim);
            s.append("↩ re ");
            s.append(text::byte_head(r.as_str(), 6).as_str());
            s.append(st.reset);
            text::say(out, s);
        },
        None => {},
    }
    let ghost mid = text::texts(out@);
    let body = text::trim(m.body.as_str());
    if !body.as_str().is_empty() {
        let mut lines = layout::wrap(show_excerpt(body.as_str(), full, 400).as_str(), w, "  ");
        let ghost x = out@;
        let ghost y = lines@;
        out.append(&mut lines);
        assert(text::texts(out@) =~= text::texts(x) + text::texts(y));
        if !full && body.as_str().unicode_len() > 400 {
            let mut s = String::from_str("  ");
            s.append(st.dim);
            s.append(package::name_in("(full: mesh --full-context, or ", "-mesh read ").as_str());
            s.append(text::byte_head(m.id.as_str(), 8).as_str());
            s.append(")");
            s.append(st.reset);
            text::say(out, s);
        }
    }
    assert(text::texts(out@) =~= mid + log_body(m@, full, w as nat, *st));
    assert(text::texts(out@) =~= before + log_block(m@, worth@, full, w as nat, *st));
}

/// The lines of a log of the newest messages, which are worth that much, out of
/// `total`.
pub fn log_lines(
    msgs: &Vec<Message>,
    states: &Vec<&'static str>,
    total: usize,
    rooms: &Vec<String>,
    width: usize,
    full: bool,
    st: &Style,
) -> (r: Vec<String>)
    requires
        states@.len() == msgs@.len(),
        can_log_all(message::letters_of(msgs@), full),
    ensures
        text::texts(r@) == seq![
            log_title(
                text::texts(rooms@),
                msgs@.len(),
                total as nat,
                full,
                log_width(width as nat),
                *st,
            ),
        ] + log_blocks(
            message::letters_of(msgs@),
            worths(states@),
            full,
            log_width(width as nat),
            *st,
        ) + seq![""@],
{
    let asked: usize = if width == 0 {
        100
    } else {
        width
    };
    let w: usize = if asked < 32 {
        32
    } else if asked > 240 {
        240
    } else {
        asked
    };
    let mut title = String::from_str(st.dim);
    title.append("── [");
    title.append(text::join(rooms, ",").as_str());
    title.append("] · ");
    title.append(text::show_usize(msgs.len()).as_str());
    title.append(" of ");
    title.append(text::show_usize(total).as_str());
    title.append(" · ");
    title.append(text::show_usize(w).as_str());
    title.append(" cols");
    title.append(
        if full {
            " · full"
        } else {
            ""
        },
    );
    title.append(" ──");
    title.append(st.reset);
    let ghost top = title@;
    let ghost all = message::letters_of(msgs@);
    let ghost ws = worths(states@);
    let mut out: Vec<String> = Vec::new();
    text::say(&mut out, title);
    let mut i: usize = 0;
    assert(all.take(0) =~= Seq::empty());
    assert(text::texts(out@) =~= seq![top] + log_blocks(all.take(0), ws, full, w as nat, *st));
    while i < msgs.len()
        invariant
            i <= msgs@.len(),
            states@.len() == msgs@.len(),
            all == message::letters_of(msgs@),
            ws == worths(states@),
            can_log_all(all, full),
            text::texts(out@) == seq![top] + log_blocks(
                all.take(i as int),
                ws,
                full,
                w as nat,
                *st,
            ),
        decreases msgs@.len() - i,
    {
        proof {
            assert(all.take(i + 1).drop_last() =~= all.take(i as int));
            assert(all.take(i + 1).last() == msgs@[i as int]@);
            assert(all[i as int] == msgs@[i as int]@);
            assert(ws[i as int] == states@[i as int]@);
        }
        let ghost before = text::texts(out@);
        say_block(&mut out, &msgs[i], states[i], full, w, st);
        assert(text::texts(out@) =~= seq![top] + log_blocks(
            all.take(i + 1),
            ws,
            full,
            w as nat,
            *st,
        ));
        i = i + 1;
    }
    assert(all.take(i as int) =~= all);
    text::say(&mut out, String::from_str(""));
    assert(text::texts(out@) =~= seq![top] + log_blocks(all, ws, full, w as nat, *st) + seq![""@]);
    out
}

/// The lines of a log of messages, with the records of the senders.
pub fn log(
    msgs: &Vec<Message>,
    records: &Vec<Option<String>>,
    total: usize,
    rooms: &Vec<String>,
    width: usize,
    full: bool,
    st: &Style,
) -> (r: Vec<String>)
    requires
        records@.len() == msgs@.len(),
        can_log_all(message::letters_of(msgs@), full),
    ensures
        text::texts(r@) == seq![
            log_title(
                text::texts(rooms@),
                msgs@.len(),
                total as nat,
                full,
                log_width(width as nat),
                *st,
            ),
        ] + log_blocks(
            message::letters_of(msgs@),
            weighed(message::letters_of(msgs@), records@),
            full,
            log_width(width as nat),
            *st,
        ) + seq![""@],
{
    let states = weigh(msgs, records);
    log_lines(msgs, &states, total, rooms, width, full, st)
}

// ---- rooms ----------------------------------------------------------------

/// The rooms of messages.
pub open spec fn rooms_of(v: Seq<Letter>) -> Seq<Seq<char>> {
    v.map_values(|m: Letter| m.room)
}

/// The lines for rooms; a star marks those that the node takes part in.
pub open spec fn room_lines(rooms: Seq<Seq<char>>, n: node::Node) -> Seq<Seq<char>> {
    rooms.map_values(
        |r: Seq<char>|
            "  "@ + (if n.rooms.contains(r) {
                "★"@
            } else {
                " "@
            }) + " "@ + r,
    )
}

/// The lines for the rooms that messages were sent to, and the one that is
/// always there.
pub fn list_rooms(msgs: &Vec<Message>, cfg: &Config) -> (r: Vec<String>)
    ensures
        text::texts(r@) == room_lines(
            lists::sorted_set(rooms_of(message::letters_of(msgs@)).push("main"@)),
            cfg@,
        ),
{
    let ghost all = rooms_of(message::letters_of(msgs@));
    let mut found: Vec<String> = Vec::new();
    let mut i: usize = 0;
    while i < msgs.len()
        invariant
            i <= msgs@.len(),
            all == rooms_of(message::letters_of(msgs@)),
            text::texts(found@) == all.take(i as int),
        decreases msgs@.len() - i,
    {
        assert(message::letters_of(msgs@)[i as int] == msgs@[i as int]@);
        text::say(&mut found, msgs[i].room.clone());
        assert(text::texts(found@) =~= all.take(i + 1));
        i = i + 1;
    }
    assert(all.take(i as int) =~= all);
    text::say(&mut found, node::default_room());
    let rooms = lists::sort_set(&found);
    let ghost set = lists::sorted_set(all.push("main"@));
    let ghost lines = room_lines(set, cfg@);
    let mut out: Vec<String> = Vec::new();
    let mut k: usize = 0;
    while k < rooms.len()
        invariant
            k <= rooms@.len(),
            text::texts(rooms@) == set,
            lines == room_lines(set, cfg@),
            text::texts(out@) == lines.take(k as int),
        decreases rooms@.len() - k,
    {
        assert(set[k as int] == rooms@[k as int]@);
        let mut s = String::from_str("  ");
        s.append(
            if lists::lists(&cfg.rooms, rooms[k].as_str()) {
                "★"
            } else {
                " "
            },
        );
        s.append(" ");
        s.append(rooms[k].as_str());
        assert(s@ == lines[k as int]);
        text::say(&mut out, s);
        assert(text::texts(out@) =~= lines.take(k + 1));
        k = k + 1;
    }
    assert(lines.take(k as int) =~= lines);
    out
}

// ---- laws -----------------------------------------------------------------

/// Which messages are for a node itself.
spec fn by_name(n: node::Node) -> spec_fn(Letter) -> bool {
    |m: Letter| m.to == n.id || m.to == n.role + "@"@ + n.host
}

proof fn lemma_directs(v: Seq<Letter>, worths: Seq<Seq<char>>, n: node::Node)
    ensures
        directs(v, worths, n).len() == v.filter(by_name(n)).len(),
    decreases v.len(),
{
    reveal(Seq::filter);
    if v.len() > 0 {
        lemma_directs(v.drop_last(), worths, n);
    }
}

proof fn lemma_broadcasts(v: Seq<Letter>, n: node::Node)
    ensures
        broadcasts(v, n) == v.filter(
            |m: Letter| m.to != n.id && m.to != n.role + "@"@ + n.host,
        ),
    decreases v.len(),
{
    reveal(Seq::filter);
    if v.len() > 0 {
        lemma_broadcasts(v.drop_last(), n);
    }
}

proof fn lemma_directs_at(v: Seq<Letter>, worths: Seq<Seq<char>>, n: node::Node, k: int)
    requires
        0 <= k < v.len(),
        message::is_direct(v[k], n),
    ensures
        directs(v.take(k), worths, n).len() < directs(v, worths, n).len(),
        directs(v, worths, n)[directs(v.take(k), worths, n).len() as int] == (v[k], worths[k]),
    decreases v.len(),
{
    let w = v.drop_last();
    if k < w.len() {
        assert(w[k] == v[k]);
        assert(w.take(k) =~= v.take(k));
        lemma_directs_at(w, worths, n, k);
    } else {
        assert(w =~= v.take(k));
    }
}

proof fn lemma_direct_lines(v: Seq<(Letter, Seq<char>)>, i: int, j: int)
    requires
        0 <= i < v.len(),
        0 <= j < direct_lines(v[i].0, v[i].1).len(),
    ensures
        all_direct_lines(v).contains(direct_lines(v[i].0, v[i].1)[j]),
    decreases v.len(),
{
    let w = v.drop_last();
    let line = direct_lines(v[i].0, v[i].1)[j];
    let before = all_direct_lines(w);
    let all = all_direct_lines(v);
    if i < w.len() {
        assert(w[i] == v[i]);
        lemma_direct_lines(w, i, j);
        let k = choose|k: int| 0 <= k < before.len() && before[k] == line;
        assert(all[k] == line);
    } else {
        assert(all[before.len() + j] == line);
    }
}

/// A nudge shows the first six messages that name the node, each in all its
/// lines, whatever else is new.
pub proof fn nudge_shows_what_names_the_node(
    v: Seq<Letter>,
    worths: Seq<Seq<char>>,
    n: node::Node,
    k: int,
    j: int,
)
    requires
        0 <= k < v.len(),
        v[k].to == n.id || v[k].to == n.role + "@"@ + n.host,
        v.take(k).filter(|m: Letter| m.to == n.id || m.to == n.role + "@"@ + n.host).len() < 6,
        0 <= j < direct_lines(v[k], worths[k]).len(),
    ensures
        nudge_text(v, worths, n).contains(direct_lines(v[k], worths[k])[j]),
{
    let d = directs(v, worths, n);
    let f = first(d, SHOWN as nat);
    lemma_directs(v.take(k), worths, n);
    lemma_directs_at(v, worths, n, k);
    assert(by_name(n) == |m: Letter| m.to == n.id || m.to == n.role + "@"@ + n.host);
    let at = directs(v.take(k), worths, n).len() as int;
    assert(at < 6);
    assert(f[at] == d[at]);
    lemma_direct_lines(f, at, j);
    let a = all_direct_lines(f);
    let line = direct_lines(v[k], worths[k])[j];
    let i = choose|i: int| 0 <= i < a.len() && a[i] == line;
    assert(nudge_text(v, worths, n)[i] == line);
}

/// A nudge says how many more messages name the node than it shows, how many
/// others are new, and what the first six of those are about.
pub proof fn nudge_counts_the_rest(v: Seq<Letter>, worths: Seq<Seq<char>>, n: node::Node, i: int)
    ensures
        ({
            let direct = v.filter(|m: Letter| m.to == n.id || m.to == n.role + "@"@ + n.host);
            let others = v.filter(|m: Letter| m.to != n.id && m.to != n.role + "@"@ + n.host);
            let r = nudge_text(v, worths, n);
            &&& direct.len() > 6 ==> r.contains(
                "📨 (+"@ + text::decimal((direct.len() - 6) as nat) + package::named(
                    " more addressed to you — `"@,
                    "-mesh inbox`)"@,
                ),
            )
            &&& others.len() > 0 ==> r.contains(
                "📨 "@ + text::decimal(others.len()) + package::named(
                    " broadcast message(s) — `"@,
                    "-mesh inbox`:"@,
                ),
            )
            &&& 0 <= i < others.len() && i < 6 ==> r.contains(
                "   • "@ + others[i].subject + " from "@ + others[i].from,
            )
        }),
{
    let d = directs(v, worths, n);
    let b = broadcasts(v, n);
    let r = nudge_text(v, worths, n);
    lemma_directs(v, worths, n);
    lemma_broadcasts(v, n);
    assert(by_name(n) == |m: Letter| m.to == n.id || m.to == n.role + "@"@ + n.host);
    let a = all_direct_lines(first(d, SHOWN as nat));
    let more = if d.len() > SHOWN {
        seq![
            "📨 (+"@ + text::decimal((d.len() - SHOWN) as nat)
                + package::named(" more addressed to you — `"@, "-mesh inbox`)"@),
        ]
    } else {
        Seq::empty()
    };
    if d.len() > 6 {
        assert(r[a.len() as int] == more[0]);
    }
    if b.len() > 0 {
        let at = (a.len() + more.len()) as int;
        assert(r[at] == "📨 "@ + text::decimal(b.len()) + package::named(
            " broadcast message(s) — `"@,
            "-mesh inbox`:"@,
        ));
        let f = first(b, SHOWN as nat);
        if 0 <= i < b.len() && i < 6 {
            assert(f[i] == b[i]);
            let lines = broadcast_lines(f);
            assert(lines[i] == "   • "@ + b[i].subject + " from "@ + b[i].from);
            assert(r[at + 1 + i] == lines[i]);
        }
    }
}

/// What is told of a message that names the node: from whom and where, whether
/// its signature was checked, what it answers, and how to answer it.
pub proof fn direct_messages_say_whether_they_are_verified(m: Letter, worth: Seq<char>)
    requires
        worth != "FORGED"@,
    ensures
        direct_lines(m, worth)[0] == "📨 @you ["@ + (if worth == "verified"@ {
            "✓"@
        } else {
            "unverified"@
        }) + "] — from "@ + m.from + " ["@ + m.room + "] «"@ + m.subject + "» (id "@ + text::head(
            m.id,
            8,
        ) + ")"@,
        m.reference matches Some(r) ==> direct_lines(m, worth)[1] == "   (re: "@ + text::head(r, 8)
            + ")"@,
{
}

/// The inbox lists every new message, in order, with its time, kind, sender,
/// address, subject and identifier, and counts them.
pub proof fn inbox_lists_every_message(v: Seq<Letter>, id: Seq<char>, i: int)
    requires
        0 <= i < v.len(),
    ensures
        inbox_text(v, id).len() == v.len() + 2,
        inbox_text(v, id)[0] == text::decimal(v.len()) + " new message(s) for "@ + id + ":"@,
        inbox_text(v, id)[i + 1] == "  "@ + (v[i].ts + "  ["@ + v[i].kind + "] "@ + v[i].from
            + " → "@ + v[i].to + "  "@ + v[i].subject + "  (id "@ + text::head(v[i].id, 8) + ")"@),
{
    assert(listed(v)[i] == "  "@ + line_of(v[i]));
}

/// An empty inbox says so, and lists nothing.
pub proof fn empty_inbox_says_so(id: Seq<char>)
    ensures
        inbox_text(Seq::empty(), id) == seq!["no new messages for "@ + id],
{
}

/// The newest messages are the last ones, in their order: as many as are asked
/// for, or all.
pub proof fn newest_messages_are_the_last(v: Seq<Letter>, n: nat, i: int)
    ensures
        newest(v, n).len() == if n < v.len() {
            n
        } else {
            v.len()
        },
        0 <= i < newest(v, n).len() ==> newest(v, n)[i] == v[v.len() - newest(v, n).len() + i],
{
}

/// A log is as wide as it is asked to be, within bounds, and a hundred columns
/// where nothing is asked.
pub proof fn log_width_is_bounded(width: nat)
    ensures
        width == 0 ==> log_width(width) == 100,
        32 <= width <= 240 ==> log_width(width) == width,
        0 < width < 32 ==> log_width(width) == 32,
        width > 240 ==> log_width(width) == 240,
{
}

/// A body is shown whole where that is asked for or it is within the limit; else
/// it is cut there, and a sign says so.
pub proof fn long_bodies_are_cut_with_a_sign(body: Seq<char>, limit: nat)
    ensures
        excerpt(body, true, limit) == body,
        body.len() <= limit ==> excerpt(body, false, limit) == body,
        body.len() > limit ==> excerpt(body, false, limit) == body.take(limit as int) + "…"@,
{
}

/// A log marks what is verified and what is forged, each with its own sign, and
/// nothing else.
pub proof fn log_marks_what_was_checked(st: Style)
    ensures
        worth_mark("verified"@, st) == st.good@ + "✓"@ + st.reset@,
        worth_mark("FORGED"@, st) == st.bad@ + "‼FORGED"@ + st.reset@,
        worth_mark("unsigned"@, st).len() == 0,
        worth_mark("unverified"@, st).len() == 0,
{
    reveal_strlit("verified");
    reveal_strlit("FORGED");
    reveal_strlit("unsigned");
    reveal_strlit("unverified");
    reveal_strlit("");
    assert("unverified"@.len() == 10 && "unsigned"@.len() == 8);
    assert("verified"@[0] == 'v' && "unsigned"@[0] == 'u');
}

/// The time of day of a message is cut from where its date stands in the common
/// form.
pub proof fn log_shows_the_time_of_day(ts: Seq<char>)
    requires
        forall|i: int| 0 <= i < ts.len() ==> (#[trigger] ts[i] as u32) < 0x80,
        ts.len() >= 16,
    ensures
        clock_time(ts) == Some(ts.subrange(11, 16)),
{
    assert(ts + Seq::<char>::empty() =~= ts);
    text::lemma_chars_before_ascii(ts, Seq::empty(), 11);
    text::lemma_chars_before_ascii(ts, Seq::empty(), 16);
}

/// A log holds the lines of every message that it is given, in their order.
pub proof fn log_holds_every_message(
    a: Seq<Letter>,
    b: Seq<Letter>,
    worths: Seq<Seq<char>>,
    full: bool,
    w: nat,
    st: Style,
)
    requires
        worths.len() >= a.len() + b.len(),
    ensures
        log_blocks(a + b, worths, full, w, st) == log_blocks(a, worths, full, w, st) + log_blocks(
            b,
            worths.skip(a.len() as int),
            full,
            w,
            st,
        ),
    decreases b.len(),
{
    let rest = worths.skip(a.len() as int);
    if b.len() == 0 {
        assert(a + b =~= a);
        assert(log_blocks(b, rest, full, w, st) =~= Seq::empty());
    } else {
        let c = b.drop_last();
        log_holds_every_message(a, c, worths, full, w, st);
        assert((a + b).drop_last() =~= a + c);
        assert((a + b).last() == b.last());
        assert(rest[b.len() - 1] == worths[a.len() + b.len() - 1]);
    }
    assert(log_blocks(a + b, worths, full, w, st) =~= log_blocks(a, worths, full, w, st)
        + log_blocks(b, rest, full, w, st));
}

/// Every room that has a message is listed, and the common one always; a star
/// stands before those that the node takes part in.
pub proof fn rooms_are_listed(v: Seq<Letter>, n: node::Node, room: Seq<char>)
    ensures
        ({
            let rooms = lists::sorted_set(rooms_of(v).push("main"@));
            &&& rooms.contains(room) <==> room == "main"@ || exists|i: int|
                0 <= i < v.len() && (#[trigger] v[i]).room == room
            &&& rooms.contains(room) && n.rooms.contains(room) ==> room_lines(rooms, n).contains(
                "  ★ "@ + room,
            )
            &&& rooms.contains(room) && !n.rooms.contains(room) ==> room_lines(
                rooms,
                n,
            ).contains("    "@ + room)
        }),
{
    let all = rooms_of(v).push("main"@);
    let rooms = lists::sorted_set(all);
    lists::sorted_set_is_a_set(all);
    if all.contains(room) {
        let k = choose|k: int| 0 <= k < all.len() && all[k] == room;
        if k < v.len() {
            assert(v[k].room == room);
        }
    }
    if room == "main"@ {
        assert(all[v.len() as int] == room);
    }
    if exists|i: int| 0 <= i < v.len() && (#[trigger] v[i]).room == room {
        let i = choose|i: int| 0 <= i < v.len() && (#[trigger] v[i]).room == room;
        assert(all[i] == room);
    }
    reveal_strlit("  ");
    reveal_strlit("★");
    reveal_strlit(" ");
    reveal_strlit("  ★ ");
    reveal_strlit("    ");
    if rooms.contains(room) {
        let k = choose|k: int| 0 <= k < rooms.len() && rooms[k] == room;
        let line = room_lines(rooms, n)[k];
        if n.rooms.contains(room) {
            assert(line =~= "  ★ "@ + room);
        } else {
            assert(line =~= "    "@ + room);
        }
    }
}

/// A message is weighed by the record of its own sender, and as one without a key
/// where there is none.
pub proof fn messages_are_weighed_by_their_senders(
    v: Seq<Letter>,
    records: Seq<Option<String>>,
    i: int,
)
    requires
        0 <= i < v.len(),
    ensures
        weighed(v, records).len() == v.len(),
        records[i] is None ==> weighed(v, records)[i] == signing::trust(v[i], None),
        records[i] matches Some(s) ==> weighed(v, records)[i] == signing::trust(
            v[i],
            signing::pinned_key(s@),
        ),
{
}

/// The head of a message in a log says who sent it where and to whom, and the
/// first lines under it are its subject.
#[verifier::rlimit(80)]
#[verifier::spinoff_prover]
pub proof fn log_says_who_sent_what(m: Letter, worth: Seq<char>, full: bool, w: nat, st: Style)
    requires
        !st.tty,
        styled(st, false),
    ensures
        ({
            let r = log_block(m, worth, full, w, st);
            let subject = layout::wrapped(text::trimmed(m.subject), w, "  "@);
            &&& r[0].len() == 0
            &&& text::begins(r[1], m.from + " "@)
            &&& text::has_text(r[1], " · "@ + m.room + " → "@ + m.to + " "@)
            &&& forall|i: int| 0 <= i < subject.len() ==> r[2 + i] == #[trigger] subject[i]
        }),
{
    reveal_strlit("");
    let head = log_head(m, worth, st);
    let r = log_block(m, worth, full, w, st);
    let subject = layout::wrapped(text::trimmed(m.subject), w, "  "@);
    let time = match clock_time(m.ts) {
        Some(t) => t,
        None => m.ts,
    };
    let first = m.from + " "@;
    let where_to = " · "@ + m.room + " → "@ + m.to + " "@;
    let mark = worth_mark(worth, st);
    assert(head =~= first + time + where_to + mark);
    assert(head.subrange(0, first.len() as int) =~= first);
    text::lemma_has_part(first + time, where_to, mark);
    let bold = wrapped_in(subject, st.bold@, st.reset@);
    assert forall|i: int| 0 <= i < subject.len() implies r[2 + i] == #[trigger] subject[i] by {
        assert(bold[i] =~= subject[i]);
        assert(r[2 + i] == bold[i]);
    }
}

/// Messages with ASCII identifiers can always be listed, shown in a nudge and
/// logged, whatever else they say.
pub proof fn plain_messages_can_be_shown(v: Seq<Letter>, worths: Seq<Seq<char>>, n: node::Node)
    requires
        forall|i: int| 0 <= i < v.len() ==> vstd::utf8::is_ascii_chars((#[trigger] v[i]).id),
        forall|i: int|
            0 <= i < v.len() ==> ((#[trigger] v[i]).reference matches Some(r)
                ==> vstd::utf8::is_ascii_chars(r)),
    ensures
        all_listable(v),
        can_nudge_with(v, worths, n),
        can_log_all(v, false),
        can_log_all(v, true),
{
    assert forall|i: int| 0 <= i < v.len() implies text::cuttable((#[trigger] v[i]).id, 8) && (
    v[i].reference matches Some(r) ==> text::cuttable(r, 8) && text::cuttable(r, 6)) by {
        text::lemma_ascii_bytes(v[i].id, 8);
        if v[i].reference is Some {
            text::lemma_ascii_bytes(v[i].reference->0, 8);
            text::lemma_ascii_bytes(v[i].reference->0, 6);
        }
    }
    let d = directs(v, worths, n);
    assert forall|k: int| 0 <= k < d.len() implies v.contains(#[trigger] d[k].0) by {
        lemma_directs_are_messages(v, worths, n, k);
    }
    let shown = first(d, SHOWN as nat);
    assert forall|k: int| 0 <= k < shown.len() implies can_show(#[trigger] shown[k]) by {
        assert(shown[k] == d[k]);
        assert(v.contains(d[k].0));
        let i = choose|i: int| 0 <= i < v.len() && v[i] == d[k].0;
        assert(text::cuttable(v[i].id, 8));
    }
}

proof fn lemma_directs_are_messages(
    v: Seq<Letter>,
    worths: Seq<Seq<char>>,
    n: node::Node,
    k: int,
)
    requires
        0 <= k < directs(v, worths, n).len(),
    ensures
        v.contains(directs(v, worths, n)[k].0),
    decreases v.len(),
{
    let w = v.drop_last();
    let before = directs(w, worths, n);
    if k < before.len() {
        lemma_directs_are_messages(w, worths, n, k);
        let i = choose|i: int| 0 <= i < w.len() && w[i] == before[k].0;
        assert(v[i] == w[i]);
    } else {
        assert(v[v.len() - 1] == v.last());
    }
}

/// The six colours of a log are all different.
pub proof fn log_colours_differ(i: int, j: int)
    requires
        0 <= i < j < 6,
    ensures
        palette(i) != palette(j),
{
    reveal_strlit("\x1b[1;36m");
    reveal_strlit("\x1b[1;32m");
    reveal_strlit("\x1b[1;33m");
    reveal_strlit("\x1b[1;35m");
    reveal_strlit("\x1b[1;34m");
    reveal_strlit("\x1b[1;91m");
    assert(palette(0)[5] == '6' && palette(1)[5] == '2' && palette(2)[5] == '3' && palette(3)[5]
        == '5' && palette(4)[5] == '4' && palette(5)[5] == '1');
}

} // verus!
