//! Who is present on the mesh.

use vstd::prelude::*;

use crate::clock;
use crate::clock::Moment;
use crate::json;
use crate::json::Json;
use crate::json::JsonTree;
use crate::lists;
use crate::mesh::node;
use crate::mesh::node::Config;
use crate::paths;
use crate::text;

verus! {

/// A node that is silent for so many seconds is not present any more.
pub const PRESENCE_TTL_SECS: i64 = 900;

/// What a node says of itself.
pub struct Status {
    pub id: String,
    pub role: String,
    pub host: String,
    pub rooms: Vec<String>,
    pub last_seen: String,
    pub status: String,
}

/// What a `Status` says.
pub struct Sign {
    pub id: Seq<char>,
    pub role: Seq<char>,
    pub host: Seq<char>,
    pub rooms: Seq<Seq<char>>,
    pub last_seen: Seq<char>,
    pub status: Seq<char>,
}

impl View for Status {
    type V = Sign;

    open spec fn view(&self) -> Sign {
        Sign {
            id: self.id@,
            role: self.role@,
            host: self.host@,
            rooms: text::texts(self.rooms@),
            last_seen: self.last_seen@,
            status: self.status@,
        }
    }
}

/// What the nodes of a list say of themselves.
pub open spec fn signs(v: Seq<Status>) -> Seq<Sign> {
    v.map_values(|s: Status| s@)
}

/// What a node says of itself in that state.
pub fn new_status(cfg: &Config, now: &str, state: &str) -> (r: Status)
    ensures
        r@ == (Sign {
            id: cfg@.id,
            role: cfg@.role,
            host: cfg@.host,
            rooms: cfg@.rooms,
            last_seen: now@,
            status: state@,
        }),
{
    Status {
        id: cfg.id.clone(),
        role: cfg.role.clone(),
        host: cfg.host.clone(),
        rooms: lists::copy(&cfg.rooms),
        last_seen: String::from_str(now),
        status: String::from_str(state),
    }
}

/// Where a node keeps what it says of itself.
pub fn status_path(cfg: &Config) -> (r: String)
    ensures
        r@ == paths::under(
            paths::under(cfg@.repo, "nodes"@),
            node::dashed(cfg@.id) + ".status"@,
        ),
{
    let dir = paths::join(cfg.repo.as_str(), "nodes");
    let mut name = node::sanitize(cfg.id.as_str());
    name.append(".status");
    paths::join(dir.as_str(), name.as_str())
}

/// The message of the commit of a sign of life.
pub fn beat_message(id: &str, state: &str) -> (r: String)
    ensures
        r@ == "beat "@ + id@ + " ("@ + state@ + ")"@,
{
    let mut r = String::from_str("beat ");
    r.append(id);
    r.append(" (");
    r.append(state);
    r.append(")");
    r
}

/// Whether a node is to give a sign of life, given the seconds since the last
/// one. It does not where that was less than five minutes ago.
pub fn heartbeat(last: Option<u64>) -> (r: bool)
    ensures
        r == !(last is Some && last->0 < 300),
{
    match last {
        Some(s) => s >= 300,
        None => true,
    }
}

// ---- present and away -----------------------------------------------------

/// The seconds since a node was seen; as many as there can be where it does not
/// say.
pub open spec fn silence(last_seen: Option<Moment>, now: Moment) -> int {
    match last_seen {
        Some(t) => clock::seconds_between(now, t),
        None => i64::MAX as int,
    }
}

/// Whether a node is present that was last seen then.
pub open spec fn is_present(s: Sign, last_seen: Option<Moment>, now: Moment) -> bool {
    s.status != "left"@ && silence(last_seen, now) < PRESENCE_TTL_SECS
}

/// The line for a node.
pub open spec fn node_line(s: Sign, last_seen: Option<Moment>, now: Moment) -> Seq<char> {
    let age = silence(last_seen, now);
    text::left_aligned(s.id, 30) + " rooms=["@ + text::joined(s.rooms, ","@) + "] seen "@
        + text::signed_decimal(
        if age < 0 {
            0
        } else {
            age
        },
    ) + "s ago"@
}

/// The line for a node that is away.
pub open spec fn away_line(s: Sign, last_seen: Option<Moment>, now: Moment) -> Seq<char> {
    node_line(s, last_seen, now) + (if s.status == "left"@ {
        " (left)"@
    } else {
        " (idle)"@
    })
}

/// The lines for the nodes of a list that are present.
pub open spec fn present_lines(
    v: Seq<Sign>,
    seen: Seq<Option<Moment>>,
    now: Moment,
) -> Seq<Seq<char>>
    decreases v.len(),
{
    if v.len() == 0 {
        Seq::empty()
    } else {
        let before = present_lines(v.drop_last(), seen, now);
        let t = seen[v.len() - 1];
        if is_present(v.last(), t, now) {
            before.push(node_line(v.last(), t, now))
        } else {
            before
        }
    }
}

/// The lines for the nodes of a list that are away.
pub open spec fn away_lines(v: Seq<Sign>, seen: Seq<Option<Moment>>, now: Moment) -> Seq<Seq<char>>
    decreases v.len(),
{
    if v.len() == 0 {
        Seq::empty()
    } else {
        let before = away_lines(v.drop_last(), seen, now);
        let t = seen[v.len() - 1];
        if is_present(v.last(), t, now) {
            before
        } else {
            before.push(away_line(v.last(), t, now))
        }
    }
}

/// When the nodes of a list were last seen.
pub open spec fn sightings(v: Seq<Sign>) -> Seq<Option<Moment>> {
    v.map_values(|s: Sign| clock::rfc3339_moment(s.last_seen))
}

/// Every node is listed once: as present where it gave a sign of life lately and
/// did not leave, and else as away.
pub proof fn every_node_is_listed(v: Seq<Sign>, seen: Seq<Option<Moment>>, now: Moment)
    ensures
        present_lines(v, seen, now).len() + away_lines(v, seen, now).len() == v.len(),
        forall|i: int|
            0 <= i < v.len() ==> if is_present(#[trigger] v[i], seen[i], now) {
                present_lines(v, seen, now).contains(node_line(v[i], seen[i], now))
            } else {
                away_lines(v, seen, now).contains(away_line(v[i], seen[i], now))
            },
    decreases v.len(),
{
    if v.len() > 0 {
        let w = v.drop_last();
        every_node_is_listed(w, seen, now);
        let p = present_lines(v, seen, now);
        let q = away_lines(v, seen, now);
        assert forall|i: int| 0 <= i < v.len() implies if is_present(#[trigger] v[i], seen[i], now) {
            p.contains(node_line(v[i], seen[i], now))
        } else {
            q.contains(away_line(v[i], seen[i], now))
        } by {
            if i == v.len() - 1 {
                if is_present(v[i], seen[i], now) {
                    assert(p[p.len() - 1] == node_line(v[i], seen[i], now));
                } else {
                    assert(q[q.len() - 1] == away_line(v[i], seen[i], now));
                }
            } else {
                assert(w[i] == v[i]);
                if is_present(v[i], seen[i], now) {
                    let l = node_line(v[i], seen[i], now);
                    let pw = present_lines(w, seen, now);
                    let k = choose|k: int| 0 <= k < pw.len() && pw[k] == l;
                    assert(p[k] == l);
                } else {
                    let l = away_line(v[i], seen[i], now);
                    let qw = away_lines(w, seen, now);
                    let k = choose|k: int| 0 <= k < qw.len() && qw[k] == l;
                    assert(q[k] == l);
                }
            }
        }
    }
}

/// The line for a node.
fn show_node(s: &Status, age: i64) -> (r: String)
    ensures
        r@ == text::left_aligned(s@.id, 30) + " rooms=["@ + text::joined(s@.rooms, ","@)
            + "] seen "@ + text::signed_decimal(
            if age < 0 {
                0
            } else {
                age as int
            },
        ) + "s ago"@,
{
    let mut r = text::align_left(s.id.as_str(), 30);
    r.append(" rooms=[");
    r.append(text::join(&s.rooms, ",").as_str());
    r.append("] seen ");
    r.append(
        text::show_i64(
            if age < 0 {
                0
            } else {
                age
            },
        ).as_str(),
    );
    r.append("s ago");
    r
}

/// The lines for the nodes of a list that are present and that are away, where
/// they were last seen at those times.
pub fn roster_at(nodes: &Vec<Status>, seen: &Vec<Option<Moment>>, now: Moment) -> (r: (
    Vec<String>,
    Vec<String>,
))
    requires
        now.wf(),
        seen@.len() == nodes@.len(),
        forall|i: int|
            0 <= i < seen@.len() ==> (#[trigger] seen@[i] matches Some(t) ==> t.wf()),
    ensures
        text::texts(r.0@) == lists::sorted(present_lines(signs(nodes@), seen@, now)),
        text::texts(r.1@) == lists::sorted(away_lines(signs(nodes@), seen@, now)),
{
    let ghost all = signs(nodes@);
    let mut present: Vec<String> = Vec::new();
    let mut away: Vec<String> = Vec::new();
    let mut i: usize = 0;
    assert(all.take(0) =~= Seq::empty());
    assert(text::texts(present@) =~= Seq::empty());
    assert(text::texts(away@) =~= Seq::empty());
    while i < nodes.len()
        invariant
            i <= nodes@.len(),
            now.wf(),
            seen@.len() == nodes@.len(),
            forall|k: int|
                0 <= k < seen@.len() ==> (#[trigger] seen@[k] matches Some(t) ==> t.wf()),
            all == signs(nodes@),
            text::texts(present@) == present_lines(all.take(i as int), seen@, now),
            text::texts(away@) == away_lines(all.take(i as int), seen@, now),
        decreases nodes@.len() - i,
    {
        let s = &nodes[i];
        proof {
            assert(all.take(i + 1).drop_last() =~= all.take(i as int));
            assert(all.take(i + 1).last() == s@);
            assert(seen@[i as int] matches Some(t) ==> t.wf());
        }
        let age: i64 = match seen[i] {
            Some(t) => clock::whole_seconds(now, t),
            None => i64::MAX,
        };
        let mut line = show_node(s, age);
        let left = text::same(s.status.as_str(), "left");
        if !left && age < PRESENCE_TTL_SECS {
            proof {
                text::lemma_texts_push(present@, line);
            }
            present.push(line);
        } else {
            line.append(
                if left {
                    " (left)"
                } else {
                    " (idle)"
                },
            );
            proof {
                text::lemma_texts_push(away@, line);
            }
            away.push(line);
        }
        i = i + 1;
    }
    assert(all.take(i as int) =~= all);
    (lists::sort(&present), lists::sort(&away))
}

/// The lines for the nodes of a list that are present and that are away.
pub fn roster(nodes: &Vec<Status>, now: Moment) -> (r: (Vec<String>, Vec<String>))
    requires
        now.wf(),
    ensures
        text::texts(r.0@) == lists::sorted(
            present_lines(signs(nodes@), sightings(signs(nodes@)), now),
        ),
        text::texts(r.1@) == lists::sorted(
            away_lines(signs(nodes@), sightings(signs(nodes@)), now),
        ),
{
    let ghost all = sightings(signs(nodes@));
    let mut seen: Vec<Option<Moment>> = Vec::new();
    let mut i: usize = 0;
    while i < nodes.len()
        invariant
            i <= nodes@.len(),
            all == sightings(signs(nodes@)),
            seen@ == all.take(i as int),
            forall|k: int|
                0 <= k < seen@.len() ==> (#[trigger] seen@[k] matches Some(t) ==> t.wf()),
        decreases nodes@.len() - i,
    {
        let t = clock::parse_rfc3339(nodes[i].last_seen.as_str());
        assert(signs(nodes@)[i as int] == nodes@[i as int]@);
        assert(all[i as int] == t);
        seen.push(t);
        assert(seen@ =~= all.take(i + 1));
        i = i + 1;
    }
    assert(all.take(i as int) =~= all);
    roster_at(nodes, &seen, now)
}

/// Lines behind a mark.
pub open spec fn marked_lines(lines: Seq<Seq<char>>, mark: Seq<char>) -> Seq<Seq<char>> {
    lines.map_values(|l: Seq<char>| mark + l)
}

/// The lines that say who is present, and who is away where anyone is.
pub open spec fn presence_text(present: Seq<Seq<char>>, away: Seq<Seq<char>>) -> Seq<Seq<char>> {
    seq!["PRESENT ("@ + text::decimal(present.len()) + "):"@] + marked_lines(present, "  🟢 "@) + (
    if away.len() > 0 {
        seq!["away/left ("@ + text::decimal(away.len()) + "):"@] + marked_lines(away, "  ⚪ "@)
    } else {
        Seq::empty()
    })
}

/// Adds a heading with the number of lines, and the lines behind a mark.
fn say_group(out: &mut Vec<String>, head: &str, lines: &Vec<String>, mark: &str)
    ensures
        text::texts(final(out)@) == text::texts(old(out)@) + (seq![
            head@ + " ("@ + text::decimal(lines@.len()) + "):"@,
        ] + marked_lines(text::texts(lines@), mark@)),
{
    let ghost before = text::texts(out@);
    let ghost all = marked_lines(text::texts(lines@), mark@);
    let mut title = String::from_str(head);
    title.append(" (");
    title.append(text::show_usize(lines.len()).as_str());
    title.append("):");
    let ghost first = title@;
    proof {
        text::lemma_texts_push(out@, title);
    }
    out.push(title);
    let mut i: usize = 0;
    assert(text::texts(out@) =~= before + (seq![first] + all.take(0)));
    while i < lines.len()
        invariant
            i <= lines@.len(),
            all == marked_lines(text::texts(lines@), mark@),
            text::texts(out@) == before + (seq![first] + all.take(i as int)),
        decreases lines@.len() - i,
    {
        let mut line = String::from_str(mark);
        line.append(lines[i].as_str());
        assert(all[i as int] == line@);
        proof {
            text::lemma_texts_push(out@, line);
        }
        out.push(line);
        assert(text::texts(out@) =~= before + (seq![first] + all.take(i + 1)));
        i = i + 1;
    }
    assert(all.take(i as int) =~= all);
}

/// The lines that say who is present and who is away.
pub fn presence_lines(present: &Vec<String>, away: &Vec<String>) -> (r: Vec<String>)
    ensures
        text::texts(r@) == presence_text(text::texts(present@), text::texts(away@)),
{
    let mut out: Vec<String> = Vec::new();
    assert(text::texts(out@) =~= Seq::empty());
    proof {
        reveal_strlit("PRESENT (");
        reveal_strlit("PRESENT");
        reveal_strlit("away/left (");
        reveal_strlit("away/left");
        reveal_strlit(" (");
        assert("PRESENT"@ + " ("@ =~= "PRESENT ("@);
        assert("away/left"@ + " ("@ =~= "away/left ("@);
    }
    say_group(&mut out, "PRESENT", present, "  🟢 ");
    if away.len() > 0 {
        say_group(&mut out, "away/left", away, "  ⚪ ");
    }
    assert(text::texts(out@) =~= presence_text(text::texts(present@), text::texts(away@)));
    out
}

// ---- who is here, by record -----------------------------------------------

/// The node of a record that was seen a moment ago: within the time after which
/// a node counts as gone, and not in the future.
pub open spec fn present_in(t: JsonTree, now: Moment) -> Option<Seq<char>> {
    match (json::text_of(json::member(t, "id"@)), json::text_of(json::member(t, "last_seen"@))) {
        (Some(id), Some(seen)) => match clock::rfc3339_moment(seen) {
            Some(then) => if 0 <= clock::seconds_between(now, then) < PRESENCE_TTL_SECS {
                Some(id)
            } else {
                None
            },
            None => None,
        },
        _ => None,
    }
}

/// The node of a record that was seen a moment ago.
pub fn present_node(j: &Json, now: Moment) -> (r: Option<String>)
    requires
        now.wf(),
    ensures
        text::opt_string(r) == present_in(j@, now),
{
    match (json::get_str(j, "id"), json::get_str(j, "last_seen")) {
        (Some(id), Some(seen)) => match clock::parse_rfc3339(seen.as_str()) {
            Some(then) => {
                let age = clock::whole_seconds(now, then);
                if 0 <= age && age < PRESENCE_TTL_SECS {
                    Some(id.clone())
                } else {
                    None
                }
            },
            None => None,
        },
        _ => None,
    }
}

/// The nodes of records that were seen a moment ago.
pub open spec fn present_among(records: Seq<Seq<char>>, now: Moment) -> Seq<Seq<char>>
    decreases records.len(),
{
    if records.len() == 0 {
        Seq::empty()
    } else {
        let before = present_among(records.drop_last(), now);
        match json::parsed(records.last()) {
            Some(t) => match present_in(t, now) {
                Some(id) => before.push(id),
                None => before,
            },
            None => before,
        }
    }
}

/// The nodes of records that were seen a moment ago, in their order, each once.
pub fn present_ids(records: &Vec<String>, now: Moment) -> (r: Vec<String>)
    requires
        now.wf(),
    ensures
        text::texts(r@) == lists::sorted_set(present_among(text::texts(records@), now)),
{
    let ghost all = text::texts(records@);
    let mut out: Vec<String> = Vec::new();
    let mut i: usize = 0;
    assert(all.take(0) =~= Seq::empty());
    assert(text::texts(out@) =~= Seq::empty());
    while i < records.len()
        invariant
            i <= records@.len(),
            now.wf(),
            all == text::texts(records@),
            text::texts(out@) == present_among(all.take(i as int), now),
        decreases records@.len() - i,
    {
        proof {
            assert(all.take(i + 1).drop_last() =~= all.take(i as int));
            assert(all.take(i + 1).last() == records@[i as int]@);
        }
        match json::parse(records[i].as_str()) {
            Some(j) => match present_node(&j, now) {
                Some(id) => {
                    proof {
                        text::lemma_texts_push(out@, id);
                    }
                    out.push(id);
                },
                None => {},
            },
            None => {},
        }
        i = i + 1;
    }
    assert(all.take(i as int) =~= all);
    lists::sort_set(&out)
}

/// The line for the key that a record pins.
pub open spec fn key_line(t: JsonTree) -> Seq<char> {
    let id = match json::text_of(json::member(t, "id"@)) {
        Some(s) => s,
        None => "?"@,
    };
    match json::text_of(json::member(t, "pubkey"@)) {
        Some(k) => "  🔑 "@ + text::left_aligned(id, 30) + " "@ + text::head(k, 16) + "…"@,
        None => "  ·  "@ + text::left_aligned(id, 30) + " (unsigned node)"@,
    }
}

/// Whether the key of a record can be shown in its short form.
pub fn key_is_showable(j: &Json) -> (r: bool)
    ensures
        r == (json::text_of(json::member(j@, "pubkey"@)) matches Some(k) ==> text::cuttable(k, 16)),
{
    match json::get_str(j, "pubkey") {
        Some(k) => text::can_cut(k.as_str(), 16),
        None => true,
    }
}

/// The line for the key that a record pins.
pub fn show_key(j: &Json) -> (r: String)
    requires
        json::text_of(json::member(j@, "pubkey"@)) matches Some(k) ==> text::cuttable(k, 16),
    ensures
        r@ == key_line(j@),
{
    let id = match json::get_str(j, "id") {
        Some(s) => s.as_str(),
        None => "?",
    };
    match json::get_str(j, "pubkey") {
        Some(k) => {
            let mut r = String::from_str("  🔑 ");
            r.append(text::align_left(id, 30).as_str());
            r.append(" ");
            r.append(text::byte_head(k.as_str(), 16).as_str());
            r.append("…");
            r
        },
        None => {
            let mut r = String::from_str("  ·  ");
            r.append(text::align_left(id, 30).as_str());
            r.append(" (unsigned node)");
            r
        },
    }
}

// ---- laws -----------------------------------------------------------------

/// A node is present for a quarter of an hour after it was last seen, unless it
/// said that it left; one that was never seen is not.
pub proof fn nodes_are_present_for_a_while(s: Sign, then: Moment, now: Moment)
    requires
        then.nanos < 1_000_000_000,
        now.nanos < 1_000_000_000,
    ensures
        is_present(s, Some(then), now) <==> s.status != "left"@ && (now.secs * 1_000_000_000
            + now.nanos) - (then.secs * 1_000_000_000 + then.nanos) < 900 * 1_000_000_000,
        !is_present(s, None, now),
{
    clock::time_passes_in_full(now, then, 900);
}

/// A record speaks for the node that it names, where it was written less than a
/// quarter of an hour ago and not in the future.
pub proof fn fresh_records_speak_for_their_nodes(
    t: JsonTree,
    seen: Seq<char>,
    then: Moment,
    now: Moment,
)
    requires
        now.nanos < 1_000_000_000,
        then.nanos < 1_000_000_000,
        json::member(t, "last_seen"@) == Some(JsonTree::Str(seen)),
        clock::rfc3339_moment(seen) == Some(then),
    ensures
        ({
            let passed = (now.secs * 1_000_000_000 + now.nanos) - (then.secs * 1_000_000_000
                + then.nanos);
            present_in(t, now) == if -1_000_000_000 < passed < 900 * 1_000_000_000 {
                json::text_of(json::member(t, "id"@))
            } else {
                None
            }
        }),
{
    clock::time_passes_in_full(now, then, 900);
    clock::time_passes_in_full(then, now, 1);
}

/// A record that does not say when it was written speaks for nobody.
pub proof fn undated_records_speak_for_nobody(t: JsonTree, now: Moment)
    requires
        !(json::member(t, "last_seen"@) matches Some(JsonTree::Str(s)) && clock::rfc3339_moment(
            s,
        ) is Some),
    ensures
        present_in(t, now) is None,
{
}

/// The nodes that are present are those that some record speaks for.
pub proof fn present_nodes_have_a_record(records: Seq<Seq<char>>, now: Moment, id: Seq<char>)
    ensures
        present_among(records, now).contains(id) <==> exists|i: int|
            0 <= i < records.len() && (json::parsed(#[trigger] records[i]) matches Some(t)
                && present_in(t, now) == Some(id)),
    decreases records.len(),
{
    if records.len() > 0 {
        let w = records.drop_last();
        present_nodes_have_a_record(w, now, id);
        let before = present_among(w, now);
        let all = present_among(records, now);
        let last = records[records.len() - 1];
        if before.contains(id) {
            let k = choose|k: int| 0 <= k < before.len() && before[k] == id;
            assert(all[k] == id);
            let i = choose|i: int|
                0 <= i < w.len() && (json::parsed(#[trigger] w[i]) matches Some(t) && present_in(
                    t,
                    now,
                ) == Some(id));
            assert(records[i] == w[i]);
        } else {
            assert forall|i: int| 0 <= i < w.len() implies !(json::parsed(
                #[trigger] records[i],
            ) matches Some(t) && present_in(t, now) == Some(id)) by {
                assert(w[i] == records[i]);
            }
            if all.contains(id) {
                let k = choose|k: int| 0 <= k < all.len() && all[k] == id;
                if k < before.len() {
                    assert(before[k] == id);
                }
                assert(json::parsed(last) is Some);
            }
            if json::parsed(last) is Some && present_in(json::parsed(last)->0, now) == Some(id) {
                assert(all[all.len() - 1] == id);
            }
        }
    }
}

/// What is said of who is here: how many, and a line for each; those who are away
/// come behind, where there are any.
#[verifier::rlimit(80)]
#[verifier::spinoff_prover]
pub proof fn presence_lists_everyone(present: Seq<Seq<char>>, away: Seq<Seq<char>>)
    ensures
        ({
            let r = presence_text(present, away);
            &&& r[0] == "PRESENT ("@ + text::decimal(present.len()) + "):"@
            &&& forall|i: int| 0 <= i < present.len() ==> r[1 + i] == "  🟢 "@ + #[trigger] present[i]
            &&& away.len() == 0 ==> r.len() == 1 + present.len()
            &&& away.len() > 0 ==> r.len() == 2 + present.len() + away.len() && r[1
                + present.len() as int] == "away/left ("@ + text::decimal(away.len()) + "):"@
            &&& forall|i: int|
                0 <= i < away.len() ==> r[2 + present.len() + i] == "  ⚪ "@ + #[trigger] away[i]
        }),
{
}

/// A node is shown with the beginning of its key where it has one on record, and
/// as unsigned where it has none.
pub proof fn keys_are_shown_by_their_beginning(t: JsonTree)
    ensures
        json::member(t, "pubkey"@) matches Some(JsonTree::Str(k)) ==> text::begins(
            key_line(t),
            "  🔑 "@,
        ) && text::ends(key_line(t), " "@ + text::head(k, 16) + "…"@),
        !(json::member(t, "pubkey"@) matches Some(JsonTree::Str(_))) ==> text::ends(
            key_line(t),
            " (unsigned node)"@,
        ),
{
    let s = key_line(t);
    if let Some(JsonTree::Str(k)) = json::member(t, "pubkey"@) {
        let head = "  🔑 "@;
        let tail = " "@ + text::head(k, 16) + "…"@;
        assert(s.subrange(0, head.len() as int) =~= head);
        assert(s.subrange(s.len() - tail.len(), s.len() as int) =~= tail);
    } else {
        let tail = " (unsigned node)"@;
        assert(s.subrange(s.len() - tail.len(), s.len() as int) =~= tail);
    }
}

/// The line for a node names it, its rooms, and how long ago it was seen, never
/// less than nothing; one that is away is said to have left where it did, and to
/// be idle where it did not.
#[verifier::rlimit(80)]
#[verifier::spinoff_prover]
pub proof fn node_lines_say_how_long_ago(s: Sign, last_seen: Option<Moment>, now: Moment)
    ensures
        text::begins(
            node_line(s, last_seen, now),
            text::left_aligned(s.id, 30) + " rooms=["@ + text::joined(s.rooms, ","@) + "] seen "@,
        ),
        last_seen matches Some(t) ==> text::ends(
            node_line(s, last_seen, now),
            "] seen "@ + text::decimal(
                if clock::seconds_between(now, t) < 0 {
                    0
                } else {
                    clock::seconds_between(now, t) as nat
                },
            ) + "s ago"@,
        ),
        s.status == "left"@ ==> away_line(s, last_seen, now) == node_line(s, last_seen, now)
            + " (left)"@,
        s.status != "left"@ ==> away_line(s, last_seen, now) == node_line(s, last_seen, now)
            + " (idle)"@,
{
    let line = node_line(s, last_seen, now);
    let head = text::left_aligned(s.id, 30) + " rooms=["@ + text::joined(s.rooms, ","@)
        + "] seen "@;
    assert(line.subrange(0, head.len() as int) =~= head);
    if last_seen is Some {
        let age = clock::seconds_between(now, last_seen->0);
        let tail = "] seen "@ + text::decimal(
            if age < 0 {
                0
            } else {
                age as nat
            },
        ) + "s ago"@;
        assert(line.subrange(line.len() - tail.len(), line.len() as int) =~= tail);
    }
}

} // verus!
