//! The record of a node in the shared repository, which pins its public key.

use vstd::prelude::*;

use crate::json;
use crate::json::Json;
use crate::json::JsonTree;
use crate::mesh::node::Config;
use crate::mesh::node::Node;
use crate::text;

verus! {

/// A text, or null where it is missing.
pub open spec fn str_or_null(s: Option<Seq<char>>) -> JsonTree {
    match s {
        Some(s) => JsonTree::Str(s),
        None => JsonTree::Null,
    }
}

/// What the record of a node says.
pub open spec fn registered(n: Node, now: Seq<char>, note: Seq<char>) -> JsonTree {
    JsonTree::Object(
        seq![
            ("host"@, JsonTree::Str(n.host)),
            ("id"@, JsonTree::Str(n.id)),
            ("note"@, JsonTree::Str(note)),
            ("protocol_versions"@, JsonTree::Array(seq![JsonTree::Number(text::decimal(1))])),
            ("pubkey"@, str_or_null(n.pubkey)),
            ("registered_at"@, JsonTree::Str(now)),
            ("role"@, JsonTree::Str(n.role)),
            ("v"@, JsonTree::Number(text::decimal(1))),
        ],
    )
}

/// The text of the record of a node.
pub open spec fn record_text(n: Node, now: Seq<char>, note: Seq<char>) -> Seq<char> {
    json::laid_out(registered(n, now, note), ""@) + "\n"@
}

/// The text of the record of a node.
pub fn registration(cfg: &Config, now: &str, note: &str) -> (r: String)
    ensures
        r@ == record_text(cfg@, now@, note@),
{
    let pubkey = match &cfg.pubkey {
        Some(k) => json::string(k.as_str()),
        None => Json::Null,
    };
    let mut versions: Vec<Json> = Vec::new();
    versions.push(json::number(1));
    proof {
        json::lemma_trees(versions@);
        assert(json::trees(versions@) =~= seq![JsonTree::Number(text::decimal(1))]);
    }
    let mut v: Vec<(String, Json)> = Vec::new();
    v.push((String::from_str("host"), json::string(cfg.host.as_str())));
    v.push((String::from_str("id"), json::string(cfg.id.as_str())));
    v.push((String::from_str("note"), json::string(note)));
    v.push((String::from_str("protocol_versions"), Json::Array(versions)));
    v.push((String::from_str("pubkey"), pubkey));
    v.push((String::from_str("registered_at"), json::string(now)));
    v.push((String::from_str("role"), json::string(cfg.role.as_str())));
    v.push((String::from_str("v"), json::number(1)));
    proof {
        json::lemma_member_trees(v@);
        assert(json::member_trees(v@) =~= registered(cfg@, now@, note@)->Object_0);
    }
    let record = Json::Object(v);
    assert(record@ == registered(cfg@, now@, note@));
    proof {
        lemma_registered(cfg@, now@, note@);
    }
    let mut r = json::lay_out(&record);
    r.append("\n");
    r
}

/// The names in the record of a node, of which each stands before the next.
proof fn lemma_names()
    ensures
        text::before("host"@, "id"@),
        text::before("id"@, "note"@),
        text::before("note"@, "protocol_versions"@),
        text::before("protocol_versions"@, "pubkey"@),
        text::before("pubkey"@, "registered_at"@),
        text::before("registered_at"@, "role"@),
        text::before("role"@, "v"@),
{
    reveal_strlit("host");
    reveal_strlit("id");
    reveal_strlit("note");
    reveal_strlit("protocol_versions");
    reveal_strlit("pubkey");
    reveal_strlit("registered_at");
    reveal_strlit("role");
    reveal_strlit("v");
    reveal_with_fuel(text::before, 3);
}

/// The record of a node is read back as it was written, and so is the key in it.
pub proof fn lemma_registered(n: Node, now: Seq<char>, note: Seq<char>)
    ensures
        json::regular(registered(n, now, note), 100),
        json::text_of(json::member(registered(n, now, note), "pubkey"@)) == n.pubkey,
{
    lemma_names();
    let members = registered(n, now, note)->Object_0;
    let names = members.map_values(|m: (Seq<char>, JsonTree)| m.0);
    assert forall|k: int| 0 <= k < names.len() - 1 implies text::before(
        #[trigger] names[k],
        names[k + 1],
    ) by {
        assert(names[k] == members[k].0 && names[k + 1] == members[k + 1].0);
    }
    let one = JsonTree::Number(text::decimal(1));
    assert(one->Number_0 == text::decimal(1u64 as nat));
    assert(json::regular(one, 98));
    assert(json::regular(one, 99));
    assert(json::regular(JsonTree::Array(seq![one]), 99));
    assert forall|i: int| 0 <= i < members.len() implies json::regular(
        (#[trigger] members[i]).1,
        99,
    ) by {}
    json::lemma_regular_object(members, 100);
    text::lemma_before_irreflexive("pubkey"@);
    json::lemma_ascending(names, 0, 4);
    json::lemma_ascending(names, 1, 4);
    json::lemma_ascending(names, 2, 4);
    json::lemma_ascending(names, 3, 4);
    assert(members.skip(1).skip(1).skip(1).skip(1)[0] == members[4]);
    reveal_with_fuel(json::lookup, 6);
}

/// A record says who the node is: its identifier, role and host, when it was
/// registered and the note that was given.
pub proof fn records_say_who_a_node_is(n: Node, now: Seq<char>, note: Seq<char>)
    ensures
        ({
            let m = registered(n, now, note)->Object_0;
            &&& m.contains(("id"@, JsonTree::Str(n.id)))
            &&& m.contains(("role"@, JsonTree::Str(n.role)))
            &&& m.contains(("host"@, JsonTree::Str(n.host)))
            &&& m.contains(("note"@, JsonTree::Str(note)))
            &&& m.contains(("registered_at"@, JsonTree::Str(now)))
            &&& n.pubkey matches Some(k) ==> m.contains(("pubkey"@, JsonTree::Str(k)))
            &&& n.pubkey is None ==> m.contains(("pubkey"@, JsonTree::Null))
        }),
{
    let m = registered(n, now, note)->Object_0;
    assert(m[0] == ("host"@, JsonTree::Str(n.host)));
    assert(m[1] == ("id"@, JsonTree::Str(n.id)));
    assert(m[2] == ("note"@, JsonTree::Str(note)));
    assert(m[4].0 == "pubkey"@);
    assert(m[5] == ("registered_at"@, JsonTree::Str(now)));
    assert(m[6] == ("role"@, JsonTree::Str(n.role)));
    if n.pubkey is Some {
        assert(m[4] == ("pubkey"@, JsonTree::Str(n.pubkey->0)));
    } else {
        assert(m[4] == ("pubkey"@, JsonTree::Null));
    }
}

} // verus!
